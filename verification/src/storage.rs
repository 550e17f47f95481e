use vstd::prelude::*;
use crate::error::RecallError;
use crate::note::{
    draft_of, header_line, lemma_header_line, written_lines, lemma_markdown_parts, markdown, note_header, DraftView,
    Note, NoteDraft, NoteView,
};
use crate::time::{
    after, datetime_text, days_from_epoch, is_after, lemma_two_days_later_is_later, parsed_datetime, utc_seconds,
    within_a_day, Timestamp,
};
use crate::text::{
    lemma_join_split, lemma_lines_after_line, lemma_lines_of_text, lines, split_lines,
    split_newlines, str_views, trim, trim_start, is_ws, join, lemma_split_newlines_nonempty, views,
};

verus! {

/// Where notes are kept: the path of one markdown file.
pub struct Storage {
    file_path: String,
}

impl Storage {
    /// The path of the notes file.
    pub closed spec fn path(&self) -> Seq<char> {
        self.file_path@
    }

    /// Storage in the file at `path`; nothing is touched on disk.
    pub fn new(path: String) -> (res: Result<Storage, RecallError>)
        ensures
            res matches Ok(s) && s.path() == path@,
    {
        Ok(Self::at(path))
    }

    pub(crate) fn at(path: String) -> (res: Storage)
        ensures
            res.path() == path@,
    {
        Storage { file_path: path }
    }

    /// The path of the notes file.
    pub fn file_path(&self) -> (res: &str)
        ensures
            res@ == self.path(),
    {
        self.file_path.as_str()
    }
}

/// The blocks of `lines` that still follow, given the lines `cur` of the block being read: a
/// header line opens a new block unless the current block is empty.
pub open spec fn group_from(lines: Seq<Seq<char>>, cur: Seq<Seq<char>>) -> Seq<Seq<Seq<char>>>
    decreases lines.len(),
{
    if lines.len() == 0 {
        if cur.len() > 0 {
            seq![cur]
        } else {
            seq![]
        }
    } else if draft_header(lines[0]) && cur.len() > 0 {
        seq![cur] + group_from(lines.drop_first(), seq![lines[0]])
    } else {
        group_from(lines.drop_first(), cur.push(lines[0]))
    }
}

/// Whether a line is a note header.
pub open spec fn draft_header(line: Seq<char>) -> bool {
    crate::note::note_header(line) is Some
}

/// The lines of a notes file cut into one block per note.
pub open spec fn blocks(lines: Seq<Seq<char>>) -> Seq<Seq<Seq<char>>> {
    group_from(lines, seq![])
}

/// The drafts that the blocks spell, blocks that spell none left out.
pub open spec fn drafts_of(blocks: Seq<Seq<Seq<char>>>) -> Seq<DraftView> {
    blocks.filter_map(|b: Seq<Seq<char>>| draft_of(b))
}

/// The drafts that a notes file spells, in file order.
pub open spec fn content_drafts(content: Seq<char>) -> Seq<DraftView> {
    drafts_of(blocks(lines(content)))
}

pub open spec fn draft_views(v: Seq<NoteDraft>) -> Seq<DraftView> {
    v.map_values(|d: NoteDraft| d@)
}

pub proof fn lemma_drafts_of_add(a: Seq<Seq<Seq<char>>>, b: Seq<Seq<Seq<char>>>)
    ensures
        drafts_of(a + b) == drafts_of(a) + drafts_of(b),
    decreases b.len(),
{
    if b.len() == 0 {
        assert(a + b == a);
    } else {
        lemma_drafts_of_add(a, b.drop_last());
        assert((a + b).drop_last() == a + b.drop_last());
        assert((a + b).last() == b.last());
    }
}

pub proof fn lemma_drafts_of_one(b: Seq<Seq<char>>)
    ensures
        drafts_of(seq![b]) == match draft_of(b) {
            Some(d) => seq![d],
            None => Seq::<DraftView>::empty(),
        },
{
    let f = |x: Seq<Seq<char>>| draft_of(x);
    let e = Seq::<Seq<Seq<char>>>::empty();
    assert(seq![b].drop_last() == e);
    assert(seq![b].last() == b);
    assert(e.filter_map(f) == Seq::<DraftView>::empty());
    match draft_of(b) {
        Some(d) => assert(drafts_of(seq![b]) =~= Seq::<DraftView>::empty() + seq![d]),
        None => {},
    }
}

/// The number of note header lines among `lines`.
pub open spec fn header_count(lines: Seq<Seq<char>>) -> nat
    decreases lines.len(),
{
    if lines.len() == 0 {
        0
    } else {
        (if draft_header(lines[0]) {
            1nat
        } else {
            0nat
        }) + header_count(lines.drop_first())
    }
}

proof fn lemma_group_count(ls: Seq<Seq<char>>, cur: Seq<Seq<char>>)
    ensures
        drafts_of(group_from(ls, cur)).len() == (if cur.len() > 0 && draft_header(cur[0]) {
            1nat
        } else {
            0nat
        }) + header_count(ls),
    decreases ls.len(),
{
    if ls.len() == 0 {
        if cur.len() > 0 {
            lemma_drafts_of_one(cur);
        } else {
            assert(drafts_of(Seq::<Seq<Seq<char>>>::empty()) =~= Seq::<DraftView>::empty());
        }
    } else if draft_header(ls[0]) && cur.len() > 0 {
        lemma_group_count(ls.drop_first(), seq![ls[0]]);
        lemma_drafts_of_add(seq![cur], group_from(ls.drop_first(), seq![ls[0]]));
        lemma_drafts_of_one(cur);
    } else {
        lemma_group_count(ls.drop_first(), cur.push(ls[0]));
        assert(cur.push(ls[0])[0] == if cur.len() > 0 {
            cur[0]
        } else {
            ls[0]
        });
    }
}

/// A notes file spells one draft for each of its note header lines: every header line opens a
/// note, and lines before the first header belong to none.
pub proof fn lemma_one_draft_per_header(content: Seq<char>)
    ensures
        content_drafts(content).len() == header_count(lines(content)),
{
    lemma_group_count(lines(content), Seq::empty());
}

/// The draft spelt by `lines[lo..hi]`.
fn block_draft(lines: &Vec<String>, lo: usize, hi: usize) -> (res: Option<NoteDraft>)
    requires
        lo < hi <= lines@.len(),
    ensures
        match res {
            Some(d) => draft_of(views(lines@).subrange(lo as int, hi as int)) == Some(d@),
            None => draft_of(views(lines@).subrange(lo as int, hi as int)) is None,
        },
{
    let mut block: Vec<&str> = Vec::new();
    let mut k = lo;
    while k < hi
        invariant
            lo <= k <= hi <= lines@.len(),
            str_views(block@) == views(lines@).subrange(lo as int, k as int),
        decreases hi - k,
    {
        let ghost before = block@;
        block.push(lines[k].as_str());
        assert(str_views(block@) == str_views(before).push(lines@[k as int]@));
        assert(views(lines@).subrange(lo as int, k + 1) == views(lines@).subrange(
            lo as int,
            k as int,
        ).push(lines@[k as int]@));
        k = k + 1;
    }
    Note::parse_draft(block.as_slice())
}

/// The drafts that a notes file spells, in file order: the file cut into lines, the lines
/// into blocks at header lines, each block read as a note.
pub fn parse_drafts(content: &str) -> (res: Vec<NoteDraft>)
    ensures
        draft_views(res@) == content_drafts(content@),
{
    let file_lines = split_lines(content);
    let ghost ls = views(file_lines@);
    let n = file_lines.len();
    let mut out: Vec<NoteDraft> = Vec::new();
    let mut cur_start: usize = 0;
    let mut i: usize = 0;
    assert(ls.skip(0) == ls);
    assert(ls.subrange(0, 0) == Seq::<Seq<char>>::empty());
    while i < n
        invariant
            cur_start <= i <= n == file_lines@.len(),
            ls == views(file_lines@),
            ls == lines(content@),
            content_drafts(content@) == draft_views(out@) + drafts_of(
                group_from(ls.skip(i as int), ls.subrange(cur_start as int, i as int)),
            ),
        decreases n - i,
    {
        let header = Note::is_note_header(file_lines[i].as_str());
        let ghost cur = ls.subrange(cur_start as int, i as int);
        let ghost rest = ls.skip(i as int);
        assert(rest[0] == ls[i as int]);
        assert(rest.drop_first() == ls.skip(i + 1));
        if header && cur_start < i {
            let ghost prev = out@;
            let d = block_draft(&file_lines, cur_start, i);
            proof {
                lemma_drafts_of_add(seq![cur], group_from(ls.skip(i + 1), seq![ls[i as int]]));
                lemma_drafts_of_one(cur);
            }
            match d {
                Some(d) => {
                    out.push(d);
                    assert(draft_views(out@) == draft_views(prev).push(d@));
                },
                None => {},
            }
            cur_start = i;
            assert(ls.subrange(i as int, i + 1) == seq![ls[i as int]]);
        } else {
            assert(cur.push(ls[i as int]) == ls.subrange(cur_start as int, i + 1));
        }
        i = i + 1;
    }
    assert(ls.skip(n as int).len() == 0);
    if cur_start < n {
        let ghost prev = out@;
        let d = block_draft(&file_lines, cur_start, n);
        proof {
            lemma_drafts_of_one(ls.subrange(cur_start as int, n as int));
        }
        match d {
            Some(d) => {
                out.push(d);
                assert(draft_views(out@) == draft_views(prev).push(d@));
            },
            None => {},
        }
    }
    out
}


/// Two points in time that are the same instant.
pub open spec fn same_instant(a: Timestamp, b: Timestamp) -> bool {
    a.epoch_seconds == b.epoch_seconds && a.local.nanosecond == b.local.nanosecond
}

/// The notes of `s` taken at the instant `t`, in their order in `s`.
pub open spec fn at_instant(s: Seq<NoteView>, t: Timestamp) -> Seq<NoteView> {
    s.filter(|n: NoteView| same_instant(n.timestamp, t))
}

/// No note comes before a later one.
pub open spec fn sorted_newest_first(s: Seq<NoteView>) -> bool {
    forall|i: int, j: int|
        0 <= i < j < s.len() ==> !is_after(#[trigger] s[j].timestamp, #[trigger] s[i].timestamp)
}

/// `output` is `input` sorted newest first, notes of the same instant kept in their order
/// (a stable sort).
pub open spec fn newest_first(input: Seq<NoteView>, output: Seq<NoteView>) -> bool {
    &&& output.len() == input.len()
    &&& sorted_newest_first(output)
    &&& forall|t: Timestamp| #[trigger] at_instant(output, t) == at_instant(input, t)
}

pub open spec fn note_views(v: Seq<Note>) -> Seq<NoteView> {
    v.map_values(|n: Note| n@)
}

proof fn lemma_filter_none(s: Seq<NoteView>, p: spec_fn(NoteView) -> bool)
    requires
        forall|i: int| 0 <= i < s.len() ==> !p(#[trigger] s[i]),
    ensures
        s.filter(p) == Seq::<NoteView>::empty(),
    decreases s.len(),
{
    reveal(Seq::filter);
    if s.len() > 0 {
        lemma_filter_none(s.drop_last(), p);
    }
}

/// `notes` sorted newest first; notes of the same instant keep their order.
pub fn sort_newest_first(notes: Vec<Note>) -> (res: Vec<Note>)
    ensures
        newest_first(note_views(notes@), note_views(res@)),
{
    let ghost all = note_views(notes@);
    let mut input = notes;
    let mut out: Vec<Note> = Vec::new();
    proof {
        assert(all.skip(all.len() as int) == Seq::<NoteView>::empty());
        assert(all.take(all.len() as int) == all);
        assert forall|t: Timestamp| #[trigger]
            at_instant(note_views(out@), t) == at_instant(all.skip(all.len() as int), t) by {
            assert(note_views(out@) == Seq::<NoteView>::empty());
        }
    }
    while input.len() > 0
        invariant
            input.len() <= all.len(),
            note_views(input@) == all.take(input.len() as int),
            newest_first(all.skip(input.len() as int), note_views(out@)),
        decreases input.len(),
    {
        let ghost k = input.len() - 1;
        let ghost suffix = all.skip(k + 1);
        let ghost before = note_views(out@);
        let ghost old_in = input@;
        let x = input.pop().unwrap();
        assert(note_views(old_in)[k] == old_in[k]@);
        assert(all.take(k + 1)[k] == all[k]);
        assert(x@ == all[k]);
        assert(note_views(input@) == all.take(k));
        let mut p: usize = 0;
        while p < out.len() && after(&out[p].timestamp, &x.timestamp)
            invariant
                p <= out.len(),
                note_views(out@) == before,
                forall|q: int| 0 <= q < p ==> is_after(#[trigger] before[q].timestamp, x@.timestamp),
            decreases out.len() - p,
        {
            p = p + 1;
        }
        let ghost xv = x@;
        out.insert(p, x);
        proof {
            let after_ = note_views(out@);
            let front = before.take(p as int);
            let back = before.skip(p as int);
            assert(after_ == front + seq![xv] + back);
            assert(all.skip(k) == seq![xv] + suffix);
            assert(before == front + back);
            // ordering
            assert forall|i: int, j: int| 0 <= i < j < after_.len() implies !is_after(
                #[trigger] after_[j].timestamp,
                #[trigger] after_[i].timestamp,
            ) by {
                if j < p {
                    assert(after_[i] == before[i] && after_[j] == before[j]);
                } else if j == p {
                    assert(after_[i] == before[i]);
                    assert(is_after(before[i].timestamp, xv.timestamp));
                } else if i == p {
                    assert(after_[j] == before[j - 1]);
                    if p < before.len() {
                        assert(!is_after(before[p as int].timestamp, xv.timestamp));
                        assert(!is_after(before[j - 1].timestamp, before[p as int].timestamp)
                            || j - 1 == p);
                    }
                } else if i < p {
                    assert(after_[i] == before[i] && after_[j] == before[j - 1]);
                } else {
                    assert(after_[i] == before[i - 1] && after_[j] == before[j - 1]);
                }
            }
            // same-instant order
            assert forall|t: Timestamp| #[trigger]
                at_instant(after_, t) == at_instant(all.skip(k), t) by {
                let pred = |n: NoteView| same_instant(n.timestamp, t);
                Seq::filter_distributes_over_add(front + seq![xv], back, pred);
                Seq::filter_distributes_over_add(front, seq![xv], pred);
                Seq::filter_distributes_over_add(front, back, pred);
                suffix.lemma_filter_prepend(xv, pred);
                assert(at_instant(before, t) == at_instant(suffix, t));
                if same_instant(xv.timestamp, t) {
                    assert forall|q: int| 0 <= q < front.len() implies !pred(
                        #[trigger] front[q],
                    ) by {
                        assert(is_after(before[q].timestamp, xv.timestamp));
                    }
                    lemma_filter_none(front, pred);
                    assert(seq![xv].filter(pred) == seq![xv]) by {
                        reveal(Seq::filter);
                        assert(seq![xv].drop_last() == Seq::<NoteView>::empty());
                    }
                    assert(at_instant(after_, t) == seq![xv] + back.filter(pred));
                    assert(at_instant(before, t) == back.filter(pred));
                } else {
                    assert(seq![xv].filter(pred) == Seq::<NoteView>::empty()) by {
                        reveal(Seq::filter);
                        assert(seq![xv].drop_last() == Seq::<NoteView>::empty());
                    }
                }
            }
        }
    }
    out
}


/// The notes that drafts become at the given points in time: draft `i` becomes a note at
/// `stamps[i]`, and is dropped where that is `None`.
pub open spec fn realized(drafts: Seq<DraftView>, stamps: Seq<Option<Timestamp>>) -> Seq<NoteView>
    decreases drafts.len(),
{
    if drafts.len() == 0 {
        seq![]
    } else {
        let rest = realized(drafts.drop_last(), stamps.take(drafts.len() - 1));
        match stamps[drafts.len() - 1] {
            Some(t) => rest.push(
                NoteView { timestamp: t, text: drafts.last().text, done: drafts.last().done },
            ),
            None => rest,
        }
    }
}

/// `stamps` are points in time at which the drafts' wall-clock readings can stand.
pub open spec fn stamps_fit(drafts: Seq<DraftView>, stamps: Seq<Option<Timestamp>>) -> bool {
    &&& stamps.len() == drafts.len()
    &&& forall|i: int|
        0 <= i < stamps.len() ==> (#[trigger] stamps[i] matches Some(t) ==> t.local
            == drafts[i].local)
}

/// The notes that drafts become at the given points in time, newest first.
pub fn notes_from_drafts(drafts: Vec<NoteDraft>, stamps: Vec<Option<Timestamp>>) -> (res: Vec<
    Note,
>)
    requires
        drafts.len() == stamps.len(),
    ensures
        newest_first(realized(draft_views(drafts@), stamps@), note_views(res@)),
{
    let n = drafts.len();
    let mut kept: Vec<Note> = Vec::new();
    let mut i: usize = 0;
    while i < n
        invariant
            i <= n == drafts.len() == stamps.len(),
            note_views(kept@) == realized(
                draft_views(drafts@).take(i as int),
                stamps@.take(i as int),
            ),
        decreases n - i,
    {
        let ghost dv = draft_views(drafts@).take(i + 1);
        assert(dv.drop_last() == draft_views(drafts@).take(i as int));
        assert(stamps@.take(i + 1).take(i as int) == stamps@.take(i as int));
        assert(dv.last() == drafts@[i as int]@);
        match stamps[i] {
            Some(t) => {
                let ghost before = note_views(kept@);
                let note = Note { timestamp: t, text: drafts[i].text.clone(), done: drafts[i].done };
                kept.push(note);
                assert(note_views(kept@) == before.push(note@));
            },
            None => {},
        }
        i = i + 1;
    }
    assert(draft_views(drafts@).take(n as int) == draft_views(drafts@));
    assert(stamps@.take(n as int) == stamps@);
    sort_newest_first(kept)
}

/// The notes that a notes file holds, newest first: each draft of the file becomes a note at
/// the point in time that its wall-clock reading denotes in the local time zone (drafts whose
/// reading the time zone skips are dropped); notes of the same instant keep their file order.
pub fn notes_from_text(content: &str) -> (res: Vec<Note>)
    ensures
        exists|stamps: Seq<Option<Timestamp>>|
            #[trigger] stamps_fit(content_drafts(content@), stamps) && stamps_near(stamps)
                && newest_first(realized(content_drafts(content@), stamps), note_views(res@)),
{
    let drafts = parse_drafts(content);
    let n = drafts.len();
    let mut stamps: Vec<Option<Timestamp>> = Vec::new();
    let mut i: usize = 0;
    while i < n
        invariant
            i <= n == drafts.len(),
            stamps.len() == i,
            forall|j: int|
                0 <= j < i ==> (#[trigger] stamps@[j] matches Some(t) ==> t.local
                    == drafts@[j].local && within_a_day(t) && t.local.valid()),
        decreases n - i,
    {
        stamps.push(Timestamp::from_local(drafts[i].local));
        i = i + 1;
    }
    let ghost st = stamps@;
    let ghost dv = draft_views(drafts@);
    assert(stamps_fit(dv, st)) by {
        assert forall|j: int| 0 <= j < st.len() implies (#[trigger] st[j] matches Some(t) ==> t.local
            == dv[j].local) by {
            assert(dv[j] == drafts@[j]@);
        }
    }
    notes_from_drafts(drafts, stamps)
}

/// Every point in time among `stamps` has a valid wall-clock reading and lies within a day of
/// it read as UTC.
pub open spec fn stamps_near(stamps: Seq<Option<Timestamp>>) -> bool {
    forall|i: int|
        0 <= i < stamps.len() ==> (#[trigger] stamps[i] matches Some(t) ==> within_a_day(t)
            && t.local.valid())
}

proof fn lemma_realized_near(drafts: Seq<DraftView>, stamps: Seq<Option<Timestamp>>)
    requires
        stamps.len() == drafts.len(),
        stamps_near(stamps),
    ensures
        forall|k: int|
            0 <= k < realized(drafts, stamps).len() ==> within_a_day(
                #[trigger] realized(drafts, stamps)[k].timestamp,
            ) && realized(drafts, stamps)[k].timestamp.local.valid(),
    decreases drafts.len(),
{
    if drafts.len() > 0 {
        let st = stamps.take(drafts.len() - 1);
        assert forall|i: int| 0 <= i < st.len() implies (#[trigger] st[i] matches Some(t)
            ==> within_a_day(t) && t.local.valid()) by {
            assert(st[i] == stamps[i]);
        }
        lemma_realized_near(drafts.drop_last(), st);
        let rest = realized(drafts.drop_last(), st);
        let r = realized(drafts, stamps);
        assert(stamps[drafts.len() - 1] matches Some(t) ==> within_a_day(t) && t.local.valid());
        assert forall|k: int| 0 <= k < r.len() implies within_a_day(#[trigger] r[k].timestamp)
            && r[k].timestamp.local.valid() by {
            if k < rest.len() {
                assert(r[k] == rest[k]);
            }
        }
    }
}

/// Loaded notes (`notes_from_text`) are in time order: a note whose wall-clock reading is two
/// days or more later than another's never comes after it, and neither does a note dated three
/// or more calendar days later, wherever the local time zone places each reading within a day of
/// it.
pub proof fn lemma_loaded_later_days_first(
    content: Seq<char>,
    stamps: Seq<Option<Timestamp>>,
    loaded: Seq<NoteView>,
)
    requires
        stamps_fit(content_drafts(content), stamps),
        stamps_near(stamps),
        newest_first(realized(content_drafts(content), stamps), loaded),
    ensures
        forall|i: int, j: int|
            0 <= i < j < loaded.len() ==> utc_seconds(#[trigger] loaded[j].timestamp.local)
                < utc_seconds(#[trigger] loaded[i].timestamp.local) + 2 * 86400,
        forall|i: int, j: int|
            0 <= i < j < loaded.len() ==> day_number(#[trigger] loaded[j]) < day_number(
                #[trigger] loaded[i],
            ) + 3,
{
    let r = realized(content_drafts(content), stamps);
    lemma_realized_near(content_drafts(content), stamps);
    assert forall|k: int| 0 <= k < loaded.len() implies within_a_day(#[trigger] loaded[k].timestamp)
        && loaded[k].timestamp.local.valid() by {
        let t = loaded[k].timestamp;
        let pred = |n: NoteView| same_instant(n.timestamp, t);
        loaded.lemma_filter_contains(pred, k);
        assert(at_instant(loaded, t) == at_instant(r, t));
        r.lemma_filter_contains_rev(pred, loaded[k]);
        let m = choose|m: int| 0 <= m < r.len() && r[m] == loaded[k];
        assert(within_a_day(r[m].timestamp) && r[m].timestamp.local.valid());
    }
    assert forall|i: int, j: int| 0 <= i < j < loaded.len() implies utc_seconds(
        #[trigger] loaded[j].timestamp.local,
    ) < utc_seconds(#[trigger] loaded[i].timestamp.local) + 2 * 86400 by {
        assert(within_a_day(loaded[i].timestamp) && within_a_day(loaded[j].timestamp));
        assert(!is_after(loaded[j].timestamp, loaded[i].timestamp));
        if utc_seconds(loaded[j].timestamp.local) >= utc_seconds(loaded[i].timestamp.local) + 2 * 86400 {
            lemma_two_days_later_is_later(loaded[i].timestamp, loaded[j].timestamp);
        }
    }
    assert forall|i: int, j: int| 0 <= i < j < loaded.len() implies day_number(#[trigger] loaded[j])
        < day_number(#[trigger] loaded[i]) + 3 by {
        assert(utc_seconds(loaded[j].timestamp.local) < utc_seconds(loaded[i].timestamp.local) + 2
            * 86400);
        assert(loaded[i].timestamp.local.valid());
        let di = day_number(loaded[i]);
        let dj = day_number(loaded[j]);
        assert(utc_seconds(loaded[i].timestamp.local) <= di * 86400 + 86399);
        assert(utc_seconds(loaded[j].timestamp.local) >= dj * 86400);
    }
}

/// The calendar day of a note's wall-clock reading, counted from 1970-01-01.
pub open spec fn day_number(n: NoteView) -> int {
    days_from_epoch(
        n.timestamp.local.year as int,
        n.timestamp.local.month as int,
        n.timestamp.local.day as int,
    )
}

/// How a note stands in its file: its markdown and a line feed.
pub open spec fn entry(n: NoteView) -> Seq<char> {
    markdown(n.timestamp.local, n.done, n.text) + seq!['\n']
}

/// A notes file holding `notes`: their entries one after another, a blank line between each
/// two.
pub open spec fn notes_text(notes: Seq<NoteView>) -> Seq<char>
    decreases notes.len(),
{
    if notes.len() == 0 {
        seq![]
    } else if notes.len() == 1 {
        entry(notes[0])
    } else {
        entry(notes[0]) + seq!['\n'] + notes_text(notes.drop_first())
    }
}

/// What is appended to a file holding `notes` to add the note `n`: the blank line that
/// separates it from a note before it, and its entry.
pub open spec fn appended(notes: Seq<NoteView>, n: NoteView) -> Seq<char> {
    if notes.len() > 0 {
        seq!['\n'] + entry(n)
    } else {
        entry(n)
    }
}

/// Adding a note to the end of a file holding `notes` appends `appended(notes, n)`.
pub proof fn lemma_notes_text_push(notes: Seq<NoteView>, n: NoteView)
    ensures
        notes_text(notes.push(n)) == notes_text(notes) + appended(notes, n),
    decreases notes.len(),
{
    if notes.len() == 0 {
        assert(notes.push(n) =~= seq![n]);
    } else if notes.len() == 1 {
        assert(notes.push(n).drop_first() =~= seq![n]);
        assert(notes.push(n)[0] == notes[0]);
        assert(notes_text(seq![n]) == entry(n));
        assert(notes_text(notes.push(n)) == entry(notes[0]) + seq!['\n'] + entry(n));
        assert(notes_text(notes.push(n)) =~= notes_text(notes) + appended(notes, n));
    } else {
        lemma_notes_text_push(notes.drop_first(), n);
        assert(notes.push(n).drop_first() == notes.drop_first().push(n));
        assert(notes.push(n)[0] == notes[0]);
        assert(notes_text(notes.push(n)) =~= notes_text(notes) + appended(notes, n));
    }
}

/// The text that adds `note` to the end of a notes file: its entry, after a blank line when the
/// file already holds a note (`after_other`).
pub fn entry_text(note: &Note, after_other: bool) -> (res: String)
    ensures
        res@ == (if after_other {
            seq!['\n']
        } else {
            Seq::<char>::empty()
        }) + entry(note@),
{
    let mut s = String::new();
    if after_other {
        crate::text::push_char(&mut s, '\n');
    }
    let md = note.to_markdown();
    s.append(md.as_str());
    crate::text::push_char(&mut s, '\n');
    s
}

/// The text of a notes file holding `notes`, in order.
pub fn notes_to_text(notes: &[Note]) -> (res: String)
    ensures
        res@ == notes_text(note_views(notes@)),
{
    let n = notes.len();
    let mut s = String::new();
    let mut i: usize = 0;
    while i < n
        invariant
            i <= n == notes@.len(),
            s@ == notes_text(note_views(notes@).take(i as int)),
        decreases n - i,
    {
        proof {
            lemma_notes_text_push(note_views(notes@).take(i as int), notes@[i as int]@);
            assert(note_views(notes@).take(i + 1) == note_views(notes@).take(i as int).push(
                notes@[i as int]@,
            ));
        }
        let piece = entry_text(&notes[i], i > 0);
        s.append(piece.as_str());
        i = i + 1;
    }
    assert(note_views(notes@).take(n as int) == note_views(notes@));
    s
}


/// A note that its file keeps as it is: a valid wall-clock time of the years 0 to 9999 whose
/// printed form chrono reads back as that time, and a text that is trimmed, holds no carriage
/// return and no line that reads as a note header.
pub open spec fn storable(n: NoteView) -> bool {
    &&& n.timestamp.local.valid()
    &&& 0 <= n.timestamp.local.year <= 9999
    &&& parsed_datetime(datetime_text(n.timestamp.local)) == Some(n.timestamp.local)
    &&& trim(n.text) == n.text
    &&& forall|i: int| 0 <= i < n.text.len() ==> n.text[i] != '\r'
    &&& forall|i: int|
        0 <= i < split_newlines(n.text).len() ==> !draft_header(
            #[trigger] split_newlines(n.text)[i],
        )
}

/// What a note's file entry says of it.
pub open spec fn draft_of_note(n: NoteView) -> DraftView {
    DraftView { local: n.timestamp.local, done: n.done, text: n.text }
}

/// The lines of a note's entry: its header line, then the pieces of its text.
pub open spec fn note_lines(n: NoteView) -> Seq<Seq<char>> {
    written_lines(n.timestamp.local, n.done, n.text)
}

/// The lines of a note's entry and the blank line after it.
pub open spec fn spaced_lines(n: NoteView) -> Seq<Seq<char>> {
    note_lines(n) + seq![Seq::<char>::empty()]
}

/// The lines of the entries of `notes`, one after another, a blank line between each two.
pub open spec fn all_lines(notes: Seq<NoteView>) -> Seq<Seq<char>>
    decreases notes.len(),
{
    if notes.len() == 0 {
        seq![]
    } else if notes.len() == 1 {
        note_lines(notes[0])
    } else {
        spaced_lines(notes[0]) + all_lines(notes.drop_first())
    }
}

/// The blocks of the entries of `notes`: each but the last with its blank line.
pub open spec fn note_blocks(notes: Seq<NoteView>) -> Seq<Seq<Seq<char>>>
    decreases notes.len(),
{
    if notes.len() == 0 {
        seq![]
    } else if notes.len() == 1 {
        seq![note_lines(notes[0])]
    } else {
        seq![spaced_lines(notes[0])] + note_blocks(notes.drop_first())
    }
}

/// The lines of the first entry of `notes` after its header, with the blank line that follows
/// it when another note comes after.
pub open spec fn first_body(notes: Seq<NoteView>) -> Seq<Seq<char>> {
    if notes.len() == 1 {
        split_newlines(notes[0].text)
    } else {
        split_newlines(notes[0].text) + seq![Seq::<char>::empty()]
    }
}

proof fn lemma_storable_header(n: NoteView)
    requires
        storable(n),
    ensures
        draft_header(header_line(n.timestamp.local, n.done)),
{
    lemma_header_line(n.timestamp.local, n.done);
}

proof fn lemma_storable_rest(notes: Seq<NoteView>)
    requires
        notes.len() > 0,
        forall|i: int| 0 <= i < notes.len() ==> storable(#[trigger] notes[i]),
    ensures
        storable(notes[0]),
        forall|i: int| 0 <= i < notes.drop_first().len() ==> storable(#[trigger] notes.drop_first()[i]),
{
    assert forall|i: int| 0 <= i < notes.drop_first().len() implies storable(#[trigger] notes.drop_first()[i]) by {
        assert(notes.drop_first()[i] == notes[i + 1]);
    }
}

#[verifier::spinoff_prover]
#[verifier::rlimit(40)]
proof fn lemma_lines_of_notes(notes: Seq<NoteView>)
    requires
        forall|i: int| 0 <= i < notes.len() ==> storable(#[trigger] notes[i]),
    ensures
        lines(notes_text(notes)) == all_lines(notes),
    decreases notes.len(),
{
    if notes.len() == 0 {
        assert(notes_text(notes) == Seq::<char>::empty());
    } else {
        let n = notes[0];
        lemma_storable_rest(notes);
        let rest = notes.drop_first();
        let h = header_line(n.timestamp.local, n.done);
        let t = n.text;
        lemma_markdown_parts(n.timestamp.local, n.done, t);
        lemma_header_line(n.timestamp.local, n.done);
        if notes.len() == 1 {
            assert(notes_text(notes) =~= h + seq!['\n'] + (t + seq!['\n'] + Seq::<char>::empty()));
            lemma_lines_after_line(h, t + seq!['\n'] + Seq::<char>::empty());
            lemma_lines_of_text(t, Seq::<char>::empty());
            assert(lines(Seq::<char>::empty()) == Seq::<Seq<char>>::empty());
            assert(all_lines(notes) =~= seq![h] + split_newlines(t));
        } else {
            lemma_lines_of_notes(rest);
            let r = notes_text(rest);
            let e = Seq::<char>::empty();
            assert(notes_text(notes) =~= h + seq!['\n'] + (t + seq!['\n'] + (e + seq!['\n'] + r)));
            lemma_lines_after_line(h, t + seq!['\n'] + (e + seq!['\n'] + r));
            lemma_lines_of_text(t, e + seq!['\n'] + r);
            lemma_lines_after_line(e, r);
            assert(all_lines(notes) =~= seq![h] + split_newlines(t) + seq![e] + all_lines(rest));
        }
    }
}

proof fn lemma_group_plain(p: Seq<Seq<char>>, r: Seq<Seq<char>>, cur: Seq<Seq<char>>)
    requires
        forall|i: int| 0 <= i < p.len() ==> !draft_header(#[trigger] p[i]),
    ensures
        group_from(p + r, cur) == group_from(r, cur + p),
    decreases p.len(),
{
    if p.len() == 0 {
        assert(p + r == r);
        assert(cur + p == cur);
    } else {
        let q = p.drop_first();
        assert forall|i: int| 0 <= i < q.len() implies !draft_header(#[trigger] q[i]) by {
            assert(q[i] == p[i + 1]);
        }
        assert((p + r)[0] == p[0]);
        assert((p + r).drop_first() == q + r);
        assert(!draft_header(p[0]));
        lemma_group_plain(q, r, cur.push(p[0]));
        assert(cur.push(p[0]) + q == cur + p);
    }
}

/// The lines of the entries start with the first header line, then the first body, then the
/// lines of the other entries; the first block is that header and body; no body line is a
/// header.
proof fn lemma_first_entry(notes: Seq<NoteView>)
    requires
        notes.len() > 0,
        forall|i: int| 0 <= i < notes.len() ==> storable(#[trigger] notes[i]),
    ensures
        ({
            let n = notes[0];
            let h = header_line(n.timestamp.local, n.done);
            let rest = if notes.len() == 1 {
                Seq::<Seq<char>>::empty()
            } else {
                all_lines(notes.drop_first())
            };
            &&& draft_header(h)
            &&& all_lines(notes) == seq![h] + (first_body(notes) + rest)
            &&& forall|i: int| 0 <= i < first_body(notes).len() ==> !draft_header(
                #[trigger] first_body(notes)[i],
            )
            &&& note_blocks(notes) == seq![seq![h] + first_body(notes)] + (if notes.len() == 1 {
                Seq::<Seq<Seq<char>>>::empty()
            } else {
                note_blocks(notes.drop_first())
            })
        }),
{
    let n = notes[0];
    assert(storable(n));
    lemma_storable_header(n);
    let h = header_line(n.timestamp.local, n.done);
    let p = split_newlines(n.text);
    let b = first_body(notes);
    assert forall|i: int| 0 <= i < b.len() implies !draft_header(#[trigger] b[i]) by {
        if i < p.len() {
            assert(b[i] == p[i]);
        } else {
            assert(b[i] == Seq::<char>::empty());
        }
    }
    if notes.len() == 1 {
        assert(all_lines(notes) =~= seq![h] + (b + Seq::<Seq<char>>::empty()));
        assert(note_blocks(notes) =~= seq![seq![h] + b] + Seq::<Seq<Seq<char>>>::empty());
    } else {
        assert(all_lines(notes) =~= seq![h] + (b + all_lines(notes.drop_first())));
        assert(spaced_lines(n) =~= seq![h] + b);
    }
}

proof fn lemma_group_notes(notes: Seq<NoteView>, cur: Seq<Seq<char>>)
    requires
        forall|i: int| 0 <= i < notes.len() ==> storable(#[trigger] notes[i]),
        cur.len() > 0,
    ensures
        group_from(all_lines(notes), cur) == seq![cur] + note_blocks(notes),
    decreases notes.len(),
{
    if notes.len() == 0 {
        assert(note_blocks(notes) == Seq::<Seq<Seq<char>>>::empty());
        assert(seq![cur] + Seq::<Seq<Seq<char>>>::empty() == seq![cur]);
    } else {
        let n = notes[0];
        let rest = notes.drop_first();
        lemma_storable_rest(notes);
        lemma_first_entry(notes);
        let h = header_line(n.timestamp.local, n.done);
        let b = first_body(notes);
        let tail = if notes.len() == 1 {
            Seq::<Seq<char>>::empty()
        } else {
            all_lines(rest)
        };
        let all = all_lines(notes);
        assert(all[0] == h);
        assert(all.drop_first() == b + tail);
        assert(group_from(all, cur) == seq![cur] + group_from(b + tail, seq![h]));
        lemma_group_plain(b, tail, seq![h]);
        if notes.len() == 1 {
            assert(group_from(tail, seq![h] + b) == seq![seq![h] + b]);
            assert(seq![cur] + note_blocks(notes) =~= seq![cur] + seq![seq![h] + b]);
        } else {
            lemma_group_notes(rest, seq![h] + b);
            assert(seq![cur] + (seq![seq![h] + b] + note_blocks(rest)) =~= seq![cur]
                + note_blocks(notes));
        }
    }
}

proof fn lemma_blocks_of_notes(notes: Seq<NoteView>)
    requires
        forall|i: int| 0 <= i < notes.len() ==> storable(#[trigger] notes[i]),
    ensures
        blocks(all_lines(notes)) == note_blocks(notes),
{
    if notes.len() == 0 {
        assert(note_blocks(notes) =~= Seq::<Seq<Seq<char>>>::empty());
    } else {
        let n = notes[0];
        let rest = notes.drop_first();
        lemma_storable_rest(notes);
        lemma_first_entry(notes);
        let h = header_line(n.timestamp.local, n.done);
        let b = first_body(notes);
        let tail = if notes.len() == 1 {
            Seq::<Seq<char>>::empty()
        } else {
            all_lines(rest)
        };
        let all = all_lines(notes);
        assert(all[0] == h);
        assert(all.drop_first() == b + tail);
        assert(Seq::<Seq<char>>::empty().push(h) == seq![h]);
        assert(blocks(all) == group_from(b + tail, seq![h]));
        lemma_group_plain(b, tail, seq![h]);
        if notes.len() == 1 {
            assert(group_from(tail, seq![h] + b) == seq![seq![h] + b]);
            assert(note_blocks(notes) =~= seq![seq![h] + b]);
        } else {
            lemma_group_notes(rest, seq![h] + b);
        }
    }
}

/// Trimming a trimmed text with a line feed after it gives back the text.
proof fn lemma_trim_line_feed(t: Seq<char>)
    requires
        trim(t) == t,
    ensures
        trim(t + seq!['\n']) == t,
{
    lemma_trim_start_append(t, seq!['\n']);
    if trim_start(t).len() > 0 {
        assert(trim_start(t + seq!['\n']) == trim_start(t) + seq!['\n']);
        assert((trim_start(t) + seq!['\n']).drop_last() == trim_start(t));
        assert(is_ws((trim_start(t) + seq!['\n']).last()));
    } else {
        assert(trim(t) == Seq::<char>::empty());
        assert(t == Seq::<char>::empty());
        assert(trim_start(seq!['\n']) == trim_start(seq!['\n'].drop_first()));
        assert(seq!['\n'].drop_first() == Seq::<char>::empty());
    }
}

proof fn lemma_trim_start_append(t: Seq<char>, x: Seq<char>)
    ensures
        trim_start(t).len() > 0 ==> trim_start(t + x) == trim_start(t) + x,
        trim_start(t).len() == 0 ==> trim_start(t + x) == trim_start(x),
    decreases t.len(),
{
    if t.len() == 0 {
        assert(t + x == x);
    } else {
        assert((t + x)[0] == t[0]);
        assert((t + x).drop_first() == t.drop_first() + x);
        lemma_trim_start_append(t.drop_first(), x);
    }
}

proof fn lemma_draft_of_block(n: NoteView, spaced: bool)
    requires
        storable(n),
    ensures
        draft_of(if spaced {
            spaced_lines(n)
        } else {
            note_lines(n)
        }) == Some(draft_of_note(n)),
{
    lemma_header_line(n.timestamp.local, n.done);
    lemma_join_split(n.text);
    lemma_split_newlines_nonempty(n.text);
    let p = split_newlines(n.text);
    if spaced {
        let b = spaced_lines(n);
        assert(b[0] == header_line(n.timestamp.local, n.done));
        let body = p + seq![Seq::<char>::empty()];
        assert(b.skip(1) =~= body);
        assert(body.drop_last() == p);
        assert(join(body, seq!['\n']) =~= n.text + seq!['\n']);
        lemma_trim_line_feed(n.text);
    } else {
        let b = note_lines(n);
        assert(b[0] == header_line(n.timestamp.local, n.done));
        assert(b.skip(1) == p);
    }
}

proof fn lemma_drafts_of_notes(notes: Seq<NoteView>)
    requires
        forall|i: int| 0 <= i < notes.len() ==> storable(#[trigger] notes[i]),
    ensures
        drafts_of(note_blocks(notes)) == note_drafts(notes),
    decreases notes.len(),
{
    if notes.len() == 0 {
        assert(note_blocks(notes) =~= Seq::<Seq<Seq<char>>>::empty());
        assert(note_drafts(notes) =~= Seq::<DraftView>::empty());
    } else {
        let n = notes[0];
        let rest = notes.drop_first();
        lemma_storable_rest(notes);
        if notes.len() == 1 {
            lemma_draft_of_block(n, false);
            lemma_drafts_of_one(note_lines(n));
            assert(note_drafts(notes) =~= seq![draft_of_note(n)]);
        } else {
            lemma_drafts_of_notes(rest);
            lemma_draft_of_block(n, true);
            lemma_drafts_of_one(spaced_lines(n));
            lemma_drafts_of_add(seq![spaced_lines(n)], note_blocks(rest));
            assert(note_drafts(notes) =~= seq![draft_of_note(n)] + note_drafts(rest));
        }
    }
}

/// Notes written to a file (`notes_to_text`) and read back (`parse_drafts`) give back what they
/// are, in order: their wall-clock times, done flags and texts, for notes that the file keeps as
/// they are (`storable`).
pub proof fn lemma_written_notes_read_back(notes: Seq<NoteView>)
    requires
        forall|i: int| 0 <= i < notes.len() ==> storable(#[trigger] notes[i]),
    ensures
        content_drafts(notes_text(notes)) == note_drafts(notes),
{
    lemma_lines_of_notes(notes);
    lemma_blocks_of_notes(notes);
    lemma_drafts_of_notes(notes);
}

/// What the entries of `notes` say of them.
pub open spec fn note_drafts(notes: Seq<NoteView>) -> Seq<DraftView> {
    notes.map_values(|n: NoteView| draft_of_note(n))
}



/// The points in time of `notes`.
pub open spec fn own_stamps(notes: Seq<NoteView>) -> Seq<Option<Timestamp>> {
    notes.map_values(|n: NoteView| Some(n.timestamp))
}

/// Where each entry's wall-clock reading is placed at its note's own point in time, the entries
/// become the notes again.
pub proof fn lemma_realized_own_stamps(notes: Seq<NoteView>)
    ensures
        stamps_fit(note_drafts(notes), own_stamps(notes)),
        realized(note_drafts(notes), own_stamps(notes)) == notes,
    decreases notes.len(),
{
    if notes.len() > 0 {
        let init = notes.drop_last();
        lemma_realized_own_stamps(init);
        assert(note_drafts(notes).drop_last() == note_drafts(init));
        assert(own_stamps(notes).take(notes.len() - 1) == own_stamps(init));
        assert(notes == init.push(notes.last()));
    } else {
        assert(notes == Seq::<NoteView>::empty());
    }
}

proof fn lemma_realized_all_placed(drafts: Seq<DraftView>, stamps: Seq<Option<Timestamp>>)
    requires
        stamps.len() == drafts.len(),
        forall|i: int| 0 <= i < stamps.len() ==> #[trigger] stamps[i] is Some,
    ensures
        realized(drafts, stamps).len() == drafts.len(),
    decreases drafts.len(),
{
    if drafts.len() > 0 {
        let st = stamps.take(drafts.len() - 1);
        assert forall|i: int| 0 <= i < st.len() implies #[trigger] st[i] is Some by {
            assert(st[i] == stamps[i]);
        }
        lemma_realized_all_placed(drafts.drop_last(), st);
        assert(stamps[drafts.len() - 1] is Some);
    }
}

/// Loading a notes file gives one note for each of its note header lines, wherever the local
/// time zone places every wall-clock reading that the file holds (no reading falls into a
/// daylight-saving gap).
pub proof fn lemma_one_note_per_header(
    content: Seq<char>,
    stamps: Seq<Option<Timestamp>>,
    loaded: Seq<NoteView>,
)
    requires
        stamps_fit(content_drafts(content), stamps),
        forall|i: int| 0 <= i < stamps.len() ==> #[trigger] stamps[i] is Some,
        newest_first(realized(content_drafts(content), stamps), loaded),
    ensures
        loaded.len() == header_count(lines(content)),
{
    lemma_realized_all_placed(content_drafts(content), stamps);
    lemma_one_draft_per_header(content);
}

/// Notes written to a file and loaded again (`notes_from_text`) come back newest first, as
/// themselves, wherever the local time zone places each wall-clock reading at the note's own
/// point in time.
pub proof fn lemma_saved_notes_load_back(notes: Seq<NoteView>, loaded: Seq<NoteView>)
    requires
        forall|i: int| 0 <= i < notes.len() ==> storable(#[trigger] notes[i]),
        newest_first(realized(content_drafts(notes_text(notes)), own_stamps(notes)), loaded),
    ensures
        newest_first(notes, loaded),
{
    lemma_written_notes_read_back(notes);
    lemma_realized_own_stamps(notes);
}

} // verus!
