use vstd::prelude::*;
use vstd::arithmetic::div_mod::{
    lemma_add_mod_noop_right, lemma_fundamental_div_mod, lemma_fundamental_div_mod_converse, lemma_small_mod,
    lemma_sub_mod_noop,
};
use crate::note::{toggled, Note, NoteView};
use crate::storage::{note_views, notes_text};
use crate::text::{first_line, first_line_of, push_char};
use crate::time::{date_text, time_text, LocalDate, Timestamp, MIN_YEAR};

verus! {

/// One row of the note browser: a day heading, or the note at an index of the note list.
#[derive(Clone, Debug)]
pub enum DisplayItem {
    DayHeader(String),
    Note(usize),
}

/// The meaning of a row.
pub enum ItemView {
    Header(Seq<char>),
    Note(nat),
}

impl View for DisplayItem {
    type V = ItemView;

    open spec fn view(&self) -> ItemView {
        match self {
            DisplayItem::DayHeader(s) => ItemView::Header(s@),
            DisplayItem::Note(i) => ItemView::Note(*i as nat),
        }
    }
}

pub open spec fn item_views(v: Seq<DisplayItem>) -> Seq<ItemView> {
    v.map_values(|d: DisplayItem| d@)
}

/// Whether the calendar holds a day before `d`.
pub open spec fn has_previous(d: LocalDate) -> bool {
    !(d.year == MIN_YEAR && d.month == 1 && d.day == 1)
}

/// The heading of the day `d` seen on `today`: "Today", "Yesterday", or the date.
pub open spec fn day_label(d: LocalDate, today: LocalDate) -> Seq<char> {
    if d == today {
        "Today"@
    } else if has_previous(today) && d == today.previous_spec() {
        "Yesterday"@
    } else {
        date_text(d)
    }
}

/// The day of a note.
pub open spec fn day_of(n: NoteView) -> LocalDate {
    n.timestamp.local.date()
}

/// The rows for `notes` on `today`: each note, preceded by a heading where its day differs from
/// the day of the note before it.
pub open spec fn display_items_for(notes: Seq<NoteView>, today: LocalDate) -> Seq<ItemView>
    decreases notes.len(),
{
    if notes.len() == 0 {
        seq![]
    } else {
        let n = notes.len() - 1;
        let prev = display_items_for(notes.drop_last(), today);
        if n > 0 && day_of(notes[n - 1]) == day_of(notes[n]) {
            prev.push(ItemView::Note(n as nat))
        } else {
            prev.push(ItemView::Header(day_label(day_of(notes[n]), today))).push(
                ItemView::Note(n as nat),
            )
        }
    }
}

/// The note indices of the rows, in row order.
pub open spec fn note_rows(items: Seq<ItemView>) -> Seq<nat> {
    items.filter_map(
        |x: ItemView|
            match x {
                ItemView::Note(k) => Some(k),
                ItemView::Header(_) => None,
            },
    )
}

/// The rows show each note once, in the order of the notes.
pub proof fn lemma_rows_show_each_note_once(notes: Seq<NoteView>, today: LocalDate)
    ensures
        note_rows(display_items_for(notes, today)) == Seq::new(notes.len(), |i: int| i as nat),
    decreases notes.len(),
{
    if notes.len() == 0 {
        assert(note_rows(display_items_for(notes, today)) =~= Seq::new(
            notes.len(),
            |i: int| i as nat,
        ));
    } else {
        let n = notes.len() - 1;
        let prev = display_items_for(notes.drop_last(), today);
        lemma_rows_show_each_note_once(notes.drop_last(), today);
        let h = ItemView::Header(day_label(day_of(notes[n]), today));
        let x = ItemView::Note(n as nat);
        assert(prev.push(h).drop_last() == prev);
        assert(prev.push(h).push(x).drop_last() == prev.push(h));
        assert(prev.push(x).drop_last() == prev);
        assert(note_rows(prev.push(h)) == note_rows(prev));
        assert(note_rows(prev.push(h).push(x)) == note_rows(prev.push(h)) + seq![n as nat]);
        assert(note_rows(prev.push(x)) == note_rows(prev) + seq![n as nat]);
        assert(Seq::new(notes.len(), |i: int| i as nat) =~= Seq::new(n as nat, |i: int| i as nat)
            + seq![n as nat]);
    }
}

/// Whether note `i` opens a day: it is the first note, or its day differs from the note's before.
pub open spec fn starts_day(notes: Seq<NoteView>, i: int) -> bool {
    i == 0 || day_of(notes[i - 1]) != day_of(notes[i])
}

/// Row `j` of `items` is placed as the day headings are: a heading comes right before a note that
/// opens a day and names that note's day; a note row follows a heading exactly when the note
/// opens a day.
pub open spec fn row_placed(items: Seq<ItemView>, notes: Seq<NoteView>, today: LocalDate, j: int) -> bool {
    match items[j] {
        ItemView::Header(l) => j + 1 < items.len() && match items[j + 1] {
            ItemView::Note(i) => i < notes.len() && starts_day(notes, i as int) && l == day_label(
                day_of(notes[i as int]),
                today,
            ),
            ItemView::Header(_) => false,
        },
        ItemView::Note(i) => i < notes.len() && ((j > 0 && items[j - 1] is Header) <==> starts_day(
            notes,
            i as int,
        )),
    }
}

/// Where the day headings stand: each heading comes right before a note that opens a day and
/// names that note's day ("Today", "Yesterday" or the date); a note row follows a heading
/// exactly when the note opens a day.
pub proof fn lemma_day_headings(notes: Seq<NoteView>, today: LocalDate)
    ensures
        forall|j: int|
            0 <= j < display_items_for(notes, today).len() ==> #[trigger] row_placed(
                display_items_for(notes, today),
                notes,
                today,
                j,
            ),
        notes.len() > 0 ==> display_items_for(notes, today).len() > 0 && display_items_for(
            notes,
            today,
        ).last() == ItemView::Note((notes.len() - 1) as nat),
    decreases notes.len(),
{
    if notes.len() > 0 {
        let init = notes.drop_last();
        lemma_day_headings(init, today);
        let n = notes.len() - 1;
        let prev = display_items_for(init, today);
        let items = display_items_for(notes, today);
        assert forall|i: int| 0 <= i < n implies #[trigger] starts_day(init, i) == starts_day(
            notes,
            i,
        ) && init[i] == notes[i] by {
            if i > 0 {
                assert(init[i - 1] == notes[i - 1]);
            }
        }
        assert forall|j: int| 0 <= j < items.len() implies #[trigger] row_placed(
            items,
            notes,
            today,
            j,
        ) by {
            if j < prev.len() {
                assert(row_placed(prev, init, today, j));
                assert(items[j] == prev[j]);
                if j + 1 < prev.len() {
                    assert(items[j + 1] == prev[j + 1]);
                }
                if j > 0 {
                    assert(items[j - 1] == prev[j - 1]);
                }
                match prev[j] {
                    ItemView::Header(l) => {
                        if j + 1 < prev.len() {
                            match prev[j + 1] {
                                ItemView::Note(i) => {
                                    assert(starts_day(init, i as int) == starts_day(notes, i as int));
                                    assert(init[i as int] == notes[i as int]);
                                },
                                _ => {},
                            }
                        }
                    },
                    ItemView::Note(i) => {
                        assert(starts_day(init, i as int) == starts_day(notes, i as int));
                    },
                }
            } else if j > 0 && j - 1 < prev.len() {
                assert(items[j - 1] == prev[j - 1]);
                assert(prev[j - 1] == prev.last());
            }
        }
    }
}

/// The note that `d` toggles is the note that the selected row shows: a selected note row
/// carrying index `k` targets note `k`; a selected heading, or no selection, targets none.
pub proof fn lemma_toggle_targets_selected_note(app: App)
    ensures
        match app.selected {
            Some(i) => i < app.items().len() ==> match app.items()[i as int] {
                ItemView::Note(k) => k < app.notes@.len() ==> app.toggle_target() == Some(k),
                ItemView::Header(_) => app.toggle_target() is None,
            },
            None => app.toggle_target() is None,
        },
{
}

/// The notes with note `k` toggled.
pub open spec fn toggled_at(notes: Seq<NoteView>, k: nat) -> Seq<NoteView> {
    notes.update(k as int, toggled(notes[k as int]))
}

/// Notes on the same days give the same rows.
proof fn lemma_rows_by_days(a: Seq<NoteView>, b: Seq<NoteView>, today: LocalDate)
    requires
        a.len() == b.len(),
        forall|i: int| 0 <= i < a.len() ==> day_of(#[trigger] a[i]) == day_of(b[i]),
    ensures
        display_items_for(a, today) == display_items_for(b, today),
    decreases a.len(),
{
    if a.len() > 0 {
        let n = a.len() - 1;
        assert forall|i: int| 0 <= i < a.drop_last().len() implies day_of(
            #[trigger] a.drop_last()[i],
        ) == day_of(b.drop_last()[i]) by {
            assert(a.drop_last()[i] == a[i] && b.drop_last()[i] == b[i]);
        }
        lemma_rows_by_days(a.drop_last(), b.drop_last(), today);
        assert(day_of(a[n]) == day_of(b[n]));
        if n > 0 {
            assert(day_of(a[n - 1]) == day_of(b[n - 1]));
        }
    }
}

/// Pressing `d` twice on the same row, each toggle stored and taken back on the same day
/// (`handle_key` with `ToggleDone`, then `accept_saved_on`), gives back the notes from before,
/// and so the same file: the second toggle undoes the first. `app` is the browser before the
/// first toggle and `mid` the browser after the first toggle was taken back.
pub proof fn lemma_toggle_twice_restores(app: App, mid: App, today: LocalDate)
    requires
        app.items() == display_items_for(note_views(app.notes@), today),
        app.toggle_target() is Some,
        note_views(mid.notes@) == toggled_at(note_views(app.notes@), app.toggle_target()->0),
        mid.items() == display_items_for(note_views(mid.notes@), today),
        mid.selected == app.selected,
    ensures
        mid.toggle_target() == app.toggle_target(),
        toggled_at(note_views(mid.notes@), app.toggle_target()->0) == note_views(app.notes@),
        notes_text(toggled_at(note_views(mid.notes@), app.toggle_target()->0)) == notes_text(
            note_views(app.notes@),
        ),
{
    let k = app.toggle_target()->0;
    let before = note_views(app.notes@);
    let after = note_views(mid.notes@);
    assert(before[k as int] == app.notes@[k as int]@);
    assert forall|i: int| 0 <= i < after.len() implies day_of(#[trigger] after[i]) == day_of(
        before[i],
    ) by {}
    lemma_rows_by_days(after, before, today);
    assert(mid.items() == app.items());
    assert(mid.notes@.len() == app.notes@.len()) by {
        assert(after.len() == before.len());
    }
    assert(toggled_at(after, k) =~= before);
}

/// Each note row refers to a note, and a non-empty list starts with a heading and then the
/// first note.
pub proof fn lemma_display_rows(notes: Seq<NoteView>, today: LocalDate)
    ensures
        forall|i: int|
            0 <= i < display_items_for(notes, today).len() ==> (#[trigger] display_items_for(
                notes,
                today,
            )[i] matches ItemView::Note(k) ==> k < notes.len()),
        notes.len() > 0 ==> display_items_for(notes, today).len() >= 2 && display_items_for(
            notes,
            today,
        )[0] is Header && display_items_for(notes, today)[1] == ItemView::Note(0),
    decreases notes.len(),
{
    if notes.len() > 0 {
        lemma_display_rows(notes.drop_last(), today);
    }
}

/// In rows for notes, the first note row is the second row.
pub proof fn lemma_first_note_row(notes: Seq<NoteView>, today: LocalDate)
    requires
        notes.len() > 0,
    ensures
        first_note_pos(display_items_for(notes, today)) == Some(1int),
{
    let items = display_items_for(notes, today);
    lemma_display_rows(notes, today);
    assert(items[1] is Note);
    let c = choose|i: int|
        0 <= i < items.len() && #[trigger] items[i] is Note && forall|j: int|
            0 <= j < i ==> !(#[trigger] items[j] is Note);
    if c > 1 {
        assert(!(items[1] is Note));
    } else if c < 1 {
        assert(items[0] is Header);
    }
}

fn label_for(d: LocalDate, today: LocalDate, yesterday: Option<LocalDate>) -> (res: String)
    requires
        today.valid(),
        yesterday == (if has_previous(today) {
            Some(today.previous_spec())
        } else {
            None::<LocalDate>
        }),
    ensures
        res@ == day_label(d, today),
{
    if d == today {
        String::from_str("Today")
    } else {
        match yesterday {
            Some(y) => {
                if d == y {
                    String::from_str("Yesterday")
                } else {
                    d.format()
                }
            },
            None => d.format(),
        }
    }
}

/// The position of the first note row, if any.
pub open spec fn first_note_pos(items: Seq<ItemView>) -> Option<int> {
    if exists|i: int| 0 <= i < items.len() && #[trigger] items[i] is Note {
        Some(
            choose|i: int|
                0 <= i < items.len() && #[trigger] items[i] is Note && forall|j: int|
                    0 <= j < i ==> !(#[trigger] items[j] is Note),
        )
    } else {
        None
    }
}

/// A note's row text: "%H:%M:%S - " and the first line of the text.
pub open spec fn note_line(n: NoteView) -> Seq<char> {
    time_text(n.timestamp.local) + seq![' ', '-', ' '] + first_line(n.text)
}

/// How a row is drawn.
#[derive(Clone, Copy, Debug, PartialEq, Eq, Structural)]
pub enum LineStyle {
    /// A day heading.
    Heading,
    /// A note that is done.
    Done,
    /// A note that is open.
    Open,
}

/// A row as drawn: its text and its style.
pub struct ListLine {
    pub text: String,
    pub style: LineStyle,
}

/// The line that row `item` becomes.
pub open spec fn list_line(item: ItemView, notes: Seq<NoteView>) -> (Seq<char>, LineStyle) {
    match item {
        ItemView::Header(t) => (t, LineStyle::Heading),
        ItemView::Note(i) => (
            note_line(notes[i as int]),
            if notes[i as int].done {
                LineStyle::Done
            } else {
                LineStyle::Open
            },
        ),
    }
}

/// What the browser does after a key.
pub enum Action {
    /// Leave the browser.
    Quit,
    /// Keep going; nothing to store.
    Continue,
    /// Store these notes; once stored, hand them to `App::accept_saved`.
    Save(Vec<Note>),
}

/// The keys that the browser tells apart.
#[derive(Clone, Copy, Debug, PartialEq, Eq, Structural)]
pub enum Key {
    Quit,
    Down,
    Up,
    ToggleDone,
    Other,
}

/// The position `k` rows from `cur` going round `len` rows, forward or backward.
pub open spec fn ring_step(cur: int, k: int, len: int, forward: bool) -> int {
    if forward {
        (cur + k) % len
    } else {
        (cur - k) % len
    }
}

/// Whether row `i` is a note.
pub open spec fn note_at(items: Seq<ItemView>, i: int) -> bool {
    items[i] is Note
}

/// `new` is the selection after moving from `old` to the nearest note row forward (or backward),
/// going round; with no such row (or no rows) the selection stays.
pub open spec fn moved(items: Seq<ItemView>, old: Option<usize>, new: Option<usize>, forward: bool) -> bool {
    if items.len() > 0 && exists|k: int|
        1 <= k <= items.len() && #[trigger] note_at(items, ring_step(start_of(old), k, items.len() as int, forward)) {
        exists|k: int|
            1 <= k <= items.len() && #[trigger] note_at(items, ring_step(start_of(old), k, items.len() as int, forward))
                && new == Some(ring_step(start_of(old), k, items.len() as int, forward) as usize) && forall|j: int|
                1 <= j < k ==> !#[trigger] note_at(items, ring_step(start_of(old), j, items.len() as int, forward))
    } else {
        new == old
    }
}

/// The row a move starts from: the selected one, or the first.
pub open spec fn start_of(old: Option<usize>) -> int {
    match old {
        Some(c) => c as int,
        None => 0,
    }
}

proof fn lemma_moved_found(items: Seq<ItemView>, old: Option<usize>, new: Option<usize>, forward: bool, k: int)
    requires
        items.len() > 0,
        1 <= k <= items.len(),
        note_at(items, ring_step(start_of(old), k, items.len() as int, forward)),
        new == Some(ring_step(start_of(old), k, items.len() as int, forward) as usize),
        forall|j: int|
            1 <= j < k ==> !#[trigger] note_at(items, ring_step(start_of(old), j, items.len() as int, forward)),
    ensures
        moved(items, old, new, forward),
{
}

proof fn lemma_step_back(s: int, k: int, j: int, len: int, forward: bool)
    requires
        0 <= s < len,
        1 <= j <= k <= len,
    ensures
        ring_step(ring_step(s, k, len, forward), j, len, !forward) == if j == k {
            s
        } else {
            ring_step(s, k - j, len, forward)
        },
{
    lemma_small_mod(s as nat, len as nat);
    if forward {
        if j < len {
            lemma_small_mod(j as nat, len as nat);
            lemma_sub_mod_noop(s + k, j, len);
            assert(((s + k) % len - j) % len == (s + k - j) % len);
        } else {
            lemma_fundamental_div_mod_converse(s + len, len, 1, s);
            lemma_fundamental_div_mod_converse(s - len, len, -1, s);
        }
    } else {
        lemma_add_mod_noop_right(j, s - k, len);
        assert((s - k) % len + j == j + (s - k) % len);
        assert(j + (s - k) == s - (k - j));
    }
}

/// A move to the nearest note row in one direction, then one in the other, from a note row.
proof fn lemma_there_and_back(
    items: Seq<ItemView>,
    start: usize,
    forward: bool,
    after_first: Option<usize>,
    after_second: Option<usize>,
)
    requires
        items.len() <= usize::MAX,
        start < items.len(),
        note_at(items, start as int),
        moved(items, Some(start), after_first, forward),
        moved(items, after_first, after_second, !forward),
    ensures
        after_second == Some(start),
{
    let len = items.len() as int;
    let s = start as int;
    let back = !forward;
    lemma_step_back(s, len, len, len, forward);
    lemma_small_mod(s as nat, len as nat);
    assert(ring_step(s, len, len, forward) == s) by {
        lemma_fundamental_div_mod_converse(s + len, len, 1, s);
        lemma_fundamental_div_mod_converse(s - len, len, -1, s);
    }
    assert(note_at(items, ring_step(start_of(Some(start)), len, len, forward)));
    let k = choose|k: int|
        1 <= k <= len && #[trigger] note_at(items, ring_step(s, k, len, forward)) && after_first
            == Some(ring_step(s, k, len, forward) as usize) && forall|j: int|
            1 <= j < k ==> !#[trigger] note_at(items, ring_step(s, j, len, forward));
    let t = ring_step(s, k, len, forward);
    lemma_ring_step(s, k, len, forward);
    assert(start_of(after_first) == t);
    lemma_step_back(s, k, k, len, forward);
    assert(note_at(items, ring_step(start_of(after_first), k, len, back)));
    let k2 = choose|k2: int|
        1 <= k2 <= len && #[trigger] note_at(items, ring_step(t, k2, len, back)) && after_second
            == Some(ring_step(t, k2, len, back) as usize) && forall|j: int|
            1 <= j < k2 ==> !#[trigger] note_at(items, ring_step(t, j, len, back));
    if k2 < k {
        lemma_step_back(s, k, k2, len, forward);
        assert(!note_at(items, ring_step(s, k - k2, len, forward)));
    } else if k2 > k {
        assert(!note_at(items, ring_step(t, k, len, back)));
    }
}

/// Moving to the next note row and then to the previous one comes back to the start, when the
/// start is a note row.
pub proof fn lemma_next_then_previous(
    items: Seq<ItemView>,
    start: usize,
    after_next: Option<usize>,
    after_previous: Option<usize>,
)
    requires
        items.len() <= usize::MAX,
        start < items.len(),
        note_at(items, start as int),
        moved(items, Some(start), after_next, true),
        moved(items, after_next, after_previous, false),
    ensures
        after_previous == Some(start),
{
    lemma_there_and_back(items, start, true, after_next, after_previous);
}

/// Moving to the previous note row and then to the next one comes back to the start, when the
/// start is a note row.
pub proof fn lemma_previous_then_next(
    items: Seq<ItemView>,
    start: usize,
    after_previous: Option<usize>,
    after_next: Option<usize>,
)
    requires
        items.len() <= usize::MAX,
        start < items.len(),
        note_at(items, start as int),
        moved(items, Some(start), after_previous, false),
        moved(items, after_previous, after_next, true),
    ensures
        after_next == Some(start),
{
    lemma_there_and_back(items, start, false, after_previous, after_next);
}

proof fn lemma_ring_step(cur: int, k: int, len: int, forward: bool)
    requires
        len > 0,
    ensures
        0 <= ring_step(cur, k, len, forward) < len,
        forward ==> ring_step(cur, k + 1, len, forward) == if ring_step(cur, k, len, forward) == len
            - 1 {
            0
        } else {
            ring_step(cur, k, len, forward) + 1
        },
        !forward ==> ring_step(cur, k + 1, len, forward) == if ring_step(cur, k, len, forward)
            == 0 {
            len - 1
        } else {
            ring_step(cur, k, len, forward) - 1
        },
{
    let x = if forward {
        cur + k
    } else {
        cur - k
    };
    lemma_fundamental_div_mod(x, len);
    let q = x / len;
    let r = x % len;
    assert(x == q * len + r) by {
        assert(len * q == q * len) by (nonlinear_arith);
    }
    if forward {
        if r == len - 1 {
            assert(x + 1 == (q + 1) * len + 0) by (nonlinear_arith)
                requires
                    x == q * len + r,
                    r == len - 1,
            ;
            lemma_fundamental_div_mod_converse(x + 1, len, q + 1, 0);
        } else {
            lemma_fundamental_div_mod_converse(x + 1, len, q, r + 1);
        }
    } else {
        if r == 0 {
            assert(x - 1 == (q - 1) * len + (len - 1)) by (nonlinear_arith)
                requires
                    x == q * len + r,
                    r == 0,
            ;
            lemma_fundamental_div_mod_converse(x - 1, len, q - 1, len - 1);
        } else {
            lemma_fundamental_div_mod_converse(x - 1, len, q, r - 1);
        }
    }
}

/// The state of the note browser: the notes, the rows shown, and the selected row.
pub struct App {
    pub selected: Option<usize>,
    pub notes: Vec<Note>,
    pub display_items: Vec<DisplayItem>,
}

impl App {
    /// The rows for `notes` on `today`.
    pub fn build_display_items_on(notes: &[Note], today: LocalDate) -> (res: Vec<DisplayItem>)
        requires
            today.valid(),
        ensures
            item_views(res@) == display_items_for(note_views(notes@), today),
    {
        let yesterday = if today.year == MIN_YEAR && today.month == 1 && today.day == 1 {
            None
        } else {
            Some(today.previous())
        };
        let ghost nv = note_views(notes@);
        let mut items: Vec<DisplayItem> = Vec::new();
        let mut last_date: Option<LocalDate> = None;
        let n = notes.len();
        let mut i: usize = 0;
        while i < n
            invariant
                i <= n == notes@.len(),
                nv == note_views(notes@),
                today.valid(),
                yesterday == (if has_previous(today) {
                    Some(today.previous_spec())
                } else {
                    None::<LocalDate>
                }),
                item_views(items@) == display_items_for(nv.take(i as int), today),
                last_date == (if i > 0 {
                    Some(day_of(nv[i - 1]))
                } else {
                    None::<LocalDate>
                }),
            decreases n - i,
        {
            let note_date = notes[i].timestamp.local.date_part();
            let ghost before = items@;
            let ghost t = nv.take(i + 1);
            assert(t.drop_last() == nv.take(i as int));
            assert(t[i as int] == nv[i as int]);
            assert(nv[i as int] == notes@[i as int]@);
            if i > 0 {
                assert(t[i - 1] == nv[i - 1]);
            }
            let differs = match last_date {
                Some(d) => !(d == note_date),
                None => true,
            };
            if differs {
                let header = label_for(note_date, today, yesterday);
                items.push(DisplayItem::DayHeader(header));
                last_date = Some(note_date);
            }
            items.push(DisplayItem::Note(i));
            assert(item_views(items@) == display_items_for(t, today));
            i = i + 1;
        }
        assert(nv.take(n as int) == nv);
        items
    }

    /// The rows for `notes`, today being the current date; `None` when the current time cannot
    /// be read.
    pub fn build_display_items(notes: &[Note]) -> (res: Option<Vec<DisplayItem>>)
        ensures
            res matches Some(v) ==> exists|today: LocalDate|
                today.valid() && item_views(v@) == #[trigger] display_items_for(
                    note_views(notes@),
                    today,
                ),
    {
        match Timestamp::now() {
            Some(now) => Some(Self::build_display_items_on(notes, now.local.date_part())),
            None => None,
        }
    }

    /// The position of the first note row.
    pub fn first_note_index(items: &[DisplayItem]) -> (res: Option<usize>)
        ensures
            match res {
                Some(i) => first_note_pos(item_views(items@)) == Some(i as int),
                None => first_note_pos(item_views(items@)) is None,
            },
    {
        let ghost iv = item_views(items@);
        let n = items.len();
        let mut i: usize = 0;
        while i < n
            invariant
                i <= n == items@.len(),
                iv == item_views(items@),
                forall|j: int| 0 <= j < i ==> !(#[trigger] iv[j] is Note),
            decreases n - i,
        {
            assert(iv[i as int] == items@[i as int]@);
            match &items[i] {
                DisplayItem::Note(_) => {
                    proof {
                        let c = choose|k: int|
                            0 <= k < iv.len() && #[trigger] iv[k] is Note && forall|j: int|
                                0 <= j < k ==> !(#[trigger] iv[j] is Note);
                        assert(iv[i as int] is Note);
                        if c < i {
                        } else if c > i {
                            assert(!(iv[i as int] is Note));
                        }
                    }
                    return Some(i);
                },
                DisplayItem::DayHeader(_) => {},
            }
            i = i + 1;
        }
        None
    }

    /// A note's row text.
    pub fn format_note_line(note: &Note) -> (res: String)
        ensures
            res@ == note_line(note@),
    {
        let mut s = note.timestamp.local.format_time();
        push_char(&mut s, ' ');
        push_char(&mut s, '-');
        push_char(&mut s, ' ');
        let first = first_line_of(note.text.as_str());
        s.append(first.as_str());
        s
    }

    pub open spec fn items(&self) -> Seq<ItemView> {
        item_views(self.display_items@)
    }

    /// The selection, if any, is a row.
    pub open spec fn selection_ok(&self) -> bool {
        self.selected matches Some(i) ==> i < self.display_items@.len()
    }

    /// Every note row refers to a note.
    pub open spec fn rows_ok(&self) -> bool {
        forall|i: int|
            0 <= i < self.items().len() ==> (#[trigger] self.items()[i] matches ItemView::Note(k)
                ==> k < self.notes@.len())
    }

    /// The note that the selected row shows, if the selection is a note row.
    pub open spec fn toggle_target(&self) -> Option<nat> {
        match self.selected {
            Some(i) => if i < self.items().len() {
                match self.items()[i as int] {
                    ItemView::Note(k) => if k < self.notes@.len() {
                        Some(k)
                    } else {
                        None
                    },
                    ItemView::Header(_) => None,
                }
            } else {
                None
            },
            None => None,
        }
    }

    /// Whether the selection is a row.
    pub fn selection_valid(&self) -> (res: bool)
        ensures
            res == self.selection_ok(),
    {
        match self.selected {
            Some(i) => i < self.display_items.len(),
            None => true,
        }
    }

    /// Whether every note row refers to a note.
    pub fn rows_valid(&self) -> (res: bool)
        ensures
            res == self.rows_ok(),
    {
        let n = self.display_items.len();
        let mut i: usize = 0;
        while i < n
            invariant
                i <= n == self.display_items@.len(),
                forall|j: int|
                    0 <= j < i ==> (#[trigger] self.items()[j] matches ItemView::Note(k) ==> k
                        < self.notes@.len()),
            decreases n - i,
        {
            assert(self.items()[i as int] == self.display_items@[i as int]@);
            match &self.display_items[i] {
                DisplayItem::Note(k) => {
                    if *k >= self.notes.len() {
                        return false;
                    }
                },
                DisplayItem::DayHeader(_) => {},
            }
            i = i + 1;
        }
        true
    }

    /// The lines that the rows are drawn as.
    pub fn build_list_items(&self) -> (res: Vec<ListLine>)
        requires
            self.rows_ok(),
        ensures
            res@.len() == self.items().len(),
            forall|i: int|
                0 <= i < res@.len() ==> (#[trigger] res@[i]).text@ == list_line(
                    self.items()[i],
                    note_views(self.notes@),
                ).0 && res@[i].style == list_line(self.items()[i], note_views(self.notes@)).1,
    {
        let n = self.display_items.len();
        let mut out: Vec<ListLine> = Vec::new();
        let mut i: usize = 0;
        while i < n
            invariant
                i <= n == self.display_items@.len(),
                self.rows_ok(),
                out@.len() == i,
                forall|j: int|
                    0 <= j < i ==> (#[trigger] out@[j]).text@ == list_line(
                        self.items()[j],
                        note_views(self.notes@),
                    ).0 && out@[j].style == list_line(self.items()[j], note_views(self.notes@)).1,
            decreases n - i,
        {
            assert(self.items()[i as int] == self.display_items@[i as int]@);
            let line = match &self.display_items[i] {
                DisplayItem::DayHeader(text) => ListLine { text: text.clone(), style: LineStyle::Heading },
                DisplayItem::Note(idx) => {
                    assert(self.items()[i as int] matches ItemView::Note(k) && k < self.notes@.len());
                    let note = &self.notes[*idx];
                    assert(note_views(self.notes@)[*idx as int] == note@);
                    let text = Self::format_note_line(note);
                    let style = if note.done {
                        LineStyle::Done
                    } else {
                        LineStyle::Open
                    };
                    ListLine { text, style }
                },
            };
            out.push(line);
            i = i + 1;
        }
        out
    }

    /// The notes to store when the selected note is toggled: all notes, the selected one with
    /// its done flag flipped; `None` when no note row is selected.
    pub fn toggled_notes(&self) -> (res: Option<Vec<Note>>)
        ensures
            match self.selected {
                Some(i) => i < self.items().len() ==> match self.items()[i as int] {
                    ItemView::Note(k) => k < self.notes@.len() ==> (res matches Some(v) && note_views(
                        v@,
                    ) == note_views(self.notes@).update(k as int, toggled(self.notes@[k as int]@))),
                    ItemView::Header(_) => res is None,
                },
                None => res is None,
            },
            match self.toggle_target() {
                Some(k) => res matches Some(v) && note_views(v@) == note_views(self.notes@).update(
                    k as int,
                    toggled(self.notes@[k as int]@),
                ),
                None => res is None,
            },
    {
        let i = match self.selected {
            Some(i) => i,
            None => return None,
        };
        if i >= self.display_items.len() {
            return None;
        }
        assert(self.items()[i as int] == self.display_items@[i as int]@);
        let k = match &self.display_items[i] {
            DisplayItem::Note(k) => *k,
            DisplayItem::DayHeader(_) => return None,
        };
        if k >= self.notes.len() {
            return None;
        }
        let n = self.notes.len();
        let mut out: Vec<Note> = Vec::new();
        let mut j: usize = 0;
        while j < n
            invariant
                j <= n == self.notes@.len(),
                k < n,
                self.toggle_target() == Some(k as nat),
                note_views(out@) == note_views(self.notes@).update(
                    k as int,
                    toggled(self.notes@[k as int]@),
                ).take(j as int),
            decreases n - j,
        {
            let ghost before = note_views(out@);
            let mut copy = self.notes[j].duplicate();
            if j == k {
                copy.toggle_done();
            }
            out.push(copy);
            assert(note_views(out@) == before.push(copy@));
            assert(note_views(self.notes@).update(k as int, toggled(self.notes@[k as int]@)).take(
                j + 1,
            ) == note_views(self.notes@).update(k as int, toggled(self.notes@[k as int]@)).take(
                j as int,
            ).push(copy@));
            j = j + 1;
        }
        assert(note_views(self.notes@).update(k as int, toggled(self.notes@[k as int]@)).take(
            n as int,
        ) == note_views(self.notes@).update(k as int, toggled(self.notes@[k as int]@)));
        Some(out)
    }

    /// Takes stored `notes` as the notes shown, their rows built for `today`; the selection
    /// stays.
    pub fn accept_saved_on(&mut self, notes: Vec<Note>, today: LocalDate)
        requires
            today.valid(),
        ensures
            final(self).notes == notes,
            final(self).items() == display_items_for(note_views(notes@), today),
            final(self).selected == old(self).selected,
    {
        let items = Self::build_display_items_on(notes.as_slice(), today);
        self.notes = notes;
        self.display_items = items;
    }

    /// Takes stored `notes` as the notes shown, today being the current date, and returns
    /// `true`; when the current time cannot be read, returns `false` and leaves the browser as
    /// it was.
    pub fn accept_saved(&mut self, notes: Vec<Note>) -> (res: bool)
        ensures
            res ==> final(self).notes == notes,
            res ==> exists|today: LocalDate|
                today.valid() && final(self).items() == #[trigger] display_items_for(
                    note_views(notes@),
                    today,
                ),
            final(self).selected == old(self).selected,
            !res ==> *final(self) == *old(self),
    {
        match Timestamp::now() {
            Some(now) => {
                self.accept_saved_on(notes, now.local.date_part());
                true
            },
            None => false,
        }
    }

    /// What a key does: quit, move the selection down or up, or ask to store the notes with the
    /// selected one toggled.
    pub fn handle_key(&mut self, key: Key) -> (res: Action)
        requires
            old(self).selection_ok(),
        ensures
            final(self).notes == old(self).notes,
            final(self).display_items == old(self).display_items,
            key == Key::Down ==> moved(old(self).items(), old(self).selected, final(self).selected, true),
            key == Key::Up ==> moved(old(self).items(), old(self).selected, final(self).selected, false),
            key != Key::Down && key != Key::Up ==> final(self).selected == old(self).selected,
            key == Key::Quit <==> res is Quit,
            key == Key::ToggleDone ==> (old(self).toggle_target() matches Some(k) ==> (res matches Action::Save(v) && note_views(v@)
                == note_views(old(self).notes@).update(k as int, toggled(old(self).notes@[k as int]@)))),
            !(key == Key::ToggleDone && old(self).toggle_target() is Some) && key != Key::Quit ==> res is Continue,
            key == Key::ToggleDone ==> match old(self).selected {
                Some(i) => i < old(self).items().len() ==> match old(self).items()[i as int] {
                    ItemView::Note(k) => k < old(self).notes@.len() ==> (res matches Action::Save(v)
                        && note_views(v@) == note_views(old(self).notes@).update(
                        k as int,
                        toggled(old(self).notes@[k as int]@),
                    )),
                    ItemView::Header(_) => res is Continue,
                },
                None => res is Continue,
            },
    {
        match key {
            Key::Quit => Action::Quit,
            Key::Down => {
                self.next();
                Action::Continue
            },
            Key::Up => {
                self.previous();
                Action::Continue
            },
            Key::ToggleDone => match self.toggled_notes() {
                Some(v) => Action::Save(v),
                None => Action::Continue,
            },
            Key::Other => Action::Continue,
        }
    }

    /// The browser over `notes` on `today`: rows for the notes, the first note selected.
    pub fn with_today(notes: Vec<Note>, today: LocalDate) -> (res: App)
        requires
            today.valid(),
        ensures
            res.notes == notes,
            res.rows_ok(),
            res.selection_ok(),
            notes@.len() > 0 ==> res.selected == Some(1usize),
            res.items() == display_items_for(note_views(notes@), today),
            match res.selected {
                Some(i) => first_note_pos(res.items()) == Some(i as int),
                None => first_note_pos(res.items()) is None,
            },
    {
        let mut display_items: Vec<DisplayItem> = Vec::new();
        let mut selected: Option<usize> = None;
        if notes.len() > 0 {
            display_items = Self::build_display_items_on(notes.as_slice(), today);
            selected = Self::first_note_index(display_items.as_slice());
            proof {
                lemma_display_rows(note_views(notes@), today);
                lemma_first_note_row(note_views(notes@), today);
            }
        } else {
            assert(note_views(notes@).len() == 0);
            assert(first_note_pos(item_views(display_items@)) is None);
        }
        let app = App { selected, notes, display_items };
        assert(app.rows_ok()) by {
            lemma_display_rows(note_views(app.notes@), today);
        }
        app
    }

    /// The browser over `notes`, today being the current date; `None` when the current time
    /// cannot be read. With no notes there are no rows and nothing is selected, and the clock is
    /// not read.
    pub fn new(notes: Vec<Note>) -> (res: Option<App>)
        ensures
            notes@.len() == 0 ==> (res matches Some(app) && app.notes == notes && app.items().len()
                == 0 && app.selected is None),
            res matches Some(app) ==> {
                &&& app.notes == notes
                &&& app.rows_ok()
                &&& app.selection_ok()
                &&& notes@.len() > 0 ==> app.selected == Some(1usize)
                &&& exists|today: LocalDate|
                    today.valid() && app.items() == #[trigger] display_items_for(
                        note_views(notes@),
                        today,
                    )
                &&& match app.selected {
                    Some(i) => first_note_pos(app.items()) == Some(i as int),
                    None => first_note_pos(app.items()) is None,
                }
            },
    {
        if notes.len() == 0 {
            let app = App { selected: None, notes, display_items: Vec::new() };
            let ghost epoch = LocalDate { year: 1970, month: 1, day: 1 };
            assert(app.items() =~= Seq::<ItemView>::empty());
            assert(epoch.valid() && app.items() == display_items_for(note_views(app.notes@), epoch));
            assert(first_note_pos(app.items()) is None);
            return Some(app);
        }
        match Timestamp::now() {
            Some(now) => Some(App::with_today(notes, now.local.date_part())),
            None => None,
        }
    }

    /// The selected row.
    pub fn selected(&self) -> (res: Option<usize>)
        ensures
            res == self.selected,
    {
        self.selected
    }

    fn is_note_row(&self, i: usize) -> (res: bool)
        requires
            i < self.display_items@.len(),
        ensures
            res == note_at(self.items(), i as int),
    {
        assert(self.items()[i as int] == self.display_items@[i as int]@);
        match &self.display_items[i] {
            DisplayItem::Note(_) => true,
            DisplayItem::DayHeader(_) => false,
        }
    }

    fn step(&mut self, forward: bool)
        requires
            old(self).selection_ok(),
        ensures
            final(self).notes == old(self).notes,
            final(self).display_items == old(self).display_items,
            moved(old(self).items(), old(self).selected, final(self).selected, forward),
    {
        let len = self.display_items.len();
        if len == 0 {
            return;
        }
        let current = match self.selected {
            Some(c) => c,
            None => 0,
        };
        let ghost items = self.items();
        let ghost cur = current as int;
        let mut idx = if forward {
            if current + 1 == len {
                0
            } else {
                current + 1
            }
        } else {
            if current == 0 {
                len - 1
            } else {
                current - 1
            }
        };
        proof {
            lemma_ring_step(cur, 0, len as int, forward);
            assert(ring_step(cur, 0, len as int, forward) == cur) by {
                lemma_fundamental_div_mod_converse(cur, len as int, 0, cur);
            }
        }
        let mut m: usize = 0;
        while m < len
            invariant
                m <= len == self.display_items@.len(),
                items == self.items(),
                self.selected == old(self).selected,
                self.notes == old(self).notes,
                self.display_items == old(self).display_items,
                current < len,
                cur == current,
                cur == start_of(old(self).selected),
                m < len ==> idx == ring_step(cur, m + 1, len as int, forward),
                forall|j: int|
                    1 <= j <= m ==> !#[trigger] note_at(items, ring_step(cur, j, len as int, forward)),
            decreases len - m,
        {
            if self.is_note_row(idx) {
                self.selected = Some(idx);
                proof {
                    let k = m + 1;
                    assert(start_of(old(self).selected) == cur);
                    assert(note_at(items, idx as int));
                    lemma_ring_step(cur, k as int, len as int, forward);
                    assert(note_at(items, ring_step(cur, k as int, len as int, forward)));
                    lemma_moved_found(items, old(self).selected, self.selected, forward, k as int);
                }
                return;
            }
            proof {
                lemma_ring_step(cur, m + 1, len as int, forward);
            }
            idx = if forward {
                if idx + 1 == len {
                    0
                } else {
                    idx + 1
                }
            } else {
                if idx == 0 {
                    len - 1
                } else {
                    idx - 1
                }
            };
            m = m + 1;
        }
    }

    /// Selects the next note row, going round to the first after the last.
    pub fn next(&mut self)
        requires
            old(self).selection_ok(),
        ensures
            final(self).notes == old(self).notes,
            final(self).display_items == old(self).display_items,
            moved(old(self).items(), old(self).selected, final(self).selected, true),
    {
        self.step(true)
    }

    /// Selects the previous note row, going round to the last before the first.
    pub fn previous(&mut self)
        requires
            old(self).selection_ok(),
        ensures
            final(self).notes == old(self).notes,
            final(self).display_items == old(self).display_items,
            moved(old(self).items(), old(self).selected, final(self).selected, false),
    {
        self.step(false)
    }
}

} // verus!
