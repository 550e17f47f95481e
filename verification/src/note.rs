use vstd::prelude::*;
use crate::text::{lemma_join_split, lemma_lines_after_line, lemma_lines_split, lemma_trim_end_last, trim_start, split_newlines, all_ascii, lemma_utf8_len_ascii, chars_of, first_line, first_line_of, join, join_from, push_char, str_views, trim, trimmed, utf8_len, utf8_len_is};
use crate::time::{datetime_text, lemma_datetime_text, stamp_char, parse_datetime, parsed_datetime, LocalDateTime, Timestamp};

verus! {

/// One note: when it was taken, its text, and whether it is done.
#[derive(Clone, Debug)]
pub struct Note {
    pub timestamp: Timestamp,
    pub text: String,
    pub done: bool,
}

/// The meaning of a note.
pub struct NoteView {
    pub timestamp: Timestamp,
    pub text: Seq<char>,
    pub done: bool,
}

impl View for Note {
    type V = NoteView;

    open spec fn view(&self) -> NoteView {
        NoteView { timestamp: self.timestamp, text: self.text@, done: self.done }
    }
}

/// What a note's lines say before its wall-clock time is placed in the local time zone.
#[derive(Clone, Debug)]
pub struct NoteDraft {
    pub local: LocalDateTime,
    pub done: bool,
    pub text: String,
}

/// The meaning of a draft.
pub struct DraftView {
    pub local: LocalDateTime,
    pub done: bool,
    pub text: Seq<char>,
}

impl View for NoteDraft {
    type V = DraftView;

    open spec fn view(&self) -> DraftView {
        DraftView { local: self.local, done: self.done, text: self.text@ }
    }
}

/// A note with its done flag flipped.
pub open spec fn toggled(n: NoteView) -> NoteView {
    NoteView { done: !n.done, ..n }
}

/// Toggling a note twice gives back the note.
pub proof fn lemma_toggle_twice(n: NoteView)
    ensures
        toggled(toggled(n)) == n,
{
}

/// The check box of a header line.
pub open spec fn checkbox(done: bool) -> Seq<char> {
    if done {
        seq!['[', 'x', ']']
    } else {
        seq!['[', ' ', ']']
    }
}

/// Whether a line starts as a header: `Some(true)` for "- [x] " or "- [X] ", `Some(false)`
/// for "- [ ] ", `None` otherwise.
pub open spec fn header_mark(line: Seq<char>) -> Option<bool> {
    if line.len() >= 6 && line[0] == '-' && line[1] == ' ' && line[2] == '[' && line[4] == ']'
        && line[5] == ' ' {
        if line[3] == 'x' || line[3] == 'X' {
            Some(true)
        } else if line[3] == ' ' {
            Some(false)
        } else {
            None
        }
    } else {
        None
    }
}

/// The time and done flag of a header line "- [ ] YYYY-MM-DD HH:MM:SS" (25 bytes long in UTF-8),
/// or `None` when the line is no header.
pub open spec fn note_header(line: Seq<char>) -> Option<(LocalDateTime, bool)> {
    match header_mark(line) {
        None => None,
        Some(done) => if utf8_len(line) != 25 {
            None
        } else {
            match parsed_datetime(line.skip(6)) {
                Some(t) => Some((t, done)),
                None => None,
            }
        },
    }
}

/// The draft that a block of lines spells: a header line, then the text, which is the other
/// lines joined by line feeds and trimmed.
pub open spec fn draft_of(block: Seq<Seq<char>>) -> Option<DraftView> {
    if block.len() == 0 {
        None
    } else {
        match note_header(block[0]) {
            None => None,
            Some((t, done)) => Some(
                DraftView { local: t, done, text: trim(join(block.skip(1), seq!['\n'])) },
            ),
        }
    }
}

/// A note as markdown: "- [ ] YYYY-MM-DD HH:MM:SS", a line feed, then the text.
pub open spec fn markdown(timestamp: LocalDateTime, done: bool, text: Seq<char>) -> Seq<char> {
    seq!['-', ' '] + checkbox(done) + seq![' '] + datetime_text(timestamp) + seq!['\n'] + text
}

/// The header line of a note: "- [ ] " or "- [x] ", then the date and time.
pub open spec fn header_line(t: LocalDateTime, done: bool) -> Seq<char> {
    seq!['-', ' '] + checkbox(done) + seq![' '] + datetime_text(t)
}

/// A note's markdown is its header line, a line feed and its text.
pub proof fn lemma_markdown_parts(t: LocalDateTime, done: bool, text: Seq<char>)
    ensures
        markdown(t, done, text) == header_line(t, done) + seq!['\n'] + text,
{
    assert(markdown(t, done, text) =~= header_line(t, done) + seq!['\n'] + text);
}

/// The header line of a note of the years 0 to 9999 holds no line feed, does not end in a
/// carriage return, and reads as its time and done flag as far as chrono reads its date and time
/// back.
pub proof fn lemma_header_line(t: LocalDateTime, done: bool)
    requires
        t.valid(),
        0 <= t.year <= 9999,
    ensures
        forall|i: int| 0 <= i < header_line(t, done).len() ==> header_line(t, done)[i] != '\n',
        header_line(t, done).len() == 25,
        header_line(t, done).last() != '\r',
        header_mark(header_line(t, done)) == Some(done),
        utf8_len(header_line(t, done)) == 25,
        header_line(t, done).skip(6) == datetime_text(t),
        note_header(header_line(t, done)) == match parsed_datetime(datetime_text(t)) {
            Some(u) => Some((u, done)),
            None => None,
        },
{
    lemma_datetime_text(t);
    let h = header_line(t, done);
    let dt = datetime_text(t);
    let c = if done {
        'x'
    } else {
        ' '
    };
    assert(h =~= seq!['-', ' ', '[', c, ']', ' '] + dt);
    assert(h.len() == 25);
    assert forall|i: int| 0 <= i < h.len() implies h[i] != '\n' && (#[trigger] h[i] as u32) <= 0x7f by {
        if i >= 6 {
            assert(h[i] == dt[i - 6]);
            assert(stamp_char(dt[i - 6]));
        }
    }
    assert(all_ascii(h));
    lemma_utf8_len_ascii(h);
    assert(h.skip(6) =~= dt);
    assert(h.last() == dt[18]);
    assert(header_mark(h) == Some(done));
}

/// The lines of a note as its file holds them: its header line, then the lines of its text.
pub open spec fn written_lines(t: LocalDateTime, done: bool, text: Seq<char>) -> Seq<Seq<char>> {
    seq![header_line(t, done)] + split_newlines(text)
}

/// The one-line summary of a note: check box, time, first line of the text.
pub open spec fn display_text(timestamp: LocalDateTime, done: bool, text: Seq<char>) -> Seq<
    char,
> {
    checkbox(done) + seq![' '] + datetime_text(timestamp) + seq![' '] + first_line(text)
}

fn push_checkbox(s: &mut String, done: bool)
    ensures
        final(s)@ == old(s)@ + checkbox(done),
{
    push_char(s, '[');
    push_char(s, if done { 'x' } else { ' ' });
    push_char(s, ']');
}

impl Note {
    /// A copy of this note.
    pub fn duplicate(&self) -> (res: Note)
        ensures
            res@ == self@,
    {
        Note { timestamp: self.timestamp, text: self.text.clone(), done: self.done }
    }
}

impl NoteDraft {
    /// The note that this draft becomes at `timestamp`.
    pub fn with_timestamp(self, timestamp: Timestamp) -> (res: Note)
        ensures
            res.timestamp == timestamp,
            res.text@ == self.text@,
            res.done == self.done,
    {
        Note { timestamp, text: self.text, done: self.done }
    }
}

impl Note {
    /// A new open note taken now; `None` when the current time cannot be read.
    pub fn new(text: String) -> (res: Option<Note>)
        ensures
            res matches Some(n) ==> n.text == text && !n.done && n.timestamp.local.valid(),
    {
        match Timestamp::now() {
            Some(timestamp) => Some(Note { timestamp, text, done: false }),
            None => None,
        }
    }

    /// An open note taken at `timestamp`.
    pub fn from_parts(timestamp: Timestamp, text: String) -> (res: Note)
        ensures
            res.timestamp == timestamp,
            res.text == text,
            !res.done,
    {
        Note { timestamp, text, done: false }
    }

    /// A note taken at `timestamp` with the given done flag.
    pub fn from_parts_with_done(timestamp: Timestamp, text: String, done: bool) -> (res: Note)
        ensures
            res.timestamp == timestamp,
            res.text == text,
            res.done == done,
    {
        Note { timestamp, text, done }
    }

    /// Flips the done flag.
    pub fn toggle_done(&mut self)
        ensures
            final(self).done == !old(self).done,
            final(self).timestamp == old(self).timestamp,
            final(self).text == old(self).text,
            final(self)@ == toggled(old(self)@),
    {
        self.done = !self.done;
    }

    /// The note as markdown.
    pub fn to_markdown(&self) -> (res: String)
        ensures
            res@ == markdown(self.timestamp.local, self.done, self.text@),
    {
        let mut s = String::new();
        push_char(&mut s, '-');
        push_char(&mut s, ' ');
        push_checkbox(&mut s, self.done);
        push_char(&mut s, ' ');
        let stamp = self.timestamp.local.format();
        s.append(stamp.as_str());
        push_char(&mut s, '\n');
        s.append(self.text.as_str());
        s
    }

    /// The time and done flag of a header line. The header line of a whole-second time of the
    /// years 0 to 9999 reads back as that time and done flag.
    pub fn parse_note_header(line: &str) -> (res: Option<(LocalDateTime, bool)>)
        ensures
            res == note_header(line@),
            forall|t: LocalDateTime, done: bool|
                t.valid() && 0 <= t.year <= 9999 && t.nanosecond == 0 && #[trigger] header_line(
                    t,
                    done,
                ) == line@ ==> res == Some((t, done)),
    {
        let v = chars_of(line);
        let n = v.len();
        let mark: Option<bool> = if n >= 6 && v[0] == '-' && v[1] == ' ' && v[2] == '[' && v[4]
            == ']' && v[5] == ' ' {
            if v[3] == 'x' || v[3] == 'X' {
                Some(true)
            } else if v[3] == ' ' {
                Some(false)
            } else {
                None
            }
        } else {
            None
        };
        assert(mark == header_mark(line@));
        assert forall|t: LocalDateTime, done: bool|
            t.valid() && 0 <= t.year <= 9999 && #[trigger] header_line(t, done) == line@ implies {
            &&& mark == Some(done)
            &&& utf8_len(line@) == 25
            &&& line@.skip(6) == datetime_text(t)
        } by {
            lemma_header_line(t, done);
            assert(header_line(t, done).skip(6) =~= datetime_text(t));
        }
        match mark {
            None => None,
            Some(done) => {
                if !utf8_len_is(&v, 25) {
                    None
                } else {
                    let rest = line.substring_char(6, n);
                    assert(rest@ == line@.skip(6));
                    match parse_datetime(rest) {
                        Some(t) => Some((t, done)),
                        None => None,
                    }
                }
            },
        }
    }

    /// Whether `line` is a note header.
    pub fn is_note_header(line: &str) -> (res: bool)
        ensures
            res == note_header(line@) is Some,
    {
        Self::parse_note_header(line).is_some()
    }

    /// The draft that `lines` spell: `None` when there is no line or the first is no header. The
    /// lines of a note as written (its header line, then the lines of its text) read back as the
    /// note's time, done flag and text, for a whole-second time of the years 0 to 9999 and a
    /// trimmed text.
    pub fn parse_draft(lines: &[&str]) -> (res: Option<NoteDraft>)
        ensures
            match res {
                Some(d) => draft_of(str_views(lines@)) == Some(d@),
                None => draft_of(str_views(lines@)) is None,
            },
            forall|t: LocalDateTime, done: bool, text: Seq<char>|
                t.valid() && 0 <= t.year <= 9999 && t.nanosecond == 0 && trim(text) == text
                    && #[trigger] written_lines(t, done, text) == str_views(lines@) ==> (res matches Some(
                    d,
                ) && d@ == (DraftView { local: t, done, text })),
            forall|t: LocalDateTime, done: bool, text: Seq<char>|
                t.valid() && 0 <= t.year <= 9999 && t.nanosecond == 0 && trim(text) == text && (
                forall|i: int| 0 <= i < text.len() ==> text[i] != '\r') && #[trigger] crate::text::lines(
                    markdown(t, done, text),
                ) == str_views(lines@) ==> (res matches Some(d) && d@ == (DraftView {
                    local: t,
                    done,
                    text,
                })),
    {
        if lines.len() == 0 {
            return None;
        }
        let header = Self::parse_note_header(lines[0]);
        proof {
            assert forall|t: LocalDateTime, done: bool, text: Seq<char>|
                t.valid() && 0 <= t.year <= 9999 && t.nanosecond == 0 && trim(text) == text
                    && #[trigger] written_lines(t, done, text) == str_views(lines@) implies draft_of(
                str_views(lines@),
            ) == Some(DraftView { local: t, done, text }) by {
                let ls = str_views(lines@);
                assert(ls[0] == lines@[0]@);
                assert(written_lines(t, done, text)[0] == header_line(t, done));
                assert(header == Some((t, done)));
                assert(ls.skip(1) == split_newlines(text));
                lemma_join_split(text);
            }
            assert forall|t: LocalDateTime, done: bool, text: Seq<char>|
                t.valid() && 0 <= t.year <= 9999 && t.nanosecond == 0 && trim(text) == text && (
                forall|i: int| 0 <= i < text.len() ==> text[i] != '\r') && #[trigger] crate::text::lines(
                    markdown(t, done, text),
                ) == str_views(lines@) implies draft_of(str_views(lines@)) == Some(
                DraftView { local: t, done, text },
            ) by {
                let ls = str_views(lines@);
                let h = header_line(t, done);
                lemma_markdown_parts(t, done, text);
                lemma_header_line(t, done);
                lemma_lines_after_line(h, text);
                assert(ls == seq![h] + crate::text::lines(text));
                assert(ls[0] == lines@[0]@);
                assert(ls[0] == h);
                assert(header == Some((t, done)));
                if text.len() == 0 {
                    assert(crate::text::lines(text) == Seq::<Seq<char>>::empty());
                    assert(ls.skip(1) =~= Seq::<Seq<char>>::empty());
                    assert(join(ls.skip(1), seq!['\n']) == Seq::<char>::empty());
                    assert(trim(Seq::<char>::empty()) == Seq::<char>::empty());
                    assert(note_header(ls[0]) == Some((t, done)));
                    assert(text =~= Seq::<char>::empty());
                } else {
                    lemma_trim_end_last(trim_start(text));
                    assert(text.last() != '\n');
                    lemma_lines_split(text);
                    assert(ls.skip(1) == split_newlines(text));
                    lemma_join_split(text);
                    assert(join(ls.skip(1), seq!['\n']) == text);
                    assert(note_header(ls[0]) == Some((t, done)));
                }
            }
        }
        let (local, done) = match header {
            Some(h) => h,
            None => return None,
        };
        let body = join_from(lines, 1, "\n");
        let text = trimmed(body.as_str());
        proof {
            reveal_strlit("\n");
            assert("\n"@ =~= seq!['\n']);
            assert(str_views(lines@)[0] == lines@[0]@);
            assert(str_views(lines@.subrange(1, lines@.len() as int)) == str_views(lines@).skip(
                1,
            ));
        }
        Some(NoteDraft { local, done, text })
    }

    /// The note that `lines` spell, its wall-clock time placed in the local time zone. `None`
    /// when the lines spell no draft; a draft whose time the local time zone skips gives `None`
    /// too. The lines of a note's markdown (`to_markdown`) give back its wall-clock reading, done
    /// flag and text, for a whole-second time of the years 0 to 9999 and a trimmed text without
    /// carriage returns.
    pub fn from_markdown(lines: &[&str]) -> (res: Option<Note>)
        ensures
            draft_of(str_views(lines@)) is None ==> res is None,
            res matches Some(n) ==> draft_of(str_views(lines@)) == Some(
                DraftView { local: n.timestamp.local, done: n.done, text: n.text@ },
            ),
            forall|t: LocalDateTime, done: bool, text: Seq<char>|
                t.valid() && 0 <= t.year <= 9999 && t.nanosecond == 0 && trim(text) == text && (
                forall|i: int| 0 <= i < text.len() ==> text[i] != '\r') && #[trigger] crate::text::lines(
                    markdown(t, done, text),
                ) == str_views(lines@) ==> (res matches Some(m) ==> m.timestamp.local == t && m.done
                    == done && m.text@ == text),
    {
        let draft = match Self::parse_draft(lines) {
            Some(d) => d,
            None => return None,
        };
        match Timestamp::from_local(draft.local) {
            Some(ts) => Some(draft.with_timestamp(ts)),
            None => None,
        }
    }

    /// The one-line summary: check box, time and the first line of the text.
    pub fn display_line(&self) -> (res: String)
        ensures
            res@ == display_text(self.timestamp.local, self.done, self.text@),
    {
        let mut s = String::new();
        push_checkbox(&mut s, self.done);
        push_char(&mut s, ' ');
        let stamp = self.timestamp.local.format();
        s.append(stamp.as_str());
        push_char(&mut s, ' ');
        let first = first_line_of(self.text.as_str());
        s.append(first.as_str());
        s
    }
}

} // verus!
