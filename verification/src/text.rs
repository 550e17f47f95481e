use vstd::prelude::*;

verus! {

/// Appends one character to a string (`String::push`).
#[verifier::external_body]
pub(crate) fn push_char(s: &mut String, c: char)
    ensures
        final(s)@ == old(s)@.push(c),
{
    s.push(c);
}

/// The characters of a string, in order.
pub fn chars_of(s: &str) -> (res: Vec<char>)
    ensures
        res@ == s@,
{
    let mut res: Vec<char> = Vec::new();
    for c in it: s.chars()
        invariant
            res@ == it.seq().take(it.index() as int),
    {
        res.push(c);
    }
    res
}

/// The string made of `v[lo..hi]`.
pub fn string_of_range(v: &Vec<char>, lo: usize, hi: usize) -> (res: String)
    requires
        lo <= hi <= v.len(),
    ensures
        res@ == v@.subrange(lo as int, hi as int),
{
    let mut res = String::new();
    let mut i = lo;
    while i < hi
        invariant
            lo <= i <= hi <= v.len(),
            res@ == v@.subrange(lo as int, i as int),
        decreases hi - i,
    {
        push_char(&mut res, v[i]);
        assert(v@.subrange(lo as int, i + 1) == v@.subrange(lo as int, i as int).push(v@[i as int]));
        i = i + 1;
    }
    res
}

/// Unicode `White_Space` (the characters for which `char::is_whitespace` holds).
pub open spec fn is_ws(c: char) -> bool {
    ||| ('\u{9}' <= c && c <= '\u{d}')
    ||| c == ' '
    ||| c == '\u{85}'
    ||| c == '\u{a0}'
    ||| c == '\u{1680}'
    ||| ('\u{2000}' <= c && c <= '\u{200a}')
    ||| c == '\u{2028}'
    ||| c == '\u{2029}'
    ||| c == '\u{202f}'
    ||| c == '\u{205f}'
    ||| c == '\u{3000}'
}

/// Whether `c` is white space, as `char::is_whitespace` decides it.
pub fn is_whitespace(c: char) -> (res: bool)
    ensures
        res == is_ws(c),
{
    ('\u{9}' <= c && c <= '\u{d}') || c == ' ' || c == '\u{85}' || c == '\u{a0}' || c
        == '\u{1680}' || ('\u{2000}' <= c && c <= '\u{200a}') || c == '\u{2028}' || c
        == '\u{2029}' || c == '\u{202f}' || c == '\u{205f}' || c == '\u{3000}'
}

/// `s` without its leading white space.
pub open spec fn trim_start(s: Seq<char>) -> Seq<char>
    decreases s.len(),
{
    if s.len() > 0 && is_ws(s[0]) {
        trim_start(s.drop_first())
    } else {
        s
    }
}

/// `s` without its trailing white space.
pub open spec fn trim_end(s: Seq<char>) -> Seq<char>
    decreases s.len(),
{
    if s.len() > 0 && is_ws(s.last()) {
        trim_end(s.drop_last())
    } else {
        s
    }
}

/// `s` without leading and trailing white space (`str::trim`).
pub open spec fn trim(s: Seq<char>) -> Seq<char> {
    trim_end(trim_start(s))
}

/// The trimmed copy of `s`.
pub fn trimmed(s: &str) -> (res: String)
    ensures
        res@ == trim(s@),
{
    let v = chars_of(s);
    let n = v.len();
    let mut i: usize = 0;
    assert(v@.subrange(0, n as int) == v@);
    while i < n && is_whitespace(v[i])
        invariant
            i <= n == v@.len(),
            v@ == s@,
            trim_start(s@) == trim_start(v@.subrange(i as int, n as int)),
        decreases n - i,
    {
        assert(v@.subrange(i as int, n as int).drop_first() == v@.subrange(i + 1, n as int));
        i = i + 1;
    }
    assert(trim_start(s@) == v@.subrange(i as int, n as int));
    let mut j: usize = n;
    while j > i && is_whitespace(v[j - 1])
        invariant
            i <= j <= n == v@.len(),
            v@ == s@,
            trim(s@) == trim_end(v@.subrange(i as int, j as int)),
        decreases j - i,
    {
        assert(v@.subrange(i as int, j as int).drop_last() == v@.subrange(i as int, j - 1));
        j = j - 1;
    }
    string_of_range(&v, i, j)
}

/// Whether `s` is empty once trimmed.
pub fn is_blank(s: &str) -> (res: bool)
    ensures
        res == (trim(s@).len() == 0),
{
    let t = trimmed(s);
    t.as_str().is_empty()
}


/// Index of the first line feed in `s`, or -1 when there is none.
pub open spec fn newline_index(s: Seq<char>) -> int
    decreases s.len(),
{
    if s.len() == 0 {
        -1
    } else if s[0] == '\n' {
        0
    } else {
        let k = newline_index(s.drop_first());
        if k < 0 {
            -1
        } else {
            k + 1
        }
    }
}

pub proof fn lemma_newline_index(s: Seq<char>)
    ensures
        -1 <= newline_index(s) < s.len(),
        newline_index(s) == -1 <==> (forall|j: int| 0 <= j < s.len() ==> s[j] != '\n'),
        newline_index(s) >= 0 ==> s[newline_index(s)] == '\n' && (forall|j: int|
            0 <= j < newline_index(s) ==> s[j] != '\n'),
    decreases s.len(),
{
    if s.len() > 0 && s[0] != '\n' {
        lemma_newline_index(s.drop_first());
        if newline_index(s.drop_first()) == -1 {
            assert forall|j: int| 0 <= j < s.len() implies s[j] != '\n' by {
                if j > 0 {
                    assert(s[j] == s.drop_first()[j - 1]);
                }
            }
        } else {
            assert forall|j: int| 0 <= j < newline_index(s) implies s[j] != '\n' by {
                if j > 0 {
                    assert(s[j] == s.drop_first()[j - 1]);
                }
            }
        }
    }
}

/// The first line feed of `s` is at `k`.
pub proof fn lemma_newline_at(s: Seq<char>, k: int)
    requires
        0 <= k < s.len(),
        s[k] == '\n',
        forall|j: int| 0 <= j < k ==> s[j] != '\n',
    ensures
        newline_index(s) == k,
{
    lemma_newline_index(s);
}

/// `l` without one trailing carriage return.
pub open spec fn strip_cr(l: Seq<char>) -> Seq<char> {
    if l.len() > 0 && l.last() == '\r' {
        l.drop_last()
    } else {
        l
    }
}

/// The lines of `s` as `str::lines` yields them: split at each line feed, a carriage return
/// just before a line feed removed, and no empty last line after a final line feed.
pub open spec fn lines(s: Seq<char>) -> Seq<Seq<char>>
    decreases s.len(),
{
    if s.len() == 0 {
        seq![]
    } else {
        let k = newline_index(s);
        if k < 0 {
            seq![s]
        } else {
            proof {
                lemma_newline_index(s);
            }
            seq![strip_cr(s.take(k))] + lines(s.skip(k + 1))
        }
    }
}

/// The views of a sequence of strings.
pub open spec fn views(v: Seq<String>) -> Seq<Seq<char>> {
    v.map_values(|l: String| l@)
}

/// The lines of `s`.
pub fn split_lines(s: &str) -> (res: Vec<String>)
    ensures
        views(res@) == lines(s@),
{
    let v = chars_of(s);
    let n = v.len();
    let mut out: Vec<String> = Vec::new();
    let mut start: usize = 0;
    let mut i: usize = 0;
    assert(v@.skip(0) == v@);
    while i < n
        invariant
            start <= i <= n == v@.len(),
            v@ == s@,
            lines(s@) == views(out@) + lines(v@.skip(start as int)),
            forall|j: int| start <= j < i ==> v@[j] != '\n',
        decreases n - i,
    {
        if v[i] == '\n' {
            let ghost t = v@.skip(start as int);
            proof {
                lemma_newline_at(t, i - start);
                assert(t.take(i - start) == v@.subrange(start as int, i as int));
                assert(t.skip(i - start + 1) == v@.skip(i + 1));
            }
            let end = if i > start && v[i - 1] == '\r' {
                i - 1
            } else {
                i
            };
            let line = string_of_range(&v, start, end);
            proof {
                assert(line@ == strip_cr(t.take(i - start)));
            }
            let ghost before = out@;
            out.push(line);
            assert(views(out@) == views(before).push(line@));
            start = i + 1;
        }
        i = i + 1;
    }
    if start < n {
        let ghost t = v@.skip(start as int);
        proof {
            lemma_newline_index(t);
            assert(forall|j: int| 0 <= j < t.len() ==> t[j] == v@[start + j]);
            assert(newline_index(t) == -1);
            assert(t == v@.subrange(start as int, n as int));
        }
        let line = string_of_range(&v, start, n);
        let ghost before = out@;
        out.push(line);
        assert(views(out@) == views(before).push(line@));
    } else {
        assert(v@.skip(start as int).len() == 0);
    }
    out
}

/// The first line of `s` (`s.lines().next().unwrap_or("")`).
pub open spec fn first_line(s: Seq<char>) -> Seq<char> {
    if lines(s).len() == 0 {
        seq![]
    } else {
        lines(s)[0]
    }
}

/// The first line of `s`.
pub fn first_line_of(s: &str) -> (res: String)
    ensures
        res@ == first_line(s@),
{
    let v = chars_of(s);
    let n = v.len();
    let mut i: usize = 0;
    while i < n && v[i] != '\n'
        invariant
            i <= n == v@.len(),
            v@ == s@,
            forall|j: int| 0 <= j < i ==> v@[j] != '\n',
        decreases n - i,
    {
        i = i + 1;
    }
    proof {
        lemma_newline_index(v@);
        if i < n {
            lemma_newline_at(v@, i as int);
            assert(v@.take(i as int) == v@.subrange(0, i as int));
        } else {
            assert(v@.subrange(0, n as int) == v@);
        }
    }
    if n == 0 {
        String::new()
    } else if i > 0 && i < n && v[i - 1] == '\r' {
        string_of_range(&v, 0, i - 1)
    } else {
        string_of_range(&v, 0, i)
    }
}

/// `parts` joined with `sep` between each two of them (`join`).
pub open spec fn join(parts: Seq<Seq<char>>, sep: Seq<char>) -> Seq<char>
    decreases parts.len(),
{
    if parts.len() == 0 {
        seq![]
    } else if parts.len() == 1 {
        parts[0]
    } else {
        join(parts.drop_last(), sep) + sep + parts.last()
    }
}

/// The views of a sequence of string slices.
pub open spec fn str_views(v: Seq<&str>) -> Seq<Seq<char>> {
    v.map_values(|l: &str| l@)
}

/// `parts[from..]` joined with `sep`.
pub fn join_from(parts: &[&str], from: usize, sep: &str) -> (res: String)
    requires
        from <= parts@.len(),
    ensures
        res@ == join(str_views(parts@.subrange(from as int, parts@.len() as int)), sep@),
{
    let n = parts.len();
    let mut res = String::new();
    let mut i = from;
    while i < n
        invariant
            from <= i <= n == parts@.len(),
            res@ == join(str_views(parts@.subrange(from as int, i as int)), sep@),
        decreases n - i,
    {
        let ghost prev = str_views(parts@.subrange(from as int, i as int));
        let ghost next = str_views(parts@.subrange(from as int, i + 1));
        assert(next.drop_last() == prev);
        assert(next.last() == parts@[i as int]@);
        if i > from {
            res.append(sep);
        }
        res.append(parts[i]);
        i = i + 1;
    }
    res
}

/// Number of bytes of `c` in UTF-8.
pub open spec fn utf8_width(c: char) -> nat {
    if (c as u32) <= 0x7f {
        1
    } else if (c as u32) <= 0x7ff {
        2
    } else if (c as u32) <= 0xffff {
        3
    } else {
        4
    }
}

/// Number of bytes of `s` in UTF-8 (`str::len`).
pub open spec fn utf8_len(s: Seq<char>) -> nat
    decreases s.len(),
{
    if s.len() == 0 {
        0
    } else {
        utf8_len(s.drop_last()) + utf8_width(s.last())
    }
}

pub proof fn lemma_utf8_len_prefix(s: Seq<char>, i: int)
    requires
        0 <= i <= s.len(),
    ensures
        utf8_len(s.take(i)) <= utf8_len(s),
    decreases s.len() - i,
{
    if i < s.len() {
        lemma_utf8_len_prefix(s, i + 1);
        assert(s.take(i + 1).drop_last() == s.take(i));
    } else {
        assert(s.take(i) == s);
    }
}

/// Whether `v` takes exactly `n` bytes in UTF-8.
pub fn utf8_len_is(v: &Vec<char>, n: u64) -> (res: bool)
    requires
        n <= 0xffff_ffff,
    ensures
        res == (utf8_len(v@) == n),
{
    let len = v.len();
    let mut total: u64 = 0;
    let mut i: usize = 0;
    while i < len
        invariant
            i <= len == v@.len(),
            n <= 0xffff_ffff,
            total == utf8_len(v@.take(i as int)),
            total <= n,
        decreases len - i,
    {
        let c = v[i];
        let w: u64 = if (c as u32) <= 0x7f {
            1
        } else if (c as u32) <= 0x7ff {
            2
        } else if (c as u32) <= 0xffff {
            3
        } else {
            4
        };
        assert(v@.take(i + 1).drop_last() == v@.take(i as int));
        total = total + w;
        i = i + 1;
        if total > n {
            proof {
                lemma_utf8_len_prefix(v@, i as int);
            }
            return false;
        }
    }
    assert(v@.take(len as int) == v@);
    total == n
}

/// The digit `d` as a character.
pub open spec fn digit(d: nat) -> char {
    ((d % 10) + 48) as char
}

/// The decimal digits of `n`.
pub open spec fn decimal(n: nat) -> Seq<char>
    decreases n,
{
    if n < 10 {
        seq![digit(n)]
    } else {
        decimal(n / 10).push(digit(n % 10))
    }
}

/// The decimal digits of `n`, with zeros in front up to `width` characters.
pub open spec fn padded(n: nat, width: nat) -> Seq<char> {
    let d = decimal(n);
    if d.len() >= width {
        d
    } else {
        Seq::new((width - d.len()) as nat, |i: int| '0') + d
    }
}

/// Appends the decimal digits of `n` to `s`.
pub fn push_decimal(s: &mut String, n: u64)
    ensures
        final(s)@ == old(s)@ + decimal(n as nat),
    decreases n,
{
    if n >= 10 {
        push_decimal(s, n / 10);
    }
    let d = (n % 10) as u8;
    let c = (48u8 + d) as char;
    assert(c == digit(n as nat));
    push_char(s, c);
}

/// Appends `n` zero-padded to `width` characters to `s`.
pub fn push_padded(s: &mut String, n: u64, width: usize)
    ensures
        final(s)@ == old(s)@ + padded(n as nat, width as nat),
{
    let mut digits = String::new();
    push_decimal(&mut digits, n);
    assert(digits@ == decimal(n as nat));
    let len = digits.as_str().unicode_len();
    let ghost start = s@;
    if len < width {
        let mut k = len;
        while k < width
            invariant
                len <= k <= width,
                s@ == start + Seq::new((k - len) as nat, |i: int| '0'),
            decreases width - k,
        {
            push_char(s, '0');
            assert(Seq::new((k + 1 - len) as nat, |i: int| '0') == Seq::new(
                (k - len) as nat,
                |i: int| '0',
            ).push('0'));
            k = k + 1;
        }
    }
    s.append(digits.as_str());
}


/// Whether `c` is one of '0' to '9'.
pub open spec fn is_digit(c: char) -> bool {
    48 <= (c as u32) <= 57
}

pub proof fn lemma_digit(d: nat)
    ensures
        is_digit(digit(d)),
{
    assert(48 <= (d % 10) + 48 <= 57);
}


/// The pieces of `t` between its line feeds: one more than there are line feeds.
pub open spec fn split_newlines(t: Seq<char>) -> Seq<Seq<char>>
    decreases t.len(),
{
    let k = newline_index(t);
    if k < 0 {
        seq![t]
    } else {
        proof {
            lemma_newline_index(t);
        }
        seq![t.take(k)] + split_newlines(t.skip(k + 1))
    }
}

pub proof fn lemma_split_newlines_nonempty(t: Seq<char>)
    ensures
        split_newlines(t).len() >= 1,
    decreases t.len(),
{
    lemma_newline_index(t);
}

/// A line without a line feed, and not ending in a carriage return, followed by a line feed,
/// is one line.
pub proof fn lemma_lines_after_line(h: Seq<char>, r: Seq<char>)
    requires
        forall|i: int| 0 <= i < h.len() ==> h[i] != '\n',
        h.len() == 0 || h.last() != '\r',
    ensures
        lines(h + seq!['\n'] + r) == seq![h] + lines(r),
{
    let s = h + seq!['\n'] + r;
    assert(s[h.len() as int] == '\n');
    assert forall|j: int| 0 <= j < h.len() implies s[j] != '\n' by {
        assert(s[j] == h[j]);
    }
    lemma_newline_at(s, h.len() as int);
    assert(s.take(h.len() as int) == h);
    assert(s.skip(h.len() as int + 1) == r);
}

/// A text without carriage returns, followed by a line feed, is the lines between its line
/// feeds.
pub proof fn lemma_lines_of_text(t: Seq<char>, r: Seq<char>)
    requires
        forall|i: int| 0 <= i < t.len() ==> t[i] != '\r',
    ensures
        lines(t + seq!['\n'] + r) == split_newlines(t) + lines(r),
    decreases t.len(),
{
    lemma_newline_index(t);
    let k = newline_index(t);
    if k < 0 {
        lemma_lines_after_line(t, r);
    } else {
        let t1 = t.take(k);
        let t2 = t.skip(k + 1);
        assert(t + seq!['\n'] + r == t1 + seq!['\n'] + (t2 + seq!['\n'] + r)) by {
            assert(t == t1 + seq!['\n'] + t2);
        }
        lemma_lines_after_line(t1, t2 + seq!['\n'] + r);
        lemma_lines_of_text(t2, r);
        assert(seq![t1] + (split_newlines(t2) + lines(r)) == (seq![t1] + split_newlines(t2))
            + lines(r));
    }
}

pub proof fn lemma_join_prepend(a: Seq<char>, rest: Seq<Seq<char>>, sep: Seq<char>)
    requires
        rest.len() > 0,
    ensures
        join(seq![a] + rest, sep) == a + sep + join(rest, sep),
    decreases rest.len(),
{
    let all = seq![a] + rest;
    assert(all.last() == rest.last());
    if rest.len() == 1 {
        assert(all.drop_last() == seq![a]);
        assert(join(seq![a], sep) == a);
        assert(join(rest, sep) == rest[0]);
    } else {
        assert(all.drop_last() == seq![a] + rest.drop_last());
        lemma_join_prepend(a, rest.drop_last(), sep);
        assert(join(all, sep) =~= a + sep + join(rest, sep));
    }
}

/// Joining the pieces between line feeds with line feeds gives back the text.
pub proof fn lemma_join_split(t: Seq<char>)
    ensures
        join(split_newlines(t), seq!['\n']) == t,
    decreases t.len(),
{
    lemma_newline_index(t);
    let k = newline_index(t);
    if k >= 0 {
        let t1 = t.take(k);
        let t2 = t.skip(k + 1);
        lemma_split_newlines_nonempty(t2);
        lemma_join_prepend(t1, split_newlines(t2), seq!['\n']);
        lemma_join_split(t2);
        assert(t == t1 + seq!['\n'] + t2);
    }
}

/// A non-empty text without carriage returns that does not end in a line feed has as its lines
/// the pieces between its line feeds.
pub proof fn lemma_lines_split(t: Seq<char>)
    requires
        t.len() > 0,
        t.last() != '\n',
        forall|i: int| 0 <= i < t.len() ==> t[i] != '\r',
    ensures
        lines(t) == split_newlines(t),
    decreases t.len(),
{
    lemma_newline_index(t);
    let k = newline_index(t);
    if k >= 0 {
        let t1 = t.take(k);
        let t2 = t.skip(k + 1);
        assert(k < t.len() - 1);
        assert(t2.last() == t.last());
        assert forall|i: int| 0 <= i < t2.len() implies t2[i] != '\r' by {
            assert(t2[i] == t[i + k + 1]);
        }
        lemma_lines_split(t2);
        if t1.len() > 0 {
            assert(t1.last() == t[k - 1]);
        }
        assert(strip_cr(t1) == t1);
    }
}

/// What trimming leaves does not end in white space.
pub proof fn lemma_trim_end_last(s: Seq<char>)
    ensures
        trim_end(s).len() > 0 ==> !is_ws(trim_end(s).last()),
    decreases s.len(),
{
    if s.len() > 0 && is_ws(s.last()) {
        lemma_trim_end_last(s.drop_last());
    }
}

/// Whether every character of `s` takes one byte in UTF-8.
pub open spec fn all_ascii(s: Seq<char>) -> bool {
    forall|i: int| 0 <= i < s.len() ==> (#[trigger] s[i] as u32) <= 0x7f
}

pub proof fn lemma_utf8_len_ascii(s: Seq<char>)
    requires
        all_ascii(s),
    ensures
        utf8_len(s) == s.len(),
    decreases s.len(),
{
    if s.len() > 0 {
        assert(all_ascii(s.drop_last())) by {
            assert forall|i: int| 0 <= i < s.drop_last().len() implies (#[trigger] s.drop_last()[i]
                as u32) <= 0x7f by {
                assert(s.drop_last()[i] == s[i]);
            }
        }
        lemma_utf8_len_ascii(s.drop_last());
        assert((s[s.len() - 1] as u32) <= 0x7f);
    }
}

/// The digits of a number are digits; there are at most 2 of them below 100 and at most 4
/// below 10000.
pub proof fn lemma_decimal(n: nat)
    ensures
        forall|i: int| 0 <= i < decimal(n).len() ==> is_digit(#[trigger] decimal(n)[i]),
        decimal(n).len() >= 1,
        n < 10 ==> decimal(n).len() == 1,
        n < 100 ==> decimal(n).len() <= 2,
        n < 1000 ==> decimal(n).len() <= 3,
        n < 10000 ==> decimal(n).len() <= 4,
    decreases n,
{
    lemma_digit(n);
    if n >= 10 {
        lemma_decimal(n / 10);
        lemma_digit(n % 10);
        assert forall|i: int| 0 <= i < decimal(n).len() implies is_digit(#[trigger] decimal(n)[i]) by {
            if i < decimal(n / 10).len() {
                assert(decimal(n)[i] == decimal(n / 10)[i]);
            }
        }
    }
}

/// A number zero-padded to a width it fits in: exactly that many digits.
pub proof fn lemma_padded(n: nat, width: nat)
    requires
        decimal(n).len() <= width,
    ensures
        padded(n, width).len() == width,
        forall|i: int| 0 <= i < width ==> is_digit(#[trigger] padded(n, width)[i]),
{
    lemma_decimal(n);
    let d = decimal(n);
    let z = Seq::new((width - d.len()) as nat, |i: int| '0');
    assert forall|i: int| 0 <= i < width implies is_digit(#[trigger] padded(n, width)[i]) by {
        if i < z.len() {
            assert(padded(n, width)[i] == '0');
        } else {
            assert(padded(n, width)[i] == d[i - z.len()]);
        }
    }
}

} // verus!
