//! Text as the rest of the library reads it: a sequence of characters, split
//! into lines at every `'\n'`, and the few facts about characters that only
//! the standard library and `unicode-width` can answer.

use vstd::prelude::*;

verus! {

broadcast use vstd::string::group_string_axioms;

/// What `char::is_alphanumeric` answers for a character.
pub uninterp spec fn alphanumeric(c: char) -> bool;

/// What `char::is_whitespace` answers for a character.
pub uninterp spec fn whitespace(c: char) -> bool;

/// The columns `unicode-width` measures a string as.
pub uninterp spec fn display_width(s: Seq<char>) -> nat;

/// The columns `unicode-width` measures one character as, where it names any.
pub uninterp spec fn char_columns(c: char) -> Option<usize>;

pub open spec fn ascii_alphanumeric(c: char) -> bool {
    ('a' <= c && c <= 'z') || ('A' <= c && c <= 'Z') || ('0' <= c && c <= '9')
}

pub open spec fn ascii_whitespace(c: char) -> bool {
    c == ' ' || c == '\t' || c == '\n' || c == '\r' || c == '\x0B' || c == '\x0C'
}

/// `char::is_alphanumeric`: a character with the Alphabetic or the Numeric
/// property, which among ASCII characters is exactly the letters and digits.
#[verifier::external_body]
pub(crate) fn is_alphanumeric(c: char) -> (b: bool)
    ensures
        b == alphanumeric(c),
        (c as u32) < 128 ==> (b <==> ascii_alphanumeric(c)),
{
    c.is_alphanumeric()
}

/// `char::is_whitespace`: a character with the White_Space property, which
/// among ASCII characters is the space, tab, line feed, vertical tab, form
/// feed and carriage return.
#[verifier::external_body]
pub(crate) fn is_whitespace(c: char) -> (b: bool)
    ensures
        b == whitespace(c),
        (c as u32) < 128 ==> (b <==> ascii_whitespace(c)),
{
    c.is_whitespace()
}

/// `unicode_width::UnicodeWidthStr::width`: how many columns a terminal
/// spends on a string, a function of the string; a string of printable ASCII
/// characters takes one column each.
#[verifier::external_body]
pub(crate) fn str_width(s: &str) -> (w: usize)
    ensures
        w == display_width(s@),
        (forall|i: int| 0 <= i < s@.len() ==> ' ' <= #[trigger] s@[i] <= '~') ==> w == s@.len(),
{
    unicode_width::UnicodeWidthStr::width(s)
}

/// `unicode_width::UnicodeWidthChar::width`: the columns one character takes,
/// or nothing for a control character. Claims only that the answer is a
/// function of the character.
#[verifier::external_body]
pub(crate) fn char_width(c: char) -> (w: Option<usize>)
    ensures
        w == char_columns(c),
{
    unicode_width::UnicodeWidthChar::width(c)
}

/// `String::push`: the character appended to the end.
#[verifier::external_body]
pub(crate) fn push_char(s: &mut String, c: char)
    ensures
        final(s)@ == old(s)@.push(c),
{
    s.push(c)
}

/// `str::to_string`: an owned copy holding the same characters.
#[verifier::external_body]
pub(crate) fn owned(s: &str) -> (r: String)
    ensures
        r@ == s@,
{
    s.to_string()
}

/// `String::push_str`: the string appended to the end.
#[verifier::external_body]
pub(crate) fn push_str(s: &mut String, t: &str)
    ensures
        final(s)@ == old(s)@ + t@,
{
    s.push_str(t)
}

/// The characters of a string, in order.
pub fn chars_of(s: &str) -> (v: Vec<char>)
    ensures
        v@ == s@,
{
    let mut v: Vec<char> = Vec::new();
    for c in it: s.chars()
        invariant
            it.seq() == s@,
            v@ == it.seq().take(it.index() as int),
    {
        v.push(c);
        assert(it.seq().take(it.index() + 1) == v@);
    }
    v
}

/// A string holding exactly these characters.
pub fn string_of(v: &[char]) -> (s: String)
    ensures
        s@ == v@,
{
    let mut s = String::new();
    let mut i: usize = 0;
    while i < v.len()
        invariant
            i <= v.len(),
            s@ == v@.take(i as int),
        decreases v.len() - i,
    {
        push_char(&mut s, v[i]);
        i = i + 1;
        assert(s@ == v@.take(i as int));
    }
    assert(v@.take(v.len() as int) == v@);
    s
}

/// The lines of a text: what lies between its line breaks, so a text always
/// has one more line than it has breaks, and the empty text is one empty line.
pub open spec fn split_lines(t: Seq<char>) -> Seq<Seq<char>>
    decreases t.len(),
{
    if t.len() == 0 {
        seq![Seq::empty()]
    } else {
        let rest = split_lines(t.drop_last());
        if t.last() == '\n' {
            rest.push(Seq::empty())
        } else {
            rest.update(rest.len() - 1, rest.last().push(t.last()))
        }
    }
}

/// Lines put back together with a break between each two.
pub open spec fn join_lines(lines: Seq<Seq<char>>) -> Seq<char>
    decreases lines.len(),
{
    if lines.len() == 0 {
        Seq::empty()
    } else if lines.len() == 1 {
        lines[0]
    } else {
        join_lines(lines.drop_last()) + seq!['\n'] + lines.last()
    }
}

/// No line holds a break of its own.
pub open spec fn unbroken(lines: Seq<Seq<char>>) -> bool {
    forall|i: int, j: int| 0 <= i < lines.len() && 0 <= j < lines[i].len() ==> lines[i][j] != '\n'
}

pub proof fn lemma_split_len(t: Seq<char>)
    ensures
        split_lines(t).len() >= 1,
        unbroken(split_lines(t)),
    decreases t.len(),
{
    if t.len() > 0 {
        lemma_split_len(t.drop_last());
        let rest = split_lines(t.drop_last());
        if t.last() != '\n' {
            let l = rest.last().push(t.last());
            assert forall|i: int, j: int|
                0 <= i < split_lines(t).len() && 0 <= j < split_lines(t)[i].len() implies
                split_lines(t)[i][j] != '\n' by {
                if i == rest.len() - 1 {
                    if j < rest.last().len() {
                        assert(rest[i][j] != '\n');
                    }
                } else {
                    assert(rest[i][j] != '\n');
                }
            }
        } else {
            assert forall|i: int, j: int|
                0 <= i < split_lines(t).len() && 0 <= j < split_lines(t)[i].len() implies
                split_lines(t)[i][j] != '\n' by {
                if i < rest.len() {
                    assert(rest[i][j] != '\n');
                }
            }
        }
    }
}

/// Splitting and joining again gives back the text.
pub proof fn lemma_join_split(t: Seq<char>)
    ensures
        join_lines(split_lines(t)) == t,
    decreases t.len(),
{
    if t.len() > 0 {
        lemma_split_len(t.drop_last());
        lemma_join_split(t.drop_last());
        let rest = split_lines(t.drop_last());
        if t.last() == '\n' {
            assert(rest.push(Seq::empty()).drop_last() == rest);
            assert(t == t.drop_last() + seq!['\n'] + Seq::<char>::empty());
        } else {
            let s = split_lines(t);
            if rest.len() == 1 {
                assert(t == rest[0].push(t.last()));
            } else {
                assert(s.drop_last() == rest.drop_last());
                assert(join_lines(rest) == join_lines(rest.drop_last()) + seq!['\n'] + rest.last());
                assert(t.drop_last() == join_lines(rest.drop_last()) + seq!['\n'] + rest.last());
                assert(t == t.drop_last().push(t.last()));
                assert(t =~= join_lines(rest.drop_last()) + seq!['\n'] + rest.last().push(t.last()));
            }
        }
    }
}

/// Joining lines with no breaks of their own and splitting again gives back
/// the lines.
pub proof fn lemma_split_join(lines: Seq<Seq<char>>)
    requires
        lines.len() >= 1,
        unbroken(lines),
    ensures
        split_lines(join_lines(lines)) == lines,
    decreases lines.len(), lines.last().len(),
{
    let last = lines.last();
    if last.len() > 0 {
        let shorter = lines.update(lines.len() - 1, last.drop_last());
        assert(unbroken(shorter)) by {
            assert forall|i: int, j: int|
                0 <= i < shorter.len() && 0 <= j < shorter[i].len() implies shorter[i][j] != '\n' by {
                assert(lines[i][j] != '\n');
            }
        }
        lemma_split_join(shorter);
        assert(last[last.len() - 1] != '\n');
        if lines.len() == 1 {
            assert(join_lines(lines) == last);
            assert(join_lines(shorter) == last.drop_last());
            assert(join_lines(lines).drop_last() == join_lines(shorter));
        } else {
            assert(shorter.drop_last() == lines.drop_last());
            assert(join_lines(lines).drop_last() == join_lines(shorter));
        }
        assert(shorter.update(shorter.len() - 1, shorter.last().push(last.last())) =~~= lines);
    } else if lines.len() > 1 {
        let front = lines.drop_last();
        assert(unbroken(front)) by {
            assert forall|i: int, j: int|
                0 <= i < front.len() && 0 <= j < front[i].len() implies front[i][j] != '\n' by {
                assert(lines[i][j] != '\n');
            }
        }
        lemma_split_join(front);
        assert(join_lines(lines) == join_lines(front) + seq!['\n'] + last);
        assert(join_lines(lines).drop_last() == join_lines(front));
        assert(front.push(Seq::empty()) =~~= lines);
    } else {
        assert(lines =~~= seq![Seq::<char>::empty()]);
    }
}

/// The lines of a text, as the text holds them.
pub fn split_text(t: &Vec<char>) -> (lines: Vec<Vec<char>>)
    ensures
        lines.deep_view() == split_lines(t@),
{
    let mut lines: Vec<Vec<char>> = Vec::new();
    let mut current: Vec<char> = Vec::new();
    let mut i: usize = 0;
    while i < t.len()
        invariant
            i <= t.len(),
            lines.deep_view().push(current@) == split_lines(t@.take(i as int)),
        decreases t.len() - i,
    {
        let ghost before = t@.take(i as int);
        assert(t@.take(i + 1).drop_last() == before);
        if t[i] == '\n' {
            let done = current;
            let ghost old_lines = lines.deep_view();
            lines.push(done);
            current = Vec::new();
            assert(lines.deep_view() =~~= old_lines.push(done@));
            assert(lines.deep_view().push(current@) =~~= split_lines(t@.take(i + 1)));
        } else {
            current.push(t[i]);
            assert(lines.deep_view().push(current@) =~~= split_lines(before).update(
                split_lines(before).len() - 1, split_lines(before).last().push(t[i as int])));
        }
        i = i + 1;
    }
    let ghost old_lines = lines.deep_view();
    lines.push(current);
    assert(lines.deep_view() =~~= old_lines.push(current@));
    assert(t@.take(t.len() as int) == t@);
    lines
}

/// Lines put back together with a break between each two.
pub fn join_text(lines: &Vec<Vec<char>>) -> (t: Vec<char>)
    ensures
        t@ == join_lines(lines.deep_view()),
{
    let mut t: Vec<char> = Vec::new();
    let mut i: usize = 0;
    while i < lines.len()
        invariant
            i <= lines.len(),
            t@ == join_lines(lines.deep_view().take(i as int)),
        decreases lines.len() - i,
    {
        let ghost before = lines.deep_view().take(i as int);
        assert(lines.deep_view().take(i + 1).drop_last() == before);
        if i > 0 {
            t.push('\n');
        }
        let line = &lines[i];
        let mut j: usize = 0;
        let ghost start = t@;
        while j < line.len()
            invariant
                j <= line.len(),
                t@ == start + line@.take(j as int),
            decreases line.len() - j,
        {
            t.push(line[j]);
            j = j + 1;
            assert(t@ == start + line@.take(j as int));
        }
        assert(line@.take(line.len() as int) == line@);
        assert(lines.deep_view()[i as int] == line@);
        i = i + 1;
    }
    assert(lines.deep_view().take(lines.len() as int) == lines.deep_view());
    t
}

} // verus!

verus! {

/// The characters of `v` from `from` up to `to`.
pub fn slice_of(v: &Vec<char>, from: usize, to: usize) -> (r: Vec<char>)
    requires
        from <= to <= v.len(),
    ensures
        r@ == v@.subrange(from as int, to as int),
{
    let mut r: Vec<char> = Vec::new();
    let mut i = from;
    while i < to
        invariant
            from <= i <= to <= v.len(),
            r@ == v@.subrange(from as int, i as int),
        decreases to - i,
    {
        r.push(v[i]);
        i = i + 1;
        assert(r@ =~= v@.subrange(from as int, i as int));
    }
    r
}

/// `tail` appended to `v`.
pub fn extend(v: &mut Vec<char>, tail: &Vec<char>)
    ensures
        final(v)@ == old(v)@ + tail@,
{
    let mut i: usize = 0;
    while i < tail.len()
        invariant
            i <= tail.len(),
            v@ == old(v)@ + tail@.take(i as int),
        decreases tail.len() - i,
    {
        v.push(tail[i]);
        i = i + 1;
        assert(v@ =~= old(v)@ + tail@.take(i as int));
    }
    assert(tail@.take(tail.len() as int) =~= tail@);
}

/// The lines of several strings, each as its characters.
pub fn char_lines(lines: &[String]) -> (r: Vec<Vec<char>>)
    ensures
        r.deep_view() == lines@.map_values(|l: String| l@),
{
    let mut r: Vec<Vec<char>> = Vec::new();
    let mut i: usize = 0;
    while i < lines.len()
        invariant
            i <= lines.len(),
            r.deep_view() == lines@.take(i as int).map_values(|l: String| l@),
        decreases lines.len() - i,
    {
        let ghost before = r.deep_view();
        let line = chars_of(lines[i].as_str());
        r.push(line);
        assert(r.deep_view() =~~= before.push(line@));
        assert(lines@.take(i + 1).map_values(|l: String| l@) =~~= lines@.take(i as int).map_values(|l: String| l@).push(lines@[i as int]@));
        i = i + 1;
    }
    assert(lines@.take(lines.len() as int) =~= lines@);
    r
}

/// Two strings hold the same characters.
pub fn same_text(a: &str, b: &str) -> (r: bool)
    ensures
        r == (a@ == b@),
{
    same_chars(&chars_of(a), &chars_of(b))
}

/// Two sequences of characters are equal, compared character by character.
pub fn same_chars(a: &Vec<char>, b: &Vec<char>) -> (r: bool)
    ensures
        r == (a@ == b@),
{
    if a.len() != b.len() {
        return false;
    }
    let mut i: usize = 0;
    while i < a.len()
        invariant
            i <= a.len() == b.len(),
            a@.take(i as int) == b@.take(i as int),
        decreases a.len() - i,
    {
        if a[i] != b[i] {
            assert(a@[i as int] != b@[i as int]);
            return false;
        }
        i = i + 1;
        assert(a@.take(i as int) =~= b@.take(i as int));
    }
    assert(a@ =~= a@.take(a.len() as int));
    assert(b@ =~= b@.take(b.len() as int));
    true
}

} // verus!

verus! {

/// How many bytes UTF-8 spends on a character.
pub open spec fn utf8_len(c: char) -> nat {
    if (c as u32) < 0x80 {
        1
    } else if (c as u32) < 0x800 {
        2
    } else if (c as u32) < 0x10000 {
        3
    } else {
        4
    }
}

/// How many bytes UTF-8 spends on a run of characters.
pub open spec fn byte_len(s: Seq<char>) -> nat
    decreases s.len(),
{
    if s.len() == 0 {
        0
    } else {
        byte_len(s.drop_last()) + utf8_len(s.last())
    }
}

/// The text with its trailing whitespace dropped, as `str::trim_end` does.
pub open spec fn trim_end(s: Seq<char>) -> Seq<char>
    decreases s.len(),
{
    if s.len() > 0 && whitespace(s.last()) {
        trim_end(s.drop_last())
    } else {
        s
    }
}

/// The text with its leading whitespace dropped, as `str::trim_start` does.
pub open spec fn trim_start(s: Seq<char>) -> Seq<char>
    decreases s.len(),
{
    if s.len() > 0 && whitespace(s[0]) {
        trim_start(s.drop_first())
    } else {
        s
    }
}

/// Every character is whitespace: the text trims to nothing.
pub open spec fn blank(s: Seq<char>) -> bool {
    forall|i: int| 0 <= i < s.len() ==> whitespace(#[trigger] s[i])
}

/// The whitespace a line starts with.
pub open spec fn leading_space(s: Seq<char>) -> Seq<char> {
    s.take(leading_count(s, 0))
}

/// The index of the first character at or after `i` that is not whitespace.
pub open spec fn leading_count(s: Seq<char>, i: int) -> int
    decreases s.len() - i,
{
    if 0 <= i < s.len() && whitespace(s[i]) {
        leading_count(s, i + 1)
    } else {
        i
    }
}

pub proof fn lemma_leading_count(s: Seq<char>, i: int)
    requires
        0 <= i <= s.len(),
    ensures
        i <= leading_count(s, i) <= s.len(),
        forall|j: int| i <= j < leading_count(s, i) ==> whitespace(#[trigger] s[j]),
        leading_count(s, i) < s.len() ==> !whitespace(s[leading_count(s, i)]),
    decreases s.len() - i,
{
    if i < s.len() && whitespace(s[i]) {
        lemma_leading_count(s, i + 1);
    }
}

/// The index of the first character at or after `i` that is not whitespace.
pub fn leading_end(s: &Vec<char>, from: usize) -> (r: usize)
    requires
        from <= s.len(),
    ensures
        r == leading_count(s@, from as int),
        from <= r <= s.len(),
{
    let mut i = from;
    while i < s.len() && is_whitespace(s[i])
        invariant
            from <= i <= s.len(),
            leading_count(s@, from as int) == leading_count(s@, i as int),
        decreases s.len() - i,
    {
        i = i + 1;
    }
    i
}

/// The text with its trailing whitespace dropped.
pub fn trimmed_end(s: &Vec<char>) -> (r: Vec<char>)
    ensures
        r@ == trim_end(s@),
{
    let mut n = s.len();
    assert(s@.take(s.len() as int) == s@);
    while n > 0 && is_whitespace(s[n - 1])
        invariant
            n <= s.len(),
            trim_end(s@) == trim_end(s@.take(n as int)),
        decreases n,
    {
        assert(s@.take(n as int).drop_last() == s@.take(n - 1));
        n = n - 1;
    }
    assert(s@.take(s.len() as int) == s@);
    slice_of(s, 0, n)
}

/// Whether every character is whitespace.
pub fn is_blank(s: &Vec<char>) -> (r: bool)
    ensures
        r == blank(s@),
{
    let mut i: usize = 0;
    while i < s.len()
        invariant
            i <= s.len(),
            forall|j: int| 0 <= j < i ==> whitespace(#[trigger] s@[j]),
        decreases s.len() - i,
    {
        if !is_whitespace(s[i]) {
            return false;
        }
        i = i + 1;
    }
    true
}

/// The bytes UTF-8 spends on a character.
pub fn char_bytes(c: char) -> (n: usize)
    ensures
        n == utf8_len(c),
{
    if (c as u32) < 0x80 {
        1
    } else if (c as u32) < 0x800 {
        2
    } else if (c as u32) < 0x10000 {
        3
    } else {
        4
    }
}

/// A prefix of a text spends no more bytes than the text.
pub proof fn lemma_byte_len_take(s: Seq<char>, i: int)
    requires
        0 <= i <= s.len(),
    ensures
        byte_len(s.take(i)) <= byte_len(s),
    decreases s.len(),
{
    if i < s.len() {
        assert(s.drop_last().take(i) == s.take(i));
        lemma_byte_len_take(s.drop_last(), i);
    } else {
        assert(s.take(i) == s);
    }
}

/// `str::len`: the bytes a string spends. A string is one allocation, and
/// Rust never allocates more than `isize::MAX` bytes, so neither is a
/// string's length.
#[verifier::external_body]
pub(crate) fn byte_length(s: &str) -> (n: usize)
    ensures
        n == byte_len(s@),
        n <= isize::MAX,
{
    s.len()
}

/// A character spends at least one byte.
pub proof fn lemma_chars_within_bytes(s: Seq<char>)
    ensures
        s.len() <= byte_len(s),
    decreases s.len(),
{
    if s.len() > 0 {
        lemma_chars_within_bytes(s.drop_last());
    }
}

/// A string holds no more characters than `isize::MAX`.
pub(crate) fn bounded(s: &str)
    ensures
        s@.len() <= isize::MAX,
{
    let _ = byte_length(s);
    proof {
        lemma_chars_within_bytes(s@);
    }
}

/// A text has one more line than it has breaks, so no more lines than
/// characters and one.
pub proof fn lemma_split_count(t: Seq<char>)
    ensures
        split_lines(t).len() <= t.len() + 1,
    decreases t.len(),
{
    if t.len() > 0 {
        lemma_split_count(t.drop_last());
        lemma_split_len(t.drop_last());
    }
}

} // verus!
