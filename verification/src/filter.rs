//! Narrowing the tree. Fuzzy: the typed characters must appear in order, not
//! adjacently. Ranking prefers matches whose characters sit close together and
//! near the start of the name.

use crate::text::{byte_len, byte_length, chars_of, same_chars, string_of};
use vstd::prelude::*;

verus! {

broadcast use vstd::string::group_string_axioms;

/// What `str::to_lowercase` makes of a text.
pub uninterp spec fn lowered(s: Seq<char>) -> Seq<char>;

/// A character's lowercase where it is an ASCII capital, else itself.
pub open spec fn ascii_lower(c: char) -> char {
    if 'A' <= c && c <= 'Z' { ((c as u32) + 32) as char } else { c }
}

/// `str::to_lowercase`: the lowercase equivalent of a text, a function of the
/// text; on ASCII text, each capital made its small letter and every other
/// character kept.
#[verifier::external_body]
fn lowercase(s: &str) -> (r: String)
    ensures
        r@ == lowered(s@),
        (forall|i: int| 0 <= i < s@.len() ==> (s@[i] as u32) < 128) ==> r@ == s@.map_values(|c: char| ascii_lower(c)),
{
    s.to_lowercase()
}

/// The first index at or after `at` where `hay` holds `c`.
pub open spec fn find_from(hay: Seq<char>, c: char, at: int) -> Option<int>
    decreases hay.len() - at,
{
    if at < 0 || at >= hay.len() {
        None
    } else if hay[at] == c {
        Some(at)
    } else {
        find_from(hay, c, at + 1)
    }
}

/// What one found character is worth: adjacent to the one before, eight;
/// scattered, the gap taken off, up to four; the first, nothing.
pub open spec fn step_points(previous: Option<int>, found: int) -> int {
    match previous {
        Some(last) => if found == last + 1 { 8 } else if found - last <= 4 { -(found - last) } else { -4 },
        None => 0,
    }
}

/// The points for the needle's characters from the `k`th on, found in order
/// in `hay` from `at`, or nothing where one of them is not there.
pub open spec fn score_from(needle: Seq<char>, hay: Seq<char>, k: int, at: int, previous: Option<int>, points: int) -> Option<int>
    decreases needle.len() - k,
{
    if k < 0 || k >= needle.len() {
        Some(points)
    } else {
        match find_from(hay, needle[k], at) {
            None => None,
            Some(found) => score_from(needle, hay, k + 1, found + 1, Some(found), points + step_points(previous, found)),
        }
    }
}

/// How well a lowercased needle matches a lowercased haystack whose own text
/// is `bytes` long: the points for finding the needle in order, less an
/// eighth of the haystack's length, so a shorter name ranks higher.
pub open spec fn scored(needle: Seq<char>, hay: Seq<char>, bytes: int) -> Option<int> {
    match score_from(needle, hay, 0, 0, None, 0) {
        Some(p) => Some(p - bytes / 8),
        None => None,
    }
}

/// How well `needle` matches `haystack` once both are lowercased; nothing if
/// it does not. An empty needle matches anything with no points.
pub open spec fn score_spec(needle: Seq<char>, haystack: Seq<char>) -> Option<int> {
    if needle.len() == 0 {
        Some(0)
    } else {
        scored(lowered(needle), lowered(haystack), byte_len(haystack) as int)
    }
}

proof fn lemma_find_from(hay: Seq<char>, c: char, at: int)
    ensures
        match find_from(hay, c, at) {
            Some(i) => at <= i < hay.len() && hay[i] == c,
            None => true,
        },
    decreases hay.len() - at,
{
    if 0 <= at < hay.len() && hay[at] != c {
        lemma_find_from(hay, c, at + 1);
    }
}

fn find(hay: &Vec<char>, c: char, at: usize) -> (r: Option<usize>)
    ensures
        match r {
            Some(i) => find_from(hay@, c, at as int) == Some(i as int),
            None => find_from(hay@, c, at as int) is None,
        },
{
    let mut i = at;
    while i < hay.len()
        invariant
            at <= i,
            find_from(hay@, c, at as int) == find_from(hay@, c, i as int),
        decreases hay.len() - i,
    {
        if hay[i] == c {
            return Some(i);
        }
        i = i + 1;
    }
    None
}

/// How well a lowercased needle matches a lowercased haystack whose own text
/// is `bytes` long, higher being closer.
pub fn score_in(needle: &Vec<char>, hay: &Vec<char>, bytes: usize) -> (r: Option<i32>)
    requires
        needle@.len() <= 0xFFF_FFFC,
        bytes <= i32::MAX,
    ensures
        match r {
            Some(p) => scored(needle@, hay@, bytes as int) == Some(p as int) && p <= 0x7FFF_FFE0,
            None => scored(needle@, hay@, bytes as int) is None,
        },
{
    let mut points: i32 = 0;
    let mut at: usize = 0;
    let mut previous: Option<usize> = None;
    let mut k: usize = 0;
    while k < needle.len()
        invariant
            k <= needle@.len() <= 0xFFF_FFFC,
            -4 * k <= points <= 8 * k,
            score_from(needle@, hay@, 0, 0, None, 0) == score_from(
                needle@,
                hay@,
                k as int,
                at as int,
                match previous {
                    Some(l) => Some(l as int),
                    None => None,
                },
                points as int,
            ),
            match previous {
                Some(l) => l < at,
                None => true,
            },
        decreases needle.len() - k,
    {
        let wanted = needle[k];
        let found = match find(hay, wanted, at) {
            Some(f) => f,
            None => return None,
        };
        proof {
            lemma_find_from(hay@, wanted, at as int);
        }
        assert(found < hay.len());
        let gained: i32 = match previous {
            Some(last) => if found == last + 1 {
                8
            } else if found - last <= 4 {
                -((found - last) as i32)
            } else {
                -4
            },
            None => 0,
        };
        points = points + gained;
        previous = Some(found);
        at = found + 1;
        k = k + 1;
    }
    Some(points - (bytes as i32) / 8)
}

/// How well `needle` matches `haystack`, or `None` if it does not; higher is
/// closer. Matched without regard to case. Nothing, too, for a needle of more
/// than 2^28 - 4 characters or a haystack past `i32::MAX` bytes,
/// which the points are not counted for.
pub fn score(needle: &str, haystack: &str) -> (r: Option<i32>)
    ensures
        needle@.len() == 0 ==> r == Some(0i32),
        match r {
            Some(p) => score_spec(needle@, haystack@) == Some(p as int) && p <= 0x7FFF_FFE0,
            None => score_spec(needle@, haystack@) is None || lowered(needle@).len() > 0xFFF_FFFC || byte_len(haystack@) > i32::MAX,
        },
{
    let chars = chars_of(needle);
    if chars.len() == 0 {
        return Some(0);
    }
    let low_needle = chars_of(lowercase(needle).as_str());
    let low_hay = chars_of(lowercase(haystack).as_str());
    let bytes = byte_length(haystack);
    if low_needle.len() > 0xFFF_FFFC || bytes > i32::MAX as usize {
        return None;
    }
    score_in(&low_needle, &low_hay, bytes)
}

/// Where the last segment of a path starts: after its last `/`, or at its
/// start with none.
pub open spec fn segment_start(path: Seq<char>, i: int) -> int
    decreases i,
{
    if i <= 0 || i > path.len() {
        0
    } else if path[i - 1] == '/' {
        i
    } else {
        segment_start(path, i - 1)
    }
}

/// A path's file name: what follows its last `/`.
pub open spec fn file_name(path: Seq<char>) -> Seq<char> {
    path.skip(segment_start(path, path.len() as int))
}

pub open spec fn begins(s: Seq<char>, prefix: Seq<char>) -> bool {
    s.len() >= prefix.len() && s.take(prefix.len() as int) == prefix
}

/// The texts the points are counted for: a needle of at most 2^28 - 4
/// characters once lowercased, and a path no longer than `i32::MAX` bytes.
pub open spec fn counted(needle: Seq<char>, path: Seq<char>) -> bool {
    lowered(needle).len() <= 0xFFF_FFFC && byte_len(path) <= i32::MAX
}

/// How a path ranks against a needle: whether its file name matched, and its
/// points. The file name decides, with twelve points for matching it and
/// twelve more where it starts with the needle; a path whose name does not
/// match is still findable by its directory, with the whole path's points,
/// just never above a name match.
pub open spec fn rank_spec(needle: Seq<char>, path: Seq<char>) -> Option<(bool, int)> {
    let name = file_name(path);
    match score_spec(needle, name) {
        Some(points) => Some((true, points + 12 + if begins(lowered(name), lowered(needle)) { 12int } else { 0int })),
        None => match score_spec(needle, path) {
            Some(points) => Some((false, points)),
            None => None,
        },
    }
}

/// Whether one rank is above another: a name match above any match found
/// only through a directory, and between two of a kind, more points.
pub open spec fn above(a: (bool, int), b: (bool, int)) -> bool {
    (a.0 && !b.0) || (a.0 == b.0 && a.1 > b.1)
}

proof fn lemma_segment_start(path: Seq<char>, i: int)
    requires
        0 <= i <= path.len(),
    ensures
        0 <= segment_start(path, i) <= i,
    decreases i,
{
    if i > 0 && path[i - 1] != '/' {
        lemma_segment_start(path, i - 1);
    }
}

proof fn lemma_byte_len_skip(s: Seq<char>, i: int)
    requires
        0 <= i <= s.len(),
    ensures
        byte_len(s.skip(i)) <= byte_len(s),
    decreases s.len(),
{
    if i < s.len() {
        lemma_byte_len_skip(s.drop_last(), i);
        assert(s.skip(i).drop_last() == s.drop_last().skip(i));
        assert(s.skip(i).last() == s.last());
    } else {
        assert(s.skip(i).len() == 0);
    }
}

/// The points a path earns against a needle, or `None` where it does not
/// match: the file name decides. For the texts the points are counted for
/// (see [`counted`]) that is [`rank_spec`] exactly.
pub fn rank(needle: &str, path: &str) -> (r: Option<(bool, i32)>)
    ensures
        counted(needle@, path@) ==> match r {
            Some(p) => rank_spec(needle@, path@) == Some((p.0, p.1 as int)),
            None => rank_spec(needle@, path@) is None,
        },
{
    let chars = chars_of(path);
    let mut start = chars.len();
    while start > 0 && chars[start - 1] != '/'
        invariant
            start <= chars.len(),
            chars@ == path@,
            segment_start(path@, path@.len() as int) == segment_start(path@, start as int),
        decreases start,
    {
        start = start - 1;
    }
    let name_chars = crate::text::slice_of(&chars, start, chars.len());
    let name = string_of(name_chars.as_slice());
    proof {
        lemma_segment_start(path@, path@.len() as int);
        lemma_byte_len_skip(path@, segment_start(path@, path@.len() as int));
    }
    match score(needle, name.as_str()) {
        Some(points) => {
            let low_name = chars_of(lowercase(name.as_str()).as_str());
            let low_needle = chars_of(lowercase(needle).as_str());
            let start = crate::editor::starts_with(&low_name, &low_needle);
            Some((true, points + 12 + if start { 12 } else { 0 }))
        },
        None => match score(needle, path) {
            Some(points) => Some((false, points)),
            None => None,
        },
    }
}

/// Whether a text holds another as a run of its characters.
pub open spec fn holds_text(hay: Seq<char>, word: Seq<char>) -> bool {
    exists|i: int| 0 <= i <= hay.len() - word.len() && #[trigger] hay.subrange(i, i + word.len()) == word
}

/// Texts in code-point order, which is the byte order `String` compares by.
pub open spec fn text_less(a: Seq<char>, b: Seq<char>) -> bool
    decreases a.len(),
{
    if b.len() == 0 {
        false
    } else if a.len() == 0 {
        true
    } else if a[0] != b[0] {
        (a[0] as u32) < (b[0] as u32)
    } else {
        text_less(a.drop_first(), b.drop_first())
    }
}

/// Whether one ranked path goes before another: the higher rank first, and
/// of two ranked alike, the one first in order.
pub open spec fn ahead(a: ((bool, int), Seq<char>), b: ((bool, int), Seq<char>)) -> bool {
    above(a.0, b.0) || (a.0 == b.0 && text_less(a.1, b.1))
}

/// `x` put in before the first ranked path it goes ahead of — after any it
/// ties with, so ties keep the order the paths came in.
pub open spec fn place_ranked(sorted: Seq<((bool, int), Seq<char>)>, x: ((bool, int), Seq<char>)) -> Seq<((bool, int), Seq<char>)>
    decreases sorted.len(),
{
    if sorted.len() == 0 {
        seq![x]
    } else if ahead(x, sorted[0]) {
        seq![x] + sorted
    } else {
        seq![sorted[0]] + place_ranked(sorted.drop_first(), x)
    }
}

/// Ranked paths, closest first.
pub open spec fn in_rank_order(items: Seq<((bool, int), Seq<char>)>) -> Seq<((bool, int), Seq<char>)>
    decreases items.len(),
{
    if items.len() == 0 {
        Seq::empty()
    } else {
        place_ranked(in_rank_order(items.drop_last()), items.last())
    }
}

/// Every path that matches at all, in the order indexed, whether it holds
/// the needle literally, and its points.
pub open spec fn candidates(needle: Seq<char>, indexed: Seq<Seq<char>>) -> Seq<(bool, (bool, int), Seq<char>)>
    decreases indexed.len(),
{
    if indexed.len() == 0 {
        Seq::empty()
    } else {
        let rest = candidates(needle, indexed.drop_last());
        let path = indexed.last();
        match rank_spec(needle, path) {
            Some(points) => rest.push((holds_text(lowered(path), lowered(needle)), points, path)),
            None => rest,
        }
    }
}

/// The literal matches only, where there are any.
pub open spec fn literal_only(all: Seq<(bool, (bool, int), Seq<char>)>) -> Seq<((bool, int), Seq<char>)>
    decreases all.len(),
{
    if all.len() == 0 {
        Seq::empty()
    } else {
        let rest = literal_only(all.drop_last());
        if all.last().0 { rest.push((all.last().1, all.last().2)) } else { rest }
    }
}

pub open spec fn any_literal(all: Seq<(bool, (bool, int), Seq<char>)>) -> bool {
    exists|i: int| 0 <= i < all.len() && (#[trigger] all[i]).0
}

/// Matching files, closest first. A literal match and a scattered one are
/// different kinds of answer, so anything holding what was typed hides
/// everything that merely spells its letters in order; fuzzy stands alone
/// only when nothing is literal. Ties keep the index's order.
pub open spec fn matches_spec(needle: Seq<char>, indexed: Seq<Seq<char>>) -> Seq<Seq<char>> {
    if needle.len() == 0 {
        Seq::empty()
    } else {
        let all = candidates(needle, indexed);
        let kept = if any_literal(all) { literal_only(all) } else { all.map_values(|c: (bool, (bool, int), Seq<char>)| (c.1, c.2)) };
        in_rank_order(kept).map_values(|x: ((bool, int), Seq<char>)| x.1)
    }
}

/// The needle and every indexed path are texts the points are counted for.
pub open spec fn all_counted(needle: Seq<char>, indexed: Seq<Seq<char>>) -> bool {
    forall|i: int| 0 <= i < indexed.len() ==> counted(needle, #[trigger] indexed[i])
}

fn contains(hay: &Vec<char>, word: &Vec<char>) -> (r: bool)
    ensures
        r == holds_text(hay@, word@),
{
    if word.len() > hay.len() {
        return false;
    }
    let last = hay.len() - word.len();
    let mut i: usize = 0;
    while i <= last
        invariant
            last == hay.len() - word.len(),
            i <= last + 1,
            forall|j: int| 0 <= j < i ==> #[trigger] hay@.subrange(j, j + word@.len()) != word@,
        decreases last + 1 - i,
    {
        let piece = crate::text::slice_of(hay, i, i + word.len());
        if same_chars(&piece, word) {
            return true;
        }
        if i == last {
            assert(forall|j: int| 0 <= j <= i ==> #[trigger] hay@.subrange(j, j + word@.len()) != word@);
            return false;
        }
        i = i + 1;
    }
    false
}

pub(crate) fn less(a: &Vec<char>, b: &Vec<char>) -> (r: bool)
    ensures
        r == text_less(a@, b@),
{
    let mut i: usize = 0;
    assert(a@.skip(0) == a@ && b@.skip(0) == b@);
    while i < a.len() && i < b.len() && a[i] == b[i]
        invariant
            i <= a.len() && i <= b.len(),
            text_less(a@, b@) == text_less(a@.skip(i as int), b@.skip(i as int)),
        decreases a.len() - i,
    {
        assert(a@.skip(i as int).drop_first() == a@.skip(i + 1));
        assert(b@.skip(i as int).drop_first() == b@.skip(i + 1));
        i = i + 1;
    }
    if i == b.len() {
        return false;
    }
    if i == a.len() {
        return true;
    }
    assert(a@.skip(i as int)[0] == a@[i as int]);
    assert(b@.skip(i as int)[0] == b@[i as int]);
    (a[i] as u32) < (b[i] as u32)
}

struct Ranked {
    by_name: bool,
    points: i32,
    path: Vec<char>,
}

impl View for Ranked {
    type V = ((bool, int), Seq<char>);

    closed spec fn view(&self) -> ((bool, int), Seq<char>) {
        ((self.by_name, self.points as int), self.path@)
    }
}

fn higher(a_name: bool, a_points: i32, b_name: bool, b_points: i32) -> (r: bool)
    ensures
        r == above((a_name, a_points as int), (b_name, b_points as int)),
{
    (a_name && !b_name) || (a_name == b_name && a_points > b_points)
}

fn place_rank(sorted: &mut Vec<Ranked>, x: Ranked)
    ensures
        final(sorted)@.map_values(|r: Ranked| r@) == place_ranked(old(sorted)@.map_values(|r: Ranked| r@), x@),
{
    let ghost view = sorted@.map_values(|r: Ranked| r@);
    let mut p: usize = 0;
    while p < sorted.len() && !(higher(x.by_name, x.points, sorted[p].by_name, sorted[p].points) || (x.by_name == sorted[p].by_name
        && x.points == sorted[p].points && less(&x.path, &sorted[p].path)))
        invariant
            p <= sorted.len(),
            view == sorted@.map_values(|r: Ranked| r@),
            forall|j: int| 0 <= j < p ==> !ahead(x@, #[trigger] view[j]),
        decreases sorted.len() - p,
    {
        p = p + 1;
    }
    proof {
        lemma_place_ranked(view, x@, p as int);
    }
    let ghost xv = x@;
    sorted.insert(p, x);
    assert(sorted@.map_values(|r: Ranked| r@) =~= view.take(p as int) + seq![xv] + view.skip(p as int));
}

proof fn lemma_place_ranked(sorted: Seq<((bool, int), Seq<char>)>, x: ((bool, int), Seq<char>), p: int)
    requires
        0 <= p <= sorted.len(),
        forall|j: int| 0 <= j < p ==> !ahead(x, #[trigger] sorted[j]),
        p < sorted.len() ==> ahead(x, sorted[p]),
    ensures
        place_ranked(sorted, x) == sorted.take(p) + seq![x] + sorted.skip(p),
    decreases sorted.len(),
{
    if sorted.len() == 0 {
        assert(sorted.take(p) + seq![x] + sorted.skip(p) =~= seq![x]);
    } else if p == 0 {
        assert(sorted.take(p) + seq![x] + sorted.skip(p) =~= seq![x] + sorted);
    } else {
        assert(!ahead(x, sorted[0]));
        assert forall|j: int| 0 <= j < p - 1 implies !ahead(x, #[trigger] sorted.drop_first()[j]) by {
            assert(sorted.drop_first()[j] == sorted[j + 1]);
        }
        lemma_place_ranked(sorted.drop_first(), x, p - 1);
        assert(sorted.take(p) + seq![x] + sorted.skip(p) =~= seq![sorted[0]] + (sorted.drop_first().take(p - 1) + seq![x] + sorted.drop_first().skip(p - 1)));
    }
}

/// Matching files, closest first: see [`matches_spec`], which this is for the
/// texts the points are counted for.
pub fn matches(needle: &str, indexed: &[String]) -> (found: Vec<String>)
    ensures
        all_counted(needle@, indexed@.map_values(|p: String| p@)) ==> found@.map_values(|p: String| p@) == matches_spec(
            needle@,
            indexed@.map_values(|p: String| p@),
        ),
        needle@.len() == 0 ==> found@.len() == 0,
{
    let ghost paths = indexed@.map_values(|p: String| p@);
    let chars = chars_of(needle);
    if chars.len() == 0 {
        return Vec::new();
    }
    let typed = chars_of(lowercase(needle).as_str());
    // Every path that matches, whether it holds the needle literally, and
    // its points.
    let mut literal: Vec<Ranked> = Vec::new();
    let mut fuzzy: Vec<Ranked> = Vec::new();
    let mut any = false;
    let mut i: usize = 0;
    while i < indexed.len()
        invariant
            i <= indexed.len(),
            paths == indexed@.map_values(|p: String| p@),
            typed@ == lowered(needle@),
            needle@.len() > 0,
            all_counted(needle@, paths) ==> {
                &&& literal@.map_values(|r: Ranked| r@) == in_rank_order(literal_only(candidates(needle@, paths.take(i as int))))
                &&& fuzzy@.map_values(|r: Ranked| r@) == in_rank_order(candidates(needle@, paths.take(i as int)).map_values(|c: (bool, (bool, int), Seq<char>)| (c.1, c.2)))
                &&& any == any_literal(candidates(needle@, paths.take(i as int)))
            },
        decreases indexed.len() - i,
    {
        let path = &indexed[i];
        let points = rank(needle, path.as_str());
        let ghost before = paths.take(i as int);
        assert(paths.take(i + 1).drop_last() == before);
        assert(paths.take(i + 1).last() == path@);
        if let Some(p) = points {
            let low = chars_of(lowercase(path.as_str()).as_str());
            let is_literal = contains(&low, &typed);
            let ghost all = candidates(needle@, before);
            let ghost item = (is_literal, (p.0, p.1 as int), path@);
            let ghost lit_before = literal@.map_values(|r: Ranked| r@);
            let ghost fuzzy_before = fuzzy@.map_values(|r: Ranked| r@);
            let ghost pair = ((p.0, p.1 as int), path@);
            if is_literal {
                let entry = Ranked { by_name: p.0, points: p.1, path: chars_of(path.as_str()) };
                assert(entry@ == pair);
                place_rank(&mut literal, entry);
                any = true;
            }
            let entry = Ranked { by_name: p.0, points: p.1, path: chars_of(path.as_str()) };
            assert(entry@ == pair);
            place_rank(&mut fuzzy, entry);
            proof {
                if all_counted(needle@, paths) {
                    assert(counted(needle@, paths[i as int]));
                    assert(candidates(needle@, paths.take(i + 1)) == all.push(item));
                    assert(all.push(item).drop_last() == all);
                    assert(all.push(item).last() == item);
                    assert(literal_only(all.push(item)) == if is_literal { literal_only(all).push(pair) } else { literal_only(all) });
                    if is_literal {
                        assert(literal_only(all).push(pair).drop_last() == literal_only(all));
                        assert(in_rank_order(literal_only(all).push(pair)) == place_ranked(in_rank_order(literal_only(all)), pair));
                    }
                    let mapped = all.map_values(|c: (bool, (bool, int), Seq<char>)| (c.1, c.2));
                    assert(all.push(item).map_values(|c: (bool, (bool, int), Seq<char>)| (c.1, c.2)) =~= mapped.push(pair));
                    assert(mapped.push(pair).drop_last() == mapped);
                    assert(in_rank_order(mapped.push(pair)) == place_ranked(in_rank_order(mapped), pair));
                    assert(all.push(item).drop_last() == all);
                    assert(all.push(item).map_values(|c: (bool, (bool, int), Seq<char>)| (c.1, c.2)).drop_last()
                        == all.map_values(|c: (bool, (bool, int), Seq<char>)| (c.1, c.2)));
                    if any_literal(all.push(item)) && !is_literal {
                        let k = choose|k: int| 0 <= k < all.push(item).len() && (#[trigger] all.push(item)[k]).0;
                        assert(all[k].0);
                    }
                    if is_literal {
                        assert(all.push(item)[all.len() as int].0);
                    }
                    if any_literal(all) {
                        let k = choose|k: int| 0 <= k < all.len() && (#[trigger] all[k]).0;
                        assert(all.push(item)[k].0);
                    }
                }
            }
        } else {
            proof {
                if all_counted(needle@, paths) {
                    assert(counted(needle@, paths[i as int]));
                }
            }
        }
        i = i + 1;
    }
    assert(paths.take(indexed.len() as int) == paths);
    let chosen = if any { literal } else { fuzzy };
    let mut found: Vec<String> = Vec::new();
    let mut k: usize = 0;
    while k < chosen.len()
        invariant
            k <= chosen.len(),
            found@.map_values(|p: String| p@) == chosen@.map_values(|r: Ranked| r@).take(k as int).map_values(|x: ((bool, int), Seq<char>)| x.1),
        decreases chosen.len() - k,
    {
        let ghost before = found@.map_values(|p: String| p@);
        found.push(string_of(chosen[k].path.as_slice()));
        assert(chosen@[k as int]@.1 == chosen@[k as int].path@);
        assert(found@.map_values(|p: String| p@) =~= before.push(chosen@[k as int].path@));
        assert(chosen@.map_values(|r: Ranked| r@).take(k + 1).map_values(|x: ((bool, int), Seq<char>)| x.1)
            =~= chosen@.map_values(|r: Ranked| r@).take(k as int).map_values(|x: ((bool, int), Seq<char>)| x.1).push(chosen@[k as int]@.1));
        k = k + 1;
    }
    assert(chosen@.map_values(|r: Ranked| r@).take(chosen.len() as int) == chosen@.map_values(|r: Ranked| r@));
    found
}

/// The closest match, if anything matches.
pub fn best(needle: &str, indexed: &[String]) -> (r: Option<String>)
    ensures
        all_counted(needle@, indexed@.map_values(|p: String| p@)) ==> match r {
            Some(p) => matches_spec(needle@, indexed@.map_values(|p: String| p@)).len() > 0
                && p@ == matches_spec(needle@, indexed@.map_values(|p: String| p@))[0],
            None => matches_spec(needle@, indexed@.map_values(|p: String| p@)).len() == 0,
        },
{
    let mut found = matches(needle, indexed);
    if found.len() == 0 {
        return None;
    }
    let ghost view = found@.map_values(|p: String| p@);
    let first = found.remove(0);
    assert(first@ == view[0]);
    Some(first)
}

/// What the tree is showing: everything, some matches, or nothing at all.
pub fn view_state(needle: &str, indexed: &[String]) -> (r: &'static str)
    ensures
        needle@.len() == 0 ==> r@ == "unfiltered"@,
        all_counted(needle@, indexed@.map_values(|p: String| p@)) && needle@.len() > 0 ==> r@ == (if matches_spec(
            needle@,
            indexed@.map_values(|p: String| p@),
        ).len() == 0 {
            "no-matches"@
        } else {
            "matches"@
        }),
{
    if chars_of(needle).len() == 0 {
        "unfiltered"
    } else if matches(needle, indexed).len() == 0 {
        "no-matches"
    } else {
        "matches"
    }
}

proof fn lemma_text_less_asymmetric(a: Seq<char>, b: Seq<char>)
    ensures
        text_less(a, b) ==> !text_less(b, a),
    decreases a.len(),
{
    if a.len() > 0 && b.len() > 0 && a[0] == b[0] {
        lemma_text_less_asymmetric(a.drop_first(), b.drop_first());
    }
}

proof fn lemma_text_less_transitive(a: Seq<char>, b: Seq<char>, c: Seq<char>)
    ensures
        text_less(a, b) && text_less(b, c) ==> text_less(a, c),
    decreases a.len(),
{
    if a.len() > 0 && b.len() > 0 && c.len() > 0 && a[0] == b[0] && b[0] == c[0] {
        lemma_text_less_transitive(a.drop_first(), b.drop_first(), c.drop_first());
    }
}

proof fn lemma_ahead_order(a: ((bool, int), Seq<char>), b: ((bool, int), Seq<char>), c: ((bool, int), Seq<char>))
    ensures
        ahead(a, b) ==> !ahead(b, a),
        ahead(a, b) && ahead(b, c) ==> ahead(a, c),
{
    lemma_text_less_asymmetric(a.1, b.1);
    lemma_text_less_transitive(a.1, b.1, c.1);
}

/// Closest first: no path comes after one it goes ahead of.
pub open spec fn closest_first(s: Seq<((bool, int), Seq<char>)>) -> bool {
    forall|i: int, j: int| 0 <= i < j < s.len() ==> !ahead(#[trigger] s[j], #[trigger] s[i])
}

proof fn lemma_place_ranked_elements(sorted: Seq<((bool, int), Seq<char>)>, x: ((bool, int), Seq<char>))
    ensures
        place_ranked(sorted, x).len() == sorted.len() + 1,
        forall|k: int| 0 <= k < place_ranked(sorted, x).len() ==> #[trigger] place_ranked(sorted, x)[k] == x
            || sorted.contains(place_ranked(sorted, x)[k]),
    decreases sorted.len(),
{
    if sorted.len() > 0 && !ahead(x, sorted[0]) {
        lemma_place_ranked_elements(sorted.drop_first(), x);
        let rest = place_ranked(sorted.drop_first(), x);
        assert forall|k: int| 0 <= k < place_ranked(sorted, x).len() implies #[trigger] place_ranked(sorted, x)[k] == x
            || sorted.contains(place_ranked(sorted, x)[k]) by {
            if k == 0 {
                assert(sorted[0] == sorted[0]);
                assert(sorted.contains(sorted[0]));
            } else {
                assert(place_ranked(sorted, x)[k] == rest[k - 1]);
                if rest[k - 1] != x {
                    let i = choose|i: int| 0 <= i < sorted.drop_first().len() && sorted.drop_first()[i] == rest[k - 1];
                    assert(sorted[i + 1] == rest[k - 1]);
                }
            }
        }
    } else if sorted.len() > 0 {
        assert forall|k: int| 0 <= k < place_ranked(sorted, x).len() implies #[trigger] place_ranked(sorted, x)[k] == x
            || sorted.contains(place_ranked(sorted, x)[k]) by {
            if k > 0 {
                assert(place_ranked(sorted, x)[k] == sorted[k - 1]);
            }
        }
    }
}

proof fn lemma_place_ranked_sorted(sorted: Seq<((bool, int), Seq<char>)>, x: ((bool, int), Seq<char>))
    requires
        closest_first(sorted),
    ensures
        closest_first(place_ranked(sorted, x)),
    decreases sorted.len(),
{
    let r = place_ranked(sorted, x);
    if sorted.len() == 0 {
    } else if ahead(x, sorted[0]) {
        assert forall|i: int, j: int| 0 <= i < j < r.len() implies !ahead(#[trigger] r[j], #[trigger] r[i]) by {
            if i == 0 {
                lemma_ahead_order(x, sorted[0], sorted[0]);
                if j > 1 {
                    lemma_ahead_order(r[j], x, sorted[0]);
                    assert(!ahead(sorted[j - 1], sorted[0]));
                }
            } else {
                assert(r[i] == sorted[i - 1] && r[j] == sorted[j - 1]);
            }
        }
    } else {
        let rest = sorted.drop_first();
        assert(closest_first(rest)) by {
            assert forall|i: int, j: int| 0 <= i < j < rest.len() implies !ahead(#[trigger] rest[j], #[trigger] rest[i]) by {
                assert(rest[i] == sorted[i + 1] && rest[j] == sorted[j + 1]);
            }
        }
        lemma_place_ranked_sorted(rest, x);
        lemma_place_ranked_elements(rest, x);
        let inner = place_ranked(rest, x);
        assert forall|i: int, j: int| 0 <= i < j < r.len() implies !ahead(#[trigger] r[j], #[trigger] r[i]) by {
            if i == 0 {
                assert(r[j] == inner[j - 1]);
                if inner[j - 1] != x {
                    let k = choose|k: int| 0 <= k < rest.len() && rest[k] == inner[j - 1];
                    assert(sorted[k + 1] == inner[j - 1]);
                }
            } else {
                assert(r[i] == inner[i - 1] && r[j] == inner[j - 1]);
            }
        }
    }
}

proof fn lemma_in_rank_order(items: Seq<((bool, int), Seq<char>)>)
    ensures
        closest_first(in_rank_order(items)),
        in_rank_order(items).len() == items.len(),
        forall|k: int| 0 <= k < in_rank_order(items).len() ==> items.contains(#[trigger] in_rank_order(items)[k]),
    decreases items.len(),
{
    if items.len() > 0 {
        lemma_in_rank_order(items.drop_last());
        lemma_place_ranked_sorted(in_rank_order(items.drop_last()), items.last());
        lemma_place_ranked_elements(in_rank_order(items.drop_last()), items.last());
        let before = in_rank_order(items.drop_last());
        assert forall|k: int| 0 <= k < in_rank_order(items).len() implies items.contains(#[trigger] in_rank_order(items)[k]) by {
            let e = in_rank_order(items)[k];
            if e == items.last() {
                assert(items[items.len() - 1] == e);
            } else {
                let b = choose|b: int| 0 <= b < before.len() && before[b] == e;
                assert(items.drop_last().contains(e));
                let i = choose|i: int| 0 <= i < items.drop_last().len() && items.drop_last()[i] == e;
                assert(items[i] == e);
            }
        }
    }
}

/// Whether a ranked path is one of the literal matches among `all`.
pub open spec fn from_literal(all: Seq<(bool, (bool, int), Seq<char>)>, y: ((bool, int), Seq<char>)) -> bool {
    exists|i: int| 0 <= i < all.len() && (#[trigger] all[i]).0 && (all[i].1, all[i].2) == y
}

proof fn lemma_literal_only(all: Seq<(bool, (bool, int), Seq<char>)>)
    ensures
        forall|k: int| 0 <= k < literal_only(all).len() ==> from_literal(all, #[trigger] literal_only(all)[k]),
    decreases all.len(),
{
    if all.len() > 0 {
        lemma_literal_only(all.drop_last());
        let rest = literal_only(all.drop_last());
        assert forall|k: int| 0 <= k < literal_only(all).len() implies from_literal(all, #[trigger] literal_only(all)[k]) by {
            if k < rest.len() {
                assert(literal_only(all)[k] == rest[k]);
                assert(from_literal(all.drop_last(), rest[k]));
                let i = choose|i: int| 0 <= i < all.drop_last().len() && (#[trigger] all.drop_last()[i]).0
                    && (all.drop_last()[i].1, all.drop_last()[i].2) == rest[k];
                assert(all[i] == all.drop_last()[i]);
            } else {
                assert(all[all.len() - 1] == all.last());
            }
        }
    }
}

proof fn lemma_candidates_literal(needle: Seq<char>, indexed: Seq<Seq<char>>)
    ensures
        forall|i: int| 0 <= i < candidates(needle, indexed).len() && (#[trigger] candidates(needle, indexed)[i]).0
            ==> holds_text(lowered(candidates(needle, indexed)[i].2), lowered(needle)),
    decreases indexed.len(),
{
    if indexed.len() > 0 {
        lemma_candidates_literal(needle, indexed.drop_last());
        let rest = candidates(needle, indexed.drop_last());
        assert forall|i: int| 0 <= i < candidates(needle, indexed).len() && (#[trigger] candidates(needle, indexed)[i]).0
            implies holds_text(lowered(candidates(needle, indexed)[i].2), lowered(needle)) by {
            if i < rest.len() {
                assert(candidates(needle, indexed)[i] == rest[i]);
            }
        }
    }
}

/// A literal match and a scattered one are different kinds of answer: where
/// any path holds what was typed, every path matched holds it.
pub proof fn law_a_literal_match_hides_every_scattered_one(needle: Seq<char>, indexed: Seq<Seq<char>>)
    requires
        needle.len() > 0,
        any_literal(candidates(needle, indexed)),
    ensures
        forall|k: int| 0 <= k < matches_spec(needle, indexed).len() ==> holds_text(
            lowered(#[trigger] matches_spec(needle, indexed)[k]),
            lowered(needle),
        ),
{
    let all = candidates(needle, indexed);
    let kept = literal_only(all);
    lemma_in_rank_order(kept);
    lemma_literal_only(all);
    lemma_candidates_literal(needle, indexed);
    let ordered = in_rank_order(kept);
    assert forall|k: int| 0 <= k < matches_spec(needle, indexed).len() implies holds_text(
        lowered(#[trigger] matches_spec(needle, indexed)[k]),
        lowered(needle),
    ) by {
        assert(matches_spec(needle, indexed)[k] == ordered[k].1);
        assert(kept.contains(ordered[k]));
        let j = choose|j: int| 0 <= j < kept.len() && kept[j] == ordered[k];
        assert(from_literal(all, kept[j]));
        let i = choose|i: int| 0 <= i < all.len() && (#[trigger] all[i]).0 && (all[i].1, all[i].2) == kept[j];
        assert(all[i].0);
    }
}

/// Matches come closest first: the ranked paths behind them are in order,
/// name matches before directory matches, more points first and, of two
/// ranked alike, the first in code-point order.
pub proof fn law_matches_come_closest_first(needle: Seq<char>, indexed: Seq<Seq<char>>)
    ensures
        needle.len() > 0 ==> {
            let all = candidates(needle, indexed);
            let kept = if any_literal(all) { literal_only(all) } else { all.map_values(|c: (bool, (bool, int), Seq<char>)| (c.1, c.2)) };
            &&& closest_first(in_rank_order(kept))
            &&& matches_spec(needle, indexed) == in_rank_order(kept).map_values(|x: ((bool, int), Seq<char>)| x.1)
        },
{
    if needle.len() > 0 {
        let all = candidates(needle, indexed);
        let kept = if any_literal(all) { literal_only(all) } else { all.map_values(|c: (bool, (bool, int), Seq<char>)| (c.1, c.2)) };
        lemma_in_rank_order(kept);
    }
}

/// The file name decides: a path found only through its directory never ranks
/// above a path whose file name matches, whatever the points of either.
pub proof fn law_a_directory_match_never_ranks_above_a_name_match(needle: Seq<char>, named: Seq<char>, other: Seq<char>)
    requires
        score_spec(needle, file_name(named)) is Some,
        score_spec(needle, file_name(other)) is None,
        score_spec(needle, other) is Some,
    ensures
        rank_spec(needle, named) matches Some(a) && a.0,
        rank_spec(needle, other) matches Some(b) && !b.0,
        above(rank_spec(needle, named).unwrap(), rank_spec(needle, other).unwrap()),
        forall|x: Seq<char>, y: Seq<char>| !ahead((rank_spec(needle, other).unwrap(), x), (rank_spec(needle, named).unwrap(), y)),
{
}


/// Positions, in increasing order, in `hay` from `at` on, holding the
/// needle's characters from the `k`th on.
pub open spec fn picks(ix: Seq<int>, needle: Seq<char>, hay: Seq<char>, k: int, at: int) -> bool {
    &&& ix.len() == needle.len() - k
    &&& forall|j: int| 0 <= j < ix.len() ==> at <= #[trigger] ix[j] < hay.len() && hay[ix[j]] == needle[k + j]
    &&& forall|a: int, b: int| 0 <= a < b < ix.len() ==> #[trigger] ix[a] < #[trigger] ix[b]
}

/// Whether the needle's characters from the `k`th on occur in order in `hay`
/// from `at` on, not necessarily side by side.
pub open spec fn placed(needle: Seq<char>, hay: Seq<char>, k: int, at: int) -> bool {
    exists|ix: Seq<int>| #[trigger] picks(ix, needle, hay, k, at)
}

/// Whether every character of `needle` occurs in `hay`, in order.
pub open spec fn in_order(needle: Seq<char>, hay: Seq<char>) -> bool {
    placed(needle, hay, 0, 0)
}

proof fn lemma_find_first(hay: Seq<char>, c: char, at: int)
    requires
        at >= 0,
    ensures
        match find_from(hay, c, at) {
            Some(f) => at <= f < hay.len() && hay[f] == c && forall|i: int| at <= i < f ==> hay[i] != c,
            None => forall|i: int| at <= i < hay.len() ==> hay[i] != c,
        },
    decreases hay.len() - at,
{
    if at < hay.len() && hay[at] != c {
        lemma_find_first(hay, c, at + 1);
    }
}

proof fn lemma_score_from_some(needle: Seq<char>, hay: Seq<char>, k: int, at: int, previous: Option<int>, points: int)
    requires
        0 <= k <= needle.len(),
        at >= 0,
    ensures
        (score_from(needle, hay, k, at, previous, points) is Some) <==> placed(needle, hay, k, at),
    decreases needle.len() - k,
{
    if k == needle.len() {
        assert(picks(Seq::<int>::empty(), needle, hay, k, at));
    } else {
        lemma_find_first(hay, needle[k], at);
        match find_from(hay, needle[k], at) {
            None => {
                if placed(needle, hay, k, at) {
                    let ix = choose|ix: Seq<int>| #[trigger] picks(ix, needle, hay, k, at);
                    assert(hay[ix[0]] == needle[k + 0]);
                }
            },
            Some(f) => {
                lemma_score_from_some(needle, hay, k + 1, f + 1, Some(f), points + step_points(previous, f));
                if placed(needle, hay, k + 1, f + 1) {
                    let ix = choose|ix: Seq<int>| #[trigger] picks(ix, needle, hay, k + 1, f + 1);
                    let longer = seq![f] + ix;
                    assert forall|j: int| 0 <= j < longer.len() implies at <= #[trigger] longer[j] < hay.len()
                        && hay[longer[j]] == needle[k + j] by {
                        if j > 0 {
                            assert(longer[j] == ix[j - 1]);
                        }
                    }
                    assert forall|a: int, b: int| 0 <= a < b < longer.len() implies #[trigger] longer[a] < #[trigger] longer[b] by {
                        if a > 0 {
                            assert(longer[a] == ix[a - 1] && longer[b] == ix[b - 1]);
                        } else {
                            assert(longer[b] == ix[b - 1]);
                        }
                    }
                    assert(picks(longer, needle, hay, k, at));
                }
                if placed(needle, hay, k, at) {
                    let ix = choose|ix: Seq<int>| #[trigger] picks(ix, needle, hay, k, at);
                    assert(hay[ix[0]] == needle[k + 0]);
                    assert(ix[0] >= f);
                    let rest = ix.drop_first();
                    assert forall|j: int| 0 <= j < rest.len() implies f + 1 <= #[trigger] rest[j] < hay.len()
                        && hay[rest[j]] == needle[k + 1 + j] by {
                        assert(rest[j] == ix[j + 1]);
                        assert(ix[0] < ix[j + 1]);
                    }
                    assert forall|a: int, b: int| 0 <= a < b < rest.len() implies #[trigger] rest[a] < #[trigger] rest[b] by {
                        assert(rest[a] == ix[a + 1] && rest[b] == ix[b + 1]);
                    }
                    assert(picks(rest, needle, hay, k + 1, f + 1));
                }
            },
        }
    }
}

/// Fuzzy matching, exactly: a needle scores against a haystack when it is
/// empty or when, both lowercased, every character of the needle occurs in
/// the haystack in order, not necessarily side by side.
pub proof fn law_a_score_exists_exactly_when_the_needle_is_in_order(needle: Seq<char>, haystack: Seq<char>)
    ensures
        (score_spec(needle, haystack) is Some) <==> (needle.len() == 0 || in_order(lowered(needle), lowered(haystack))),
{
    if needle.len() > 0 {
        lemma_score_from_some(lowered(needle), lowered(haystack), 0, 0, None, 0);
    }
}


proof fn lemma_place_ranked_keeps(sorted: Seq<((bool, int), Seq<char>)>, x: ((bool, int), Seq<char>))
    ensures
        place_ranked(sorted, x).contains(x),
        forall|y: ((bool, int), Seq<char>)| sorted.contains(y) ==> place_ranked(sorted, x).contains(y),
    decreases sorted.len(),
{
    let r = place_ranked(sorted, x);
    if sorted.len() == 0 {
        assert(r[0] == x);
    } else if ahead(x, sorted[0]) {
        assert(r[0] == x);
        assert forall|y: ((bool, int), Seq<char>)| sorted.contains(y) implies r.contains(y) by {
            let i = choose|i: int| 0 <= i < sorted.len() && sorted[i] == y;
            assert(r[i + 1] == y);
        }
    } else {
        let rest = sorted.drop_first();
        lemma_place_ranked_keeps(rest, x);
        let inner = place_ranked(rest, x);
        let k = choose|k: int| 0 <= k < inner.len() && inner[k] == x;
        assert(r[k + 1] == x);
        assert forall|y: ((bool, int), Seq<char>)| sorted.contains(y) implies r.contains(y) by {
            let i = choose|i: int| 0 <= i < sorted.len() && sorted[i] == y;
            if i == 0 {
                assert(r[0] == y);
            } else {
                assert(rest[i - 1] == y);
                assert(rest.contains(y));
                let j = choose|j: int| 0 <= j < inner.len() && inner[j] == y;
                assert(r[j + 1] == y);
            }
        }
    }
}

proof fn lemma_in_rank_order_keeps(items: Seq<((bool, int), Seq<char>)>)
    ensures
        forall|y: ((bool, int), Seq<char>)| items.contains(y) ==> in_rank_order(items).contains(y),
    decreases items.len(),
{
    if items.len() > 0 {
        lemma_in_rank_order_keeps(items.drop_last());
        lemma_place_ranked_keeps(in_rank_order(items.drop_last()), items.last());
        assert forall|y: ((bool, int), Seq<char>)| items.contains(y) implies in_rank_order(items).contains(y) by {
            let i = choose|i: int| 0 <= i < items.len() && items[i] == y;
            if i < items.len() - 1 {
                assert(items.drop_last()[i] == y);
                assert(items.drop_last().contains(y));
            }
        }
    }
}

proof fn lemma_candidates(needle: Seq<char>, indexed: Seq<Seq<char>>)
    ensures
        forall|i: int| 0 <= i < candidates(needle, indexed).len() ==> {
            let c = #[trigger] candidates(needle, indexed)[i];
            &&& indexed.contains(c.2)
            &&& rank_spec(needle, c.2) == Some(c.1)
            &&& c.0 == holds_text(lowered(c.2), lowered(needle))
        },
        forall|p: Seq<char>| indexed.contains(p) && rank_spec(needle, p) is Some ==> exists|i: int|
            0 <= i < candidates(needle, indexed).len() && (#[trigger] candidates(needle, indexed)[i]).2 == p,
    decreases indexed.len(),
{
    if indexed.len() > 0 {
        let before = indexed.drop_last();
        lemma_candidates(needle, before);
        let rest = candidates(needle, before);
        let all = candidates(needle, indexed);
        assert forall|i: int| 0 <= i < all.len() implies {
            let c = #[trigger] all[i];
            &&& indexed.contains(c.2)
            &&& rank_spec(needle, c.2) == Some(c.1)
            &&& c.0 == holds_text(lowered(c.2), lowered(needle))
        } by {
            if i < rest.len() {
                assert(all[i] == rest[i]);
                let j = choose|j: int| 0 <= j < before.len() && before[j] == rest[i].2;
                assert(indexed[j] == before[j]);
            } else {
                assert(indexed[indexed.len() - 1] == indexed.last());
            }
        }
        assert forall|p: Seq<char>| indexed.contains(p) && rank_spec(needle, p) is Some implies exists|i: int|
            0 <= i < all.len() && (#[trigger] all[i]).2 == p by {
            let j = choose|j: int| 0 <= j < indexed.len() && indexed[j] == p;
            if j < indexed.len() - 1 {
                assert(before[j] == p);
                assert(before.contains(p));
                let i = choose|i: int| 0 <= i < rest.len() && (#[trigger] rest[i]).2 == p;
                assert(all[i] == rest[i]);
            } else {
                assert(all[all.len() - 1].2 == p);
            }
        }
    }
}

proof fn lemma_literal_only_keeps(all: Seq<(bool, (bool, int), Seq<char>)>)
    ensures
        forall|i: int| 0 <= i < all.len() && (#[trigger] all[i]).0 ==> literal_only(all).contains((all[i].1, all[i].2)),
    decreases all.len(),
{
    if all.len() > 0 {
        lemma_literal_only_keeps(all.drop_last());
        let rest = literal_only(all.drop_last());
        assert forall|i: int| 0 <= i < all.len() && (#[trigger] all[i]).0 implies literal_only(all).contains((all[i].1, all[i].2)) by {
            if i < all.len() - 1 {
                assert(all.drop_last()[i] == all[i]);
                let k = choose|k: int| 0 <= k < rest.len() && rest[k] == (all[i].1, all[i].2);
                assert(literal_only(all)[k] == rest[k]);
            } else {
                assert(literal_only(all) == rest.push((all.last().1, all.last().2)));
                assert(literal_only(all)[rest.len() as int] == (all[i].1, all[i].2));
            }
        }
    }
}

/// What matches, exactly: every indexed path the needle ranks, except that
/// where any of them holds the needle literally, only those that do. (Their
/// order is [`law_matches_come_closest_first`]'s.)
pub proof fn law_matches_are_exactly_the_ranked_paths(needle: Seq<char>, indexed: Seq<Seq<char>>)
    requires
        needle.len() > 0,
    ensures
        any_literal(candidates(needle, indexed)) <==> exists|q: Seq<char>| #[trigger] indexed.contains(q)
            && rank_spec(needle, q) is Some && holds_text(lowered(q), lowered(needle)),
        forall|p: Seq<char>| #[trigger] matches_spec(needle, indexed).contains(p) <==> (indexed.contains(p) && rank_spec(needle, p) is Some
            && (holds_text(lowered(p), lowered(needle)) || !any_literal(candidates(needle, indexed)))),
{
    let all = candidates(needle, indexed);
    lemma_candidates(needle, indexed);
    lemma_literal_only(all);
    lemma_literal_only_keeps(all);
    let literal = any_literal(all);
    let kept = if literal { literal_only(all) } else { all.map_values(|c: (bool, (bool, int), Seq<char>)| (c.1, c.2)) };
    lemma_in_rank_order(kept);
    lemma_in_rank_order_keeps(kept);
    let ordered = in_rank_order(kept);
    let result = matches_spec(needle, indexed);
    assert(result == ordered.map_values(|x: ((bool, int), Seq<char>)| x.1));
    if literal {
        let k = choose|k: int| 0 <= k < all.len() && (#[trigger] all[k]).0;
        assert(indexed.contains(all[k].2));
    }
    assert forall|q: Seq<char>| #[trigger] indexed.contains(q) && rank_spec(needle, q) is Some
        && holds_text(lowered(q), lowered(needle)) implies literal by {
        let i = choose|i: int| 0 <= i < all.len() && (#[trigger] all[i]).2 == q;
        assert(all[i].0);
    }
    assert forall|p: Seq<char>| #[trigger] result.contains(p) implies (indexed.contains(p) && rank_spec(needle, p) is Some
        && (holds_text(lowered(p), lowered(needle)) || !literal)) by {
        let j = choose|j: int| 0 <= j < result.len() && result[j] == p;
        assert(ordered[j].1 == p);
        assert(kept.contains(ordered[j]));
        let m = choose|m: int| 0 <= m < kept.len() && kept[m] == ordered[j];
        if literal {
            assert(from_literal(all, kept[m]));
            let i = choose|i: int| 0 <= i < all.len() && (#[trigger] all[i]).0 && (all[i].1, all[i].2) == kept[m];
            assert(all[i].2 == p);
        } else {
            assert(kept[m] == (all[m].1, all[m].2));
            assert(all[m].2 == p);
        }
    }
    assert forall|p: Seq<char>| indexed.contains(p) && rank_spec(needle, p) is Some
        && (holds_text(lowered(p), lowered(needle)) || !literal) implies #[trigger] result.contains(p) by {
        let i = choose|i: int| 0 <= i < all.len() && (#[trigger] all[i]).2 == p;
        let y = (all[i].1, all[i].2);
        if literal {
            assert(all[i].0);
            assert(kept.contains(y));
        } else {
            assert(kept[i] == y);
            assert(kept.contains(y));
        }
        let j = choose|j: int| 0 <= j < ordered.len() && ordered[j] == y;
        assert(result[j] == p);
    }
}

} // verus!
