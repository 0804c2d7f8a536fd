//! Colouring code by token type: which kind a piece of text is. Colour is a
//! theme's business and lives at the edge.

use crate::editor::starts_with;
use crate::grammar::{
    apply, by_extension, by_token, cut_line, cut_texts, extension_known, grammars, joined, parse_line, parses, scope_names, scopes_after,
    start, token_known, applies, Grammar, Grammars,
};
use crate::text::{chars_of, extend, owned, same_chars, slice_of, split_lines, split_text, string_of};
use vstd::prelude::*;

verus! {

broadcast use vstd::string::group_string_axioms;

#[derive(Debug, Clone, Copy, PartialEq, Eq, Structural)]
pub enum Kind {
    Keyword,
    Operator,
    String,
    Comment,
    Number,
    Constant,
    Function,
    Type,
    Property,
    Attribute,
    Punctuation,
    Markup,
    Invalid,
    Plain,
}

#[derive(Debug, Clone, PartialEq, Eq)]
pub struct Token {
    pub text: String,
    pub kind: Kind,
}

impl View for Token {
    type V = (Seq<char>, Kind);

    open spec fn view(&self) -> (Seq<char>, Kind) {
        (self.text@, self.kind)
    }
}

/// The first index of `c` in `s` at or after `i`, or `s.len()`.
pub open spec fn index_from(s: Seq<char>, c: char, i: int) -> int
    decreases s.len() - i,
{
    if i < 0 || i >= s.len() {
        s.len() as int
    } else if s[i] == c {
        i
    } else {
        index_from(s, c, i + 1)
    }
}

/// A scope's family: its name up to the first dot.
pub open spec fn family(name: Seq<char>) -> Seq<char> {
    name.take(index_from(name, '.', 0))
}

/// What a scope's name says after its family, or nothing without a dot.
pub open spec fn after_family(name: Seq<char>) -> Seq<char> {
    let dot = index_from(name, '.', 0);
    if dot < name.len() { name.skip(dot + 1) } else { Seq::empty() }
}

pub open spec fn begins(s: Seq<char>, prefix: Seq<char>) -> bool {
    s.len() >= prefix.len() && s.take(prefix.len() as int) == prefix
}

/// The convention's fifteen families, total by construction; the second
/// segment is read only where a family is genuinely two things. `meta` stays
/// plain: it is a structural scope covering whole regions. The operator arm
/// stands above the general keyword one, since every grammar spells `=` and
/// `+` inside the keyword family.
pub open spec fn scope_kind_spec(name: Seq<char>) -> Kind {
    let f = family(name);
    let rest = after_family(name);
    if f == "comment"@ {
        Kind::Comment
    } else if f == "string"@ {
        Kind::String
    } else if f == "punctuation"@ {
        Kind::Punctuation
    } else if f == "invalid"@ {
        Kind::Invalid
    } else if f == "markup"@ {
        Kind::Markup
    } else if f == "keyword"@ && begins(rest, "operator"@) {
        Kind::Operator
    } else if f == "keyword"@ || f == "storage"@ {
        Kind::Keyword
    } else if f == "constant"@ && begins(rest, "numeric"@) {
        Kind::Number
    } else if f == "constant"@ {
        Kind::Constant
    } else if f == "entity"@ && begins(rest, "name.function"@) {
        Kind::Function
    } else if f == "entity"@ && (begins(rest, "name.tag"@) || begins(rest, "name.table"@) || begins(rest, "name.section"@)) {
        Kind::Markup
    } else if f == "entity"@ && begins(rest, "other.attribute-name"@) {
        Kind::Attribute
    } else if f == "entity"@ {
        Kind::Type
    } else if f == "support"@ && begins(rest, "function"@) {
        Kind::Function
    } else if f == "support"@ && (begins(rest, "type"@) || begins(rest, "class"@)) {
        Kind::Type
    } else if f == "support"@ {
        Kind::Constant
    } else if f == "variable"@ && begins(rest, "annotation"@) {
        Kind::Attribute
    } else if f == "variable"@ && (begins(rest, "parameter"@) || begins(rest, "other.property"@) || begins(rest, "object.property"@)) {
        Kind::Property
    } else {
        Kind::Plain
    }
}

fn is_word(v: &Vec<char>, word: &str) -> (r: bool)
    ensures
        r == (v@ == word@),
{
    let w = chars_of(word);
    same_chars(v, &w)
}

fn begins_with(v: &Vec<char>, prefix: &str) -> (r: bool)
    ensures
        r == begins(v@, prefix@),
{
    let p = chars_of(prefix);
    starts_with(v, &p)
}

/// Which kind a scope name is.
pub fn scope_kind(name: &str) -> (kind: Kind)
    ensures
        kind == scope_kind_spec(name@),
{
    let chars = chars_of(name);
    let mut dot: usize = 0;
    while dot < chars.len() && chars[dot] != '.'
        invariant
            dot <= chars.len(),
            index_from(chars@, '.', 0) == index_from(chars@, '.', dot as int),
        decreases chars.len() - dot,
    {
        dot = dot + 1;
    }
    let f = crate::text::slice_of(&chars, 0, dot);
    let rest = if dot < chars.len() { crate::text::slice_of(&chars, dot + 1, chars.len()) } else { Vec::new() };
    assert(f@ == family(name@));
    assert(rest@ == after_family(name@));
    if is_word(&f, "comment") {
        Kind::Comment
    } else if is_word(&f, "string") {
        Kind::String
    } else if is_word(&f, "punctuation") {
        Kind::Punctuation
    } else if is_word(&f, "invalid") {
        Kind::Invalid
    } else if is_word(&f, "markup") {
        Kind::Markup
    } else if is_word(&f, "keyword") && begins_with(&rest, "operator") {
        Kind::Operator
    } else if is_word(&f, "keyword") || is_word(&f, "storage") {
        Kind::Keyword
    } else if is_word(&f, "constant") && begins_with(&rest, "numeric") {
        Kind::Number
    } else if is_word(&f, "constant") {
        Kind::Constant
    } else if is_word(&f, "entity") && begins_with(&rest, "name.function") {
        Kind::Function
    } else if is_word(&f, "entity") && (begins_with(&rest, "name.tag") || begins_with(&rest, "name.table")
        || begins_with(&rest, "name.section")) {
        Kind::Markup
    } else if is_word(&f, "entity") && begins_with(&rest, "other.attribute-name") {
        Kind::Attribute
    } else if is_word(&f, "entity") {
        Kind::Type
    } else if is_word(&f, "support") && begins_with(&rest, "function") {
        Kind::Function
    } else if is_word(&f, "support") && (begins_with(&rest, "type") || begins_with(&rest, "class")) {
        Kind::Type
    } else if is_word(&f, "support") {
        Kind::Constant
    } else if is_word(&f, "variable") && begins_with(&rest, "annotation") {
        Kind::Attribute
    } else if is_word(&f, "variable") && (begins_with(&rest, "parameter") || begins_with(&rest, "other.property")
        || begins_with(&rest, "object.property")) {
        Kind::Property
    } else {
        Kind::Plain
    }
}

/// One line's tokens when nothing colours it: the line as one plain token,
/// or none for an empty line.
pub open spec fn plain_line_spec(line: Seq<char>) -> Seq<(Seq<char>, Kind)> {
    if line.len() == 0 { Seq::empty() } else { seq![(line, Kind::Plain)] }
}

pub open spec fn tokens_view(line: Seq<Token>) -> Seq<(Seq<char>, Kind)> {
    line.map_values(|t: Token| t@)
}

pub open spec fn lines_view(lines: Seq<Vec<Token>>) -> Seq<Seq<(Seq<char>, Kind)>> {
    lines.map_values(|l: Vec<Token>| tokens_view(l@))
}

fn plain_line(line: &Vec<char>) -> (tokens: Vec<Token>)
    ensures
        tokens_view(tokens@) == plain_line_spec(line@),
{
    let mut tokens: Vec<Token> = Vec::new();
    if line.len() > 0 {
        tokens.push(Token { text: string_of(line.as_slice()), kind: Kind::Plain });
    }
    assert(tokens_view(tokens@) =~= plain_line_spec(line@));
    tokens
}

/// Tokens for a source nothing colours: one plain token per non-empty line.
pub fn plain(source: &str) -> (lines: Vec<Vec<Token>>)
    ensures
        lines_view(lines@) == split_lines(source@).map_values(|l: Seq<char>| plain_line_spec(l)),
{
    let chars = chars_of(source);
    let rows = split_text(&chars);
    let mut lines: Vec<Vec<Token>> = Vec::new();
    let mut i: usize = 0;
    while i < rows.len()
        invariant
            i <= rows.len(),
            rows.deep_view() == split_lines(source@),
            lines_view(lines@) == rows.deep_view().take(i as int).map_values(|l: Seq<char>| plain_line_spec(l)),
        decreases rows.len() - i,
    {
        let ghost before = lines_view(lines@);
        assert(rows@[i as int]@ == rows.deep_view()[i as int]);
        let line = plain_line(&rows[i]);
        let ghost one = tokens_view(line@);
        lines.push(line);
        assert(lines_view(lines@) =~= before.push(one));
        assert(rows.deep_view().take(i + 1).map_values(|l: Seq<char>| plain_line_spec(l))
            =~= rows.deep_view().take(i as int).map_values(|l: Seq<char>| plain_line_spec(l)).push(plain_line_spec(rows.deep_view()[i as int])));
        i = i + 1;
    }
    assert(rows.deep_view().take(rows.len() as int) == rows.deep_view());
    lines
}

/// Adjacent text of the same kind is one token, so a quoted string arrives
/// whole rather than split around its quote marks.
pub open spec fn pushed(tokens: Seq<(Seq<char>, Kind)>, text: Seq<char>, kind: Kind) -> Seq<(Seq<char>, Kind)> {
    if tokens.len() > 0 && tokens.last().1 == kind {
        tokens.drop_last().push((tokens.last().0 + text, kind))
    } else {
        tokens.push((text, kind))
    }
}

fn push(tokens: &mut Vec<Token>, text: &str, kind: Kind)
    ensures
        tokens_view(final(tokens)@) == pushed(tokens_view(old(tokens)@), text@, kind),
{
    let n = tokens.len();
    if n > 0 && tokens[n - 1].kind == kind {
        let mut last = tokens.pop().unwrap();
        crate::text::push_str(&mut last.text, text);
        tokens.push(last);
        assert(tokens_view(tokens@) =~= pushed(tokens_view(old(tokens)@), text@, kind));
    } else {
        tokens.push(Token { text: crate::text::owned(text), kind });
        assert(tokens_view(tokens@) =~= pushed(tokens_view(old(tokens)@), text@, kind));
    }
}

/// The text a line's tokens colour, one after another.
pub open spec fn token_text(tokens: Seq<(Seq<char>, Kind)>) -> Seq<char>
    decreases tokens.len(),
{
    if tokens.len() == 0 { Seq::empty() } else { token_text(tokens.drop_last()) + tokens.last().0 }
}

/// How many lines from the top, among the first `both`, the tokens still
/// hold the text of.
pub open spec fn kept_above(tokens: Seq<Seq<(Seq<char>, Kind)>>, lines: Seq<Seq<char>>, k: int, both: int) -> int
    decreases both - k,
{
    if k < both && token_text(tokens[k]) == lines[k] { kept_above(tokens, lines, k + 1, both) } else { k }
}

/// How many lines from the bottom, up to `most`, the tokens still hold the
/// text of.
pub open spec fn kept_below(tokens: Seq<Seq<(Seq<char>, Kind)>>, lines: Seq<Seq<char>>, back: int, most: int) -> int
    decreases most - back,
{
    if back < most && token_text(tokens[tokens.len() - 1 - back]) == lines[lines.len() - 1 - back] {
        kept_below(tokens, lines, back + 1, most)
    } else {
        back
    }
}

/// A line's tokens colour no more text than the line holds, and only plain
/// text is ever empty.
pub open spec fn within(tokens: Seq<(Seq<char>, Kind)>, line: Seq<char>) -> bool {
    &&& token_text(tokens).len() <= line.len()
    &&& forall|k: int| 0 <= k < tokens.len() && (#[trigger] tokens[k]).1 != Kind::Plain ==> tokens[k].0.len() > 0
}

proof fn lemma_pushed(tokens: Seq<(Seq<char>, Kind)>, text: Seq<char>, kind: Kind)
    requires
        forall|k: int| 0 <= k < tokens.len() && (#[trigger] tokens[k]).1 != Kind::Plain ==> tokens[k].0.len() > 0,
        kind != Kind::Plain ==> text.len() > 0,
    ensures
        token_text(pushed(tokens, text, kind)).len() == token_text(tokens).len() + text.len(),
        forall|k: int| 0 <= k < pushed(tokens, text, kind).len() && (#[trigger] pushed(tokens, text, kind)[k]).1 != Kind::Plain
            ==> pushed(tokens, text, kind)[k].0.len() > 0,
{
    let p = pushed(tokens, text, kind);
    if tokens.len() > 0 && tokens.last().1 == kind {
        let last = tokens.last();
        assert(p.drop_last() =~= tokens.drop_last());
        assert(token_text(tokens) == token_text(tokens.drop_last()) + last.0);
        assert(token_text(p) == token_text(p.drop_last()) + (last.0 + text));
        assert forall|k: int| 0 <= k < p.len() && (#[trigger] p[k]).1 != Kind::Plain implies p[k].0.len() > 0 by {
            if k < p.len() - 1 {
                assert(p[k] == tokens[k]);
            } else {
                assert(tokens[tokens.len() - 1] == last);
            }
        }
    } else {
        assert(p.drop_last() =~= tokens);
    }
}

proof fn lemma_plain_within(line: Seq<char>)
    ensures
        within(plain_line_spec(line), line),
{
    lemma_plain_line_text(line);
}

/// Tokens for `source` out of the tokens of an earlier text of the same
/// file: every line the edit left alone, matched from the top and then from
/// the bottom, keeps its colours, and the lines between are plain.
pub open spec fn carried_spec(tokens: Seq<Seq<(Seq<char>, Kind)>>, source: Seq<char>) -> Seq<Seq<(Seq<char>, Kind)>> {
    let lines = split_lines(source);
    let both = if tokens.len() <= lines.len() { tokens.len() as int } else { lines.len() as int };
    let above = kept_above(tokens, lines, 0, both);
    let below = kept_below(tokens, lines, 0, both - above);
    tokens.take(above) + lines.subrange(above, lines.len() - below).map_values(|l: Seq<char>| plain_line_spec(l))
        + tokens.skip(tokens.len() - below)
}

fn holds(tokens: &Vec<Token>, line: &Vec<char>) -> (r: bool)
    ensures
        r == (token_text(tokens_view(tokens@)) == line@),
{
    let mut text: Vec<char> = Vec::new();
    let mut i: usize = 0;
    while i < tokens.len()
        invariant
            i <= tokens.len(),
            text@ == token_text(tokens_view(tokens@).take(i as int)),
        decreases tokens.len() - i,
    {
        let piece = chars_of(tokens[i].text.as_str());
        extend(&mut text, &piece);
        assert(tokens_view(tokens@).take(i + 1).drop_last() == tokens_view(tokens@).take(i as int));
        i = i + 1;
    }
    assert(tokens_view(tokens@).take(tokens.len() as int) == tokens_view(tokens@));
    same_chars(&text, line)
}

/// Tokens for `source` out of the tokens of an earlier text of the same file,
/// for as long as the parse of `source` itself is running elsewhere.
pub fn carried(tokens: Vec<Vec<Token>>, source: &str) -> (r: Vec<Vec<Token>>)
    ensures
        lines_view(r@) == carried_spec(lines_view(tokens@), source@),
{
    let chars = chars_of(source);
    let lines = split_text(&chars);
    let ghost tv = lines_view(tokens@);
    let ghost lv = lines.deep_view();
    let both = if tokens.len() <= lines.len() { tokens.len() } else { lines.len() };
    let mut above: usize = 0;
    while above < both && holds(&tokens[above], &lines[above])
        invariant
            above <= both,
            both == (if tokens.len() <= lines.len() { tokens.len() } else { lines.len() }),
            tv == lines_view(tokens@),
            lv == lines.deep_view(),
            kept_above(tv, lv, 0, both as int) == kept_above(tv, lv, above as int, both as int),
        decreases both - above,
    {
        assert(tv[above as int] == tokens_view(tokens@[above as int]@));
        assert(lv[above as int] == lines@[above as int]@);
        above = above + 1;
    }
    proof {
        if above < both {
            assert(tv[above as int] == tokens_view(tokens@[above as int]@));
            assert(lv[above as int] == lines@[above as int]@);
        }
    }
    let most = both - above;
    let mut below: usize = 0;
    while below < most && holds(&tokens[tokens.len() - 1 - below], &lines[lines.len() - 1 - below])
        invariant
            below <= most,
            most == both - above,
            both <= tokens.len() && both <= lines.len(),
            tv == lines_view(tokens@),
            lv == lines.deep_view(),
            kept_below(tv, lv, 0, most as int) == kept_below(tv, lv, below as int, most as int),
        decreases most - below,
    {
        assert(tv[tokens.len() - 1 - below] == tokens_view(tokens@[tokens.len() - 1 - below]@));
        assert(lv[lines.len() - 1 - below] == lines@[lines.len() - 1 - below]@);
        below = below + 1;
    }
    proof {
        if below < most {
            assert(tv[tokens.len() - 1 - below] == tokens_view(tokens@[tokens.len() - 1 - below]@));
            assert(lv[lines.len() - 1 - below] == lines@[lines.len() - 1 - below]@);
        }
    }
    let mut kept = tokens;
    let mut tail: Vec<Vec<Token>> = Vec::new();
    while tail.len() < below
        invariant
            tail.len() <= below,
            below <= tv.len(),
            kept.len() + tail.len() == tv.len(),
            lines_view(kept@) == tv.take(kept.len() as int),
            forall|i: int| 0 <= i < tail.len() ==> #[trigger] tokens_view(tail@[i]@) == tv[tv.len() - 1 - i],
        decreases below - tail.len(),
    {
        let ghost n = kept.len();
        let ghost kv = kept@;
        let line = kept.pop().unwrap();
        assert(line == kv[n - 1]);
        assert(lines_view(kv)[n - 1] == tokens_view(line@));
        tail.push(line);
        assert(lines_view(kept@) =~= tv.take(kept.len() as int));
    }
    kept.truncate(above);
    assert(lines_view(kept@) =~= tv.take(above as int));
    let mut k: usize = above;
    while k < lines.len() - below
        invariant
            above <= k <= lines.len() - below,
            below <= lines.len(),
            lv == lines.deep_view(),
            lines_view(kept@) == tv.take(above as int) + lv.subrange(above as int, k as int).map_values(|l: Seq<char>| plain_line_spec(l)),
        decreases lines.len() - below - k,
    {
        let ghost before = lines_view(kept@);
        assert(lines@[k as int]@ == lv[k as int]);
        let line = plain_line(&lines[k]);
        let ghost one = tokens_view(line@);
        kept.push(line);
        assert(lines_view(kept@) =~= before.push(one));
        assert(lv.subrange(above as int, k + 1).map_values(|l: Seq<char>| plain_line_spec(l))
            =~= lv.subrange(above as int, k as int).map_values(|l: Seq<char>| plain_line_spec(l)).push(plain_line_spec(lv[k as int])));
        k = k + 1;
    }
    let ghost middle = lines_view(kept@);
    while tail.len() > 0
        invariant
            tail.len() <= below <= tv.len(),
            forall|i: int| 0 <= i < tail.len() ==> #[trigger] tokens_view(tail@[i]@) == tv[tv.len() - 1 - i],
            lines_view(kept@) == middle + tv.subrange(tv.len() - below, tv.len() - tail.len()),
        decreases tail.len(),
    {
        let ghost before = lines_view(kept@);
        let ghost m = tail.len();
        let ghost tw = tail@;
        let line = tail.pop().unwrap();
        assert(line == tw[m - 1]);
        assert(tokens_view(tw[m - 1]@) == tv[tv.len() - 1 - (m - 1)]);
        let ghost one = tokens_view(line@);
        kept.push(line);
        assert(lines_view(kept@) =~= before.push(one));
        assert(tv.subrange(tv.len() - below, tv.len() - tail.len()) =~= tv.subrange(tv.len() - below, tv.len() - m).push(tv[tv.len() - m]));
    }
    assert(lines_view(kept@) =~= carried_spec(tv, source@));
    kept
}

proof fn lemma_kept_above(tokens: Seq<Seq<(Seq<char>, Kind)>>, lines: Seq<Seq<char>>, k: int, both: int)
    requires
        0 <= k <= both,
        both <= tokens.len(),
        both <= lines.len(),
        forall|j: int| 0 <= j < k ==> token_text(#[trigger] tokens[j]) == lines[j],
    ensures
        k <= kept_above(tokens, lines, k, both) <= both,
        forall|j: int| 0 <= j < kept_above(tokens, lines, k, both) ==> token_text(#[trigger] tokens[j]) == lines[j],
    decreases both - k,
{
    if k < both && token_text(tokens[k]) == lines[k] {
        lemma_kept_above(tokens, lines, k + 1, both);
    }
}

proof fn lemma_kept_below(tokens: Seq<Seq<(Seq<char>, Kind)>>, lines: Seq<Seq<char>>, back: int, most: int)
    requires
        0 <= back <= most,
        most <= tokens.len(),
        most <= lines.len(),
        forall|b: int| 0 <= b < back ==> token_text(#[trigger] tokens[tokens.len() - 1 - b]) == lines[lines.len() - 1 - b],
    ensures
        back <= kept_below(tokens, lines, back, most) <= most,
        forall|b: int| 0 <= b < kept_below(tokens, lines, back, most) ==> token_text(#[trigger] tokens[tokens.len() - 1 - b]) == lines[lines.len() - 1 - b],
    decreases most - back,
{
    if back < most && token_text(tokens[tokens.len() - 1 - back]) == lines[lines.len() - 1 - back] {
        lemma_kept_below(tokens, lines, back + 1, most);
    }
}

proof fn lemma_plain_line_text(line: Seq<char>)
    ensures
        token_text(plain_line_spec(line)) == line,
{
    if line.len() > 0 {
        assert(plain_line_spec(line).drop_last() =~= Seq::<(Seq<char>, Kind)>::empty());
        assert(plain_line_spec(line).last() == (line, Kind::Plain));
        assert(token_text(Seq::<(Seq<char>, Kind)>::empty()) == Seq::<char>::empty());
        assert(token_text(plain_line_spec(line)) == token_text(plain_line_spec(line).drop_last()) + line);
        assert(Seq::<char>::empty() + line =~= line);
    } else {
        assert(line =~= Seq::<char>::empty());
    }
}

/// Whatever was carried, the text drawn is the text now: the carried tokens
/// have one line for every line of the new source, and each line's tokens
/// spell exactly that line — the lines matched from the top and from the
/// bottom, and the plain ones between.
pub proof fn law_carried_tokens_hold_the_text_as_it_is_now(tokens: Seq<Seq<(Seq<char>, Kind)>>, source: Seq<char>)
    ensures
        carried_spec(tokens, source).len() == split_lines(source).len(),
        forall|k: int| 0 <= k < split_lines(source).len() ==> token_text(#[trigger] carried_spec(tokens, source)[k]) == split_lines(source)[k],
{
    let lines = split_lines(source);
    let both = if tokens.len() <= lines.len() { tokens.len() as int } else { lines.len() as int };
    lemma_kept_above(tokens, lines, 0, both);
    let above = kept_above(tokens, lines, 0, both);
    lemma_kept_below(tokens, lines, 0, both - above);
    let below = kept_below(tokens, lines, 0, both - above);
    let middle = lines.subrange(above, lines.len() - below).map_values(|l: Seq<char>| plain_line_spec(l));
    let r = carried_spec(tokens, source);
    assert(r == tokens.take(above) + middle + tokens.skip(tokens.len() - below));
    assert forall|k: int| 0 <= k < lines.len() implies token_text(#[trigger] r[k]) == lines[k] by {
        if k < above {
            assert(r[k] == tokens[k]);
        } else if k < lines.len() - below {
            assert(r[k] == middle[k - above]);
            assert(middle[k - above] == plain_line_spec(lines[k]));
            lemma_plain_line_text(lines[k]);
        } else {
            let b = lines.len() - 1 - k;
            assert(r[k] == tokens[tokens.len() - 1 - b]);
        }
    }
}

/// Sublime scopes walked innermost first, but a delimiter belongs to what it
/// delimits: punctuation is the weakest kind, taken only when nothing else in
/// the stack claims the text, and still beating plain.
pub open spec fn classify_from(names: Seq<Seq<char>>, k: int, weakest: Kind) -> Kind
    decreases k,
{
    if k <= 0 || k > names.len() {
        weakest
    } else {
        let kind = scope_kind_spec(names[k - 1]);
        if kind == Kind::Plain {
            classify_from(names, k - 1, weakest)
        } else if kind == Kind::Punctuation {
            classify_from(names, k - 1, Kind::Punctuation)
        } else {
            kind
        }
    }
}

pub open spec fn classify_spec(names: Seq<Seq<char>>) -> Kind {
    classify_from(names, names.len() as int, Kind::Plain)
}

/// Which kind the text under a stack of scopes is.
pub fn classify(names: &Vec<String>) -> (kind: Kind)
    ensures
        kind == classify_spec(names@.map_values(|n: String| n@)),
{
    let ghost view = names@.map_values(|n: String| n@);
    let mut weakest = Kind::Plain;
    let mut k = names.len();
    while k > 0
        invariant
            k <= names.len(),
            view == names@.map_values(|n: String| n@),
            classify_spec(view) == classify_from(view, k as int, weakest),
        decreases k,
    {
        let kind = scope_kind(names[k - 1].as_str());
        assert(view[k - 1] == names@[k - 1]@);
        if kind == Kind::Punctuation {
            weakest = Kind::Punctuation;
        } else if kind != Kind::Plain {
            return kind;
        }
        k = k - 1;
    }
    weakest
}

/// Where a name's extension starts: after its last dot, if it has one.
pub open spec fn last_dot(name: Seq<char>, i: int) -> Option<int>
    decreases i,
{
    if i <= 0 || i > name.len() {
        None
    } else if name[i - 1] == '.' {
        Some(i - 1)
    } else {
        last_dot(name, i - 1)
    }
}

/// A piece of a line as the parse cut it, with the names of the scopes over
/// it, outermost first; none where the grammar's scope change could not be
/// made, and the piece is then left out.
pub struct Piece {
    pub text: String,
    pub scopes: Option<Vec<String>>,
}

impl View for Piece {
    type V = (Seq<char>, Option<Seq<Seq<char>>>);

    open spec fn view(&self) -> (Seq<char>, Option<Seq<Seq<char>>>) {
        (self.text@, match self.scopes {
            Some(names) => Some(names@.map_values(|n: String| n@)),
            None => None,
        })
    }
}

/// A line's tokens out of its pieces: each piece with text and scopes, of the
/// kind its scopes make it, and adjacent text of one kind one token.
pub open spec fn merged(pieces: Seq<(Seq<char>, Option<Seq<Seq<char>>>)>) -> Seq<(Seq<char>, Kind)>
    decreases pieces.len(),
{
    if pieces.len() == 0 {
        Seq::empty()
    } else {
        let rest = merged(pieces.drop_last());
        let piece = pieces.last();
        match piece.1 {
            Some(names) => if piece.0.len() > 0 { pushed(rest, piece.0, classify_spec(names)) } else { rest },
            None => rest,
        }
    }
}

/// The text of a line's pieces, one after another.
pub open spec fn piece_text(pieces: Seq<(Seq<char>, Option<Seq<Seq<char>>>)>) -> Seq<char>
    decreases pieces.len(),
{
    if pieces.len() == 0 { Seq::empty() } else { piece_text(pieces.drop_last()) + pieces.last().0 }
}

/// A line's tokens out of the pieces the parse cut it into.
pub fn tokens_of(pieces: &Vec<Piece>) -> (tokens: Vec<Token>)
    ensures
        tokens_view(tokens@) == merged(pieces@.map_values(|p: Piece| p@)),
{
    let ghost view = pieces@.map_values(|p: Piece| p@);
    let mut tokens: Vec<Token> = Vec::new();
    let mut k: usize = 0;
    while k < pieces.len()
        invariant
            k <= pieces.len(),
            view == pieces@.map_values(|p: Piece| p@),
            tokens_view(tokens@) == merged(view.take(k as int)),
        decreases pieces.len() - k,
    {
        assert(view.take(k + 1).drop_last() =~= view.take(k as int));
        assert(view.take(k + 1).last() == pieces@[k as int]@);
        let piece = &pieces[k];
        match &piece.scopes {
            Some(names) => {
                if !piece.text.as_str().is_empty() {
                    let kind = classify(names);
                    push(&mut tokens, piece.text.as_str(), kind);
                }
            },
            None => {},
        }
        k = k + 1;
    }
    assert(view.take(pieces.len() as int) =~= view);
    tokens
}

proof fn lemma_merged_within(pieces: Seq<(Seq<char>, Option<Seq<Seq<char>>>)>)
    ensures
        token_text(merged(pieces)).len() <= piece_text(pieces).len(),
        forall|k: int| 0 <= k < merged(pieces).len() && (#[trigger] merged(pieces)[k]).1 != Kind::Plain ==> merged(pieces)[k].0.len() > 0,
    decreases pieces.len(),
{
    if pieces.len() > 0 {
        lemma_merged_within(pieces.drop_last());
        let piece = pieces.last();
        match piece.1 {
            Some(names) => if piece.0.len() > 0 {
                lemma_pushed(merged(pieces.drop_last()), piece.0, classify_spec(names));
            },
            None => {},
        }
    }
}


proof fn lemma_piece_text(view: Seq<(Seq<char>, Option<Seq<Seq<char>>>)>, texts: Seq<Seq<char>>)
    requires
        view.len() == texts.len(),
        forall|j: int| 0 <= j < view.len() ==> (#[trigger] view[j]).0 == texts[j],
    ensures
        piece_text(view) == joined(texts),
    decreases view.len(),
{
    if view.len() > 0 {
        lemma_piece_text(view.drop_last(), texts.drop_last());
    }
}

/// The grammar a name picks, as how it was found and by what: by the
/// extension after its last dot where the set has a grammar claiming it,
/// else by the whole name as a language's token; none where neither finds one.
pub open spec fn language(name: Seq<char>) -> Option<(bool, Seq<char>)> {
    let dot = last_dot(name, name.len() as int);
    if dot is Some && extension_known(name.skip(dot->0 + 1)) {
        Some((true, name.skip(dot->0 + 1)))
    } else if token_known(name) {
        Some((false, name))
    } else {
        None
    }
}

/// The changes tried on the stack before a line, followed by those of the
/// first `k` pieces of line `at`.
pub open spec fn tried_upto(tried: Seq<(int, int)>, at: int, k: int) -> Seq<(int, int)> {
    tried + Seq::new(k as nat, |j: int| (at, j))
}

/// The last line of `read` as the parse cut it: each piece's text, with the
/// names of the scopes open over it once its change is made, or none where
/// the stack could not make the change.
pub open spec fn line_pieces(
    key: (bool, Seq<char>),
    read: Seq<Seq<char>>,
    tried: Seq<(int, int)>,
) -> Seq<(Seq<char>, Option<Seq<Seq<char>>>)> {
    let texts = cut_texts(key.0, key.1, read);
    Seq::new(
        texts.len(),
        |j: int|
            {
                let upto = tried_upto(tried, read.len() - 1, j + 1);
                (texts[j], if applies(key.0, key.1, read, upto) { Some(scopes_after(key.0, key.1, read, upto)) } else { None })
            },
    )
}

/// The first `n` rows' tokens under the grammar `key`, with the changes
/// tried on the scope stack along the way: one parse and one stack carried
/// from row to row, so a row inside a comment or a string opened above it
/// reads as that; a row the grammar fails on is one plain token.
pub open spec fn parsed_rows(key: (bool, Seq<char>), rows: Seq<Seq<char>>, n: nat) -> (
    Seq<Seq<(Seq<char>, Kind)>>,
    Seq<(int, int)>,
)
    decreases n,
{
    if n == 0 {
        (Seq::empty(), Seq::empty())
    } else {
        let before = parsed_rows(key, rows, (n - 1) as nat);
        let read = rows.take(n as int);
        if parses(key.0, key.1, read) {
            let count = cut_texts(key.0, key.1, read).len();
            (before.0.push(merged(line_pieces(key, read, before.1))), tried_upto(before.1, n - 1, count as int))
        } else {
            (before.0.push(pushed(Seq::empty(), rows[n - 1], Kind::Plain)), before.1)
        }
    }
}

/// A source's tokens, one entry per line: plain where the name picks no
/// grammar, else the rows as one parse of that grammar colours them.
pub open spec fn highlight_spec(name: Seq<char>, source: Seq<char>) -> Seq<Seq<(Seq<char>, Kind)>> {
    let rows = split_lines(source);
    match language(name) {
        Some(key) => parsed_rows(key, rows, rows.len()).0,
        None => rows.map_values(|l: Seq<char>| plain_line_spec(l)),
    }
}

/// The grammar of the set that `name` picks.
fn find_language<'a>(grammars: &'a Grammars, name: &str) -> (found: Option<Grammar<'a>>)
    ensures
        found.is_some() == language(name@).is_some(),
        found matches Some(grammar) ==> grammar@ == language(name@)->0,
{
    let chars = chars_of(name);
    let mut dot = chars.len();
    while dot > 0 && chars[dot - 1] != '.'
        invariant
            dot <= chars.len(),
            chars@ == name@,
            last_dot(name@, name@.len() as int) == last_dot(name@, dot as int),
        decreases dot,
    {
        dot = dot - 1;
    }
    if dot > 0 {
        let extension = string_of(slice_of(&chars, dot, chars.len()).as_slice());
        assert(extension@ == name@.skip(dot as int));
        let found = by_extension(grammars, extension);
        if found.is_some() {
            return found;
        }
    }
    by_token(grammars, owned(name))
}

proof fn lemma_tried_step(tried: Seq<(int, int)>, at: int, k: int)
    requires
        0 <= k,
    ensures
        tried_upto(tried, at, k).push((at, k)) == tried_upto(tried, at, k + 1),
{
    assert(tried_upto(tried, at, k).push((at, k)) =~= tried_upto(tried, at, k + 1));
}

/// Tokens for `source`, one entry per line, with the language taken from
/// `name` — a file name's extension, or a language name given directly. A
/// language the grammar set does not know comes back plain. The parse is one
/// pass over the whole source, so a token that spans lines colours the lines
/// under it; adjacent text of one kind is one token.
pub fn highlight(name: &str, source: &str) -> (lines: Vec<Vec<Token>>)
    ensures
        lines_view(lines@) == highlight_spec(name@, source@),
        lines@.len() == split_lines(source@).len(),
        forall|i: int| 0 <= i < lines@.len() ==> within(#[trigger] lines_view(lines@)[i], split_lines(source@)[i]),
{
    let set = grammars();
    let found = find_language(&set, name);
    let grammar = match found {
        Some(grammar) => grammar,
        None => {
            let lines = plain(source);
            assert(lines_view(lines@).len() == lines@.len());
            assert forall|i: int| 0 <= i < lines@.len() implies within(#[trigger] lines_view(lines@)[i], split_lines(source@)[i]) by {
                lemma_plain_within(split_lines(source@)[i]);
            }
            return lines;
        },
    };
    let ghost key = grammar@;
    let mut parse = start(&grammar);
    let text = chars_of(source);
    let rows = split_text(&text);
    let ghost all = rows.deep_view();
    let mut lines: Vec<Vec<Token>> = Vec::new();
    let mut i: usize = 0;
    while i < rows.len()
        invariant
            i <= rows.len(),
            all == rows.deep_view(),
            all == split_lines(source@),
            parse.key() == key,
            parse.read() == all.take(i as int),
            parse.tried() == parsed_rows(key, all, i as nat).1,
            lines_view(lines@) == parsed_rows(key, all, i as nat).0,
            lines@.len() == i,
            forall|j: int| 0 <= j < i ==> within(#[trigger] lines_view(lines@)[j], all[j]),
        decreases rows.len() - i,
    {
        let line = string_of(rows[i].as_slice());
        assert(line@ == all[i as int]);
        let ghost tried = parse.tried();
        let ghost read = all.take(i + 1);
        assert(all.take(i as int).push(line@) =~= read);
        let mut tokens: Vec<Token> = Vec::new();
        if parse_line(&mut parse, line.as_str()) {
            let texts = cut_line(&mut parse, line.as_str());
            let ghost tv = texts@.map_values(|t: String| t@);
            let ghost pieces = line_pieces(key, read, tried);
            let mut built: Vec<Piece> = Vec::new();
            let mut k: usize = 0;
            while k < texts.len()
                invariant
                    k <= texts.len(),
                    tv == texts@.map_values(|t: String| t@),
                    tv == cut_texts(key.0, key.1, read),
                    read.len() == i + 1,
                    pieces == line_pieces(key, read, tried),
                    parse.key() == key,
                    parse.read() == read,
                    parse.pieces() == Some(texts@.len()),
                    parse.tried() == tried_upto(tried, i as int, k as int),
                    built@.map_values(|p: Piece| p@) == pieces.take(k as int),
                decreases texts.len() - k,
            {
                proof {
                    lemma_tried_step(tried, i as int, k as int);
                }
                let scopes = if apply(&mut parse, k) {
                    Some(scope_names(&parse))
                } else {
                    None
                };
                let ghost before = built@.map_values(|p: Piece| p@);
                assert(texts@[k as int]@ == tv[k as int]);
                built.push(Piece { text: texts[k].clone(), scopes });
                assert(built@.map_values(|p: Piece| p@) =~= before.push(built@[k as int]@));
                assert(pieces.take(k + 1) =~= pieces.take(k as int).push(pieces[k as int]));
                k = k + 1;
            }
            let ghost view = built@.map_values(|p: Piece| p@);
            proof {
                assert(pieces.take(texts.len() as int) =~= pieces);
                assert forall|j: int| 0 <= j < view.len() implies (#[trigger] view[j]).0 == tv[j] by {
                    assert(view[j] == pieces[j]);
                }
                lemma_piece_text(view, tv);
                lemma_merged_within(view);
                assert(view == pieces);
            }
            tokens = tokens_of(&built);
            assert(tokens_view(tokens@) == merged(pieces));
            assert(parsed_rows(key, all, (i + 1) as nat).0 == parsed_rows(key, all, i as nat).0.push(merged(pieces)));
        } else {
            proof {
                lemma_pushed(tokens_view(tokens@), line@, Kind::Plain);
                assert(token_text(tokens_view(tokens@)) == Seq::<char>::empty());
                assert(tokens_view(tokens@) =~= Seq::<(Seq<char>, Kind)>::empty());
            }
            push(&mut tokens, line.as_str(), Kind::Plain);
            assert(parsed_rows(key, all, (i + 1) as nat).0 == parsed_rows(key, all, i as nat).0.push(
                pushed(Seq::empty(), all[i as int], Kind::Plain),
            ));
        }
        let ghost done = tokens_view(tokens@);
        assert(within(done, all[i as int]));
        let ghost before = lines_view(lines@);
        lines.push(tokens);
        assert(lines_view(lines@) =~= before.push(done));
        i = i + 1;
    }
    assert(all.take(rows.len() as int) =~= all);
    lines
}

} // verus!
