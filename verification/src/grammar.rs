//! The grammar set and its line-at-a-time parse, as the highlighter drives
//! them. Which grammar a name finds, what the parse makes of each line and
//! which scopes its changes leave open are the grammars' own: each is named
//! here as a function of what went into it, and the highlighter is proved
//! against those names.
//!
//! A parse can only be started from a grammar found in a set, and it always
//! parses against that same set: the state's contexts are indexes into the
//! set it was made from, and no other set can be handed to it.

use vstd::prelude::*;

verus! {

broadcast use vstd::string::group_string_axioms;

#[verifier::external_type_specification]
#[verifier::external_body]
pub struct ExSyntaxSet(syntect::parsing::SyntaxSet);

#[verifier::external_type_specification]
#[verifier::external_body]
pub struct ExSyntaxReference(syntect::parsing::SyntaxReference);

#[verifier::external_type_specification]
#[verifier::external_body]
pub struct ExParseState(syntect::parsing::ParseState);

#[verifier::external_type_specification]
#[verifier::external_body]
pub struct ExScopeStack(syntect::parsing::ScopeStack);

#[verifier::external_type_specification]
#[verifier::external_body]
pub struct ExScopeStackOp(syntect::parsing::ScopeStackOp);

/// Whether the grammar set has a grammar claiming `extension`.
pub uninterp spec fn extension_known(extension: Seq<char>) -> bool;

/// Whether the grammar set has a grammar that `token` names, by extension or
/// by the grammar's name.
pub uninterp spec fn token_known(token: Seq<char>) -> bool;

/// Whether the parse of the grammar found by extension (or by token) with
/// `named`, fed `read` one line after another from its start, succeeds on the
/// last of them.
pub uninterp spec fn parses(by_extension: bool, named: Seq<char>, read: Seq<Seq<char>>) -> bool;

/// The texts the last line of `read` is cut into where the scope changes
/// its parse reported apply, in order.
pub uninterp spec fn cut_texts(by_extension: bool, named: Seq<char>, read: Seq<Seq<char>>) -> Seq<Seq<char>>;

/// Whether the last of the scope changes `tried` picks could be made to the
/// scope stack, after the ones before it. Each pick is a line of `read`
/// and the index of a piece its cut gave, whose change it is.
pub uninterp spec fn applies(by_extension: bool, named: Seq<char>, read: Seq<Seq<char>>, tried: Seq<(int, int)>) -> bool;

/// The names of the scopes open, outermost first, once every change `tried`
/// picks has been put to a fresh scope stack in turn.
pub uninterp spec fn scopes_after(by_extension: bool, named: Seq<char>, read: Seq<Seq<char>>, tried: Seq<(int, int)>) -> Seq<Seq<char>>;

/// The grammar set every grammar is looked up in.
pub struct Grammars {
    set: syntect::parsing::SyntaxSet,
}

/// A grammar of a set, with how it was found: by a file's extension, or by a
/// language's token, and the text it was found by.
pub struct Grammar<'a> {
    set: &'a syntect::parsing::SyntaxSet,
    syntax: &'a syntect::parsing::SyntaxReference,
    by_extension: bool,
    named: String,
}

impl<'a> View for Grammar<'a> {
    type V = (bool, Seq<char>);

    closed spec fn view(&self) -> (bool, Seq<char>) {
        (self.by_extension, self.named@)
    }
}

/// A parse of one grammar, line after line, with the scope stack its changes
/// are put to. What it has been fed is kept beside it as ghost state: the
/// lines read, which of the cut pieces' changes have been tried on the
/// stack, and which line the pieces kept are of. Each call below that feeds
/// the parse or the stack records what it fed there, and nothing else writes
/// that history.
pub struct Parse<'a> {
    grammar: &'a Grammar<'a>,
    state: syntect::parsing::ParseState,
    stack: syntect::parsing::ScopeStack,
    ops: Vec<(usize, syntect::parsing::ScopeStackOp)>,
    cut: Vec<syntect::parsing::ScopeStackOp>,
    read: Ghost<Seq<Seq<char>>>,
    tried: Ghost<Seq<(int, int)>>,
    cut_for: Ghost<int>,
}

impl<'a> Parse<'a> {
    /// The grammar being parsed: how it was found, and by what.
    pub closed spec fn key(&self) -> (bool, Seq<char>) {
        self.grammar@
    }

    /// The lines fed to the parse so far.
    pub closed spec fn read(&self) -> Seq<Seq<char>> {
        self.read@
    }

    /// The changes put to the scope stack so far, each a line and a piece.
    pub closed spec fn tried(&self) -> Seq<(int, int)> {
        self.tried@
    }

    /// Whether the scope changes kept from the last parse are placed in `line`.
    pub closed spec fn placed(&self, line: Seq<char>) -> bool {
        placed_in(self.ops@, line)
    }

    /// How many pieces the last line read was cut into, once it has been cut.
    pub closed spec fn pieces(&self) -> Option<nat> {
        if self.cut_for@ == self.read@.len() { Some(self.cut@.len()) } else { None }
    }
}

/// Whether `b` bytes into `line` is where one of its characters starts, or
/// its end.
pub open spec fn at_boundary(line: Seq<char>, b: int) -> bool {
    exists|k: int| 0 <= k <= line.len() && #[trigger] crate::text::byte_len(line.take(k)) == b
}

/// Scope changes placed in a line: in order of their byte positions, each
/// within the line and where a character starts or the line ends.
pub open spec fn placed_in(ops: Seq<(usize, syntect::parsing::ScopeStackOp)>, line: Seq<char>) -> bool {
    &&& forall|i: int, j: int| 0 <= i < j < ops.len() ==> (#[trigger] ops[i]).0 <= (#[trigger] ops[j]).0
    &&& forall|i: int| 0 <= i < ops.len() ==> at_boundary(line, (#[trigger] ops[i]).0 as int)
}

/// The texts of a line's pieces, one after another.
pub open spec fn joined(texts: Seq<Seq<char>>) -> Seq<char>
    decreases texts.len(),
{
    if texts.len() == 0 { Seq::empty() } else { joined(texts.drop_last()) + texts.last() }
}

/// `two_face::syntax::extra_no_newlines`: `bat`'s grammar set, the variant a
/// line-at-a-time parse needs. Nothing is claimed of it.
#[verifier::external_body]
pub(crate) fn grammars() -> (found: Grammars) {
    Grammars { set: two_face::syntax::extra_no_newlines() }
}

/// `SyntaxSet::find_syntax_by_extension`: the grammar of the set claiming
/// `extension`, if one does, which is then known by that extension.
#[verifier::external_body]
pub(crate) fn by_extension<'a>(grammars: &'a Grammars, extension: String) -> (found: Option<Grammar<'a>>)
    ensures
        found.is_some() == extension_known(extension@),
        found matches Some(grammar) ==> grammar@ == (true, extension@),
{
    match grammars.set.find_syntax_by_extension(extension.as_str()) {
        Some(syntax) => Some(Grammar { set: &grammars.set, syntax, by_extension: true, named: extension }),
        None => None,
    }
}

/// `SyntaxSet::find_syntax_by_token`: the grammar of the set that `token`
/// names, if one does, which is then known by that token.
#[verifier::external_body]
pub(crate) fn by_token<'a>(grammars: &'a Grammars, token: String) -> (found: Option<Grammar<'a>>)
    ensures
        found.is_some() == token_known(token@),
        found matches Some(grammar) ==> grammar@ == (false, token@),
{
    match grammars.set.find_syntax_by_token(token.as_str()) {
        Some(syntax) => Some(Grammar { set: &grammars.set, syntax, by_extension: false, named: token }),
        None => None,
    }
}

/// `ParseState::new`: a parse at the start of a grammar.
#[verifier::external_body]
fn new_state(syntax: &syntect::parsing::SyntaxReference) -> (state: syntect::parsing::ParseState) {
    syntect::parsing::ParseState::new(syntax)
}

/// `ScopeStack::new`: no scope open.
#[verifier::external_body]
fn new_stack() -> (stack: syntect::parsing::ScopeStack) {
    syntect::parsing::ScopeStack::new()
}

/// A parse at the start of `grammar`, fed nothing yet, with no scope open.
pub(crate) fn start<'a>(grammar: &'a Grammar<'a>) -> (parse: Parse<'a>)
    ensures
        parse.key() == grammar@,
        parse.read() == Seq::<Seq<char>>::empty(),
        parse.tried() == Seq::<(int, int)>::empty(),
        parse.pieces() is None,
{
    Parse {
        grammar,
        state: new_state(grammar.syntax),
        stack: new_stack(),
        ops: Vec::new(),
        cut: Vec::new(),
        read: Ghost(Seq::empty()),
        tried: Ghost(Seq::empty()),
        cut_for: Ghost(-1),
    }
}

/// `ParseState::parse_line`, against the set the parse's grammar came from:
/// `line` fed to the parse, whose state carries on to the next line, and
/// whether the grammar could parse it. The scope changes it reports are kept
/// for the cut; its documentation gives them in order of the byte position
/// they apply at, and the positions are where the grammar's patterns matched
/// in the line, so each lies within it, where a character starts or at its
/// end. None are kept where the parse failed.
#[verifier::external_body]
pub(crate) fn parse_line(parse: &mut Parse, line: &str) -> (parsed: bool)
    ensures
        final(parse).key() == old(parse).key(),
        final(parse).read() == old(parse).read().push(line@),
        final(parse).tried() == old(parse).tried(),
        final(parse).pieces() is None,
        parsed == parses(old(parse).key().0, old(parse).key().1, final(parse).read()),
        final(parse).placed(line@),
{
    match parse.state.parse_line(line, parse.grammar.set) {
        Ok(ops) => {
            parse.ops = ops;
            true
        },
        Err(_) => {
            parse.ops = Vec::new();
            false
        },
    }
}

/// `ScopeRegionIterator`: the last line read cut where its scope changes
/// apply, each piece's text in order, with the change heading each piece kept
/// for the stack. The pieces run from the start of the line to its end, each
/// from where the last stopped to the next change's position, so their texts
/// put back together are the line. It slices the line at each position, so
/// it is given only changes placed in that line.
#[verifier::external_body]
pub(crate) fn cut_line(parse: &mut Parse, line: &str) -> (texts: Vec<String>)
    requires
        old(parse).read().len() > 0,
        line@ == old(parse).read().last(),
        old(parse).placed(line@),
    ensures
        final(parse).key() == old(parse).key(),
        final(parse).read() == old(parse).read(),
        final(parse).tried() == old(parse).tried(),
        final(parse).pieces() == Some(texts@.len()),
        texts@.map_values(|t: String| t@) == cut_texts(old(parse).key().0, old(parse).key().1, old(parse).read()),
        joined(texts@.map_values(|t: String| t@)) == line@,
{
    let (texts, cut): (Vec<String>, Vec<syntect::parsing::ScopeStackOp>) =
        syntect::easy::ScopeRegionIterator::new(&parse.ops, line).map(|(text, op)| (text.to_string(), op.clone())).unzip();
    parse.cut = cut;
    texts
}

/// `ScopeStack::apply`: the change heading piece `index` of the last line's
/// cut put to the stack, and whether the stack could make it.
#[verifier::external_body]
pub(crate) fn apply(parse: &mut Parse, index: usize) -> (applied: bool)
    requires
        old(parse).pieces() matches Some(n) && index < n,
    ensures
        final(parse).key() == old(parse).key(),
        final(parse).read() == old(parse).read(),
        final(parse).pieces() == old(parse).pieces(),
        final(parse).tried() == old(parse).tried().push((old(parse).read().len() - 1, index as int)),
        applied == applies(old(parse).key().0, old(parse).key().1, old(parse).read(), final(parse).tried()),
{
    parse.stack.apply(&parse.cut[index]).is_ok()
}

/// `Scope::build_string` over the stack: the names of the scopes open,
/// outermost first.
#[verifier::external_body]
pub(crate) fn scope_names(parse: &Parse) -> (names: Vec<String>)
    ensures
        names@.map_values(|n: String| n@) == scopes_after(parse.key().0, parse.key().1, parse.read(), parse.tried()),
{
    parse.stack.scopes.iter().map(|scope| scope.build_string()).collect()
}

} // verus!
