//! The parser: from the tokens of one document to its tree.
//!
//! The contract of the parser is the function [`parse_tokens`]: it says,
//! for every token sequence and every tree to build on, which tree comes
//! out or which errors are reported.

use crate::error::{error_views, ErrorKind, ErrorView, NcclError};
use crate::pair::{path_view, Pair};
use crate::token::{token_views, KindView, Token, TokenKind, TokenView};
use crate::tree::{
    leaf, lemma_ensure_path_adds_only_the_path, lemma_ensure_path_extends,
    lemma_extends_reflexive, lemma_extends_transitive, Path, Tree,
};
use vstd::prelude::*;

verus! {

/// Where a parse stands: the next token, the depth of the current line
/// and of the line before it, the keys chosen at each depth so far, the
/// current line, the tree built so far and the errors found so far.
pub ghost struct ParseState {
    pub at: int,
    pub indent: nat,
    pub prev_indent: nat,
    pub path: Path,
    pub line: nat,
    pub tree: Tree,
    pub errors: Seq<ErrorView>,
}

/// The key of the root of every tree parsed from scratch.
pub open spec fn top_level() -> Seq<char> {
    "__top_level__"@
}

/// The state in which every parse onto `tree` begins.
pub open spec fn start_state(tree: Tree) -> ParseState {
    ParseState {
        at: 0,
        indent: 0,
        prev_indent: 0,
        path: Seq::empty(),
        line: 1,
        tree,
        errors: Seq::empty(),
    }
}

/// The first index at or after `from` whose token is not an `Indent`, or
/// the number of tokens if the run of `Indent`s reaches the end.
pub open spec fn indent_run_end(tokens: Seq<TokenView>, from: int) -> int
    decreases tokens.len() - from,
{
    if 0 <= from < tokens.len() && tokens[from].kind is Indent {
        indent_run_end(tokens, from + 1)
    } else {
        from
    }
}

/// Whether the value at index `i` is the key of the short form
/// `key value` on one line: two tokens on, with neither an `Indent` nor a
/// `Newline` between, stands another value.
pub open spec fn inline_value_follows(tokens: Seq<TokenView>, i: int) -> bool {
    &&& i + 2 < tokens.len()
    &&& tokens[i + 2].kind is Name
    &&& !(tokens[i + 1].kind is Indent)
    &&& !(tokens[i + 1].kind is Newline)
}

/// Whether a line may stand at depth `depth` after one at depth `prev`:
/// the depth changes by one level at most.
pub open spec fn legal_step(prev: nat, depth: nat) -> bool {
    prev - 1 <= depth <= prev + 1
}

/// The error reported for a line whose depth is more than one level away
/// from that of the line before.
pub open spec fn indentation_failure(line: nat) -> ErrorView {
    ErrorView {
        kind: ErrorKind::IndentationError,
        message: "Incorrect level of indentation found"@,
        line,
    }
}

/// The path of a value `text` at depth `indent`, given the path so far:
/// the keys above that depth, then the value.
pub open spec fn path_to(path: Path, indent: nat, text: Seq<char>) -> Path {
    if indent <= path.len() {
        path.take(indent as int).push(text)
    } else {
        path.push(text)
    }
}

/// A value: its path is made to exist in the tree. The key of the short
/// form `key value` starts the path afresh for what follows it.
pub open spec fn step_name(tokens: Seq<TokenView>, st: ParseState, text: Seq<char>) -> ParseState {
    let path = path_to(st.path, st.indent, text);
    let tree = st.tree.ensure_path(path);
    if inline_value_follows(tokens, st.at) {
        ParseState { at: st.at + 1, path: Seq::empty(), indent: 0, tree, ..st }
    } else {
        ParseState { at: st.at + 1, path, tree, ..st }
    }
}

/// A run of `Indent`s: its length is the depth of the line, if that is
/// at most one level away from the depth of the line before. If not, an
/// error is recorded and the line is read at the depth of the line before.
pub open spec fn step_indent(tokens: Seq<TokenView>, st: ParseState) -> ParseState {
    let end = indent_run_end(tokens, st.at);
    let depth = (end - st.at) as nat;
    if legal_step(st.prev_indent, depth) {
        ParseState { at: end, indent: depth, ..st }
    } else {
        ParseState {
            at: end,
            indent: st.prev_indent,
            errors: st.errors.push(indentation_failure(st.line)),
            ..st
        }
    }
}

/// The end of a line: its depth becomes that of the line before.
pub open spec fn step_newline(st: ParseState) -> ParseState {
    ParseState { at: st.at + 1, prev_indent: st.indent, indent: 0, line: st.line + 1, ..st }
}

/// One step of the parse, decided by the token at `st.at`.
pub open spec fn parse_step(tokens: Seq<TokenView>, st: ParseState) -> ParseState
    recommends
        0 <= st.at < tokens.len(),
{
    match tokens[st.at].kind {
        KindView::Name(text) => step_name(tokens, st, text),
        KindView::Indent => step_indent(tokens, st),
        KindView::Newline => step_newline(st),
        KindView::Colon => ParseState { at: st.at + 1, ..st },
        KindView::EOF => st,
    }
}

/// A run of `Indent`s ends at or after its start and within the tokens.
pub proof fn lemma_indent_run_end(tokens: Seq<TokenView>, from: int)
    requires
        0 <= from <= tokens.len(),
    ensures
        from <= indent_run_end(tokens, from) <= tokens.len(),
        0 <= from < tokens.len() && tokens[from].kind is Indent ==> from < indent_run_end(
            tokens,
            from,
        ),
    decreases tokens.len() - from,
{
    if from < tokens.len() && tokens[from].kind is Indent {
        lemma_indent_run_end(tokens, from + 1);
    }
}

/// The parse from `st` on: step by step up to the first `EOF` or to the
/// end of the tokens.
pub open spec fn parse_run(tokens: Seq<TokenView>, st: ParseState) -> ParseState
    decreases tokens.len() - st.at,
{
    if 0 <= st.at < tokens.len() && !(tokens[st.at].kind is EOF) {
        proof {
            lemma_indent_run_end(tokens, st.at);
        }
        parse_run(tokens, parse_step(tokens, st))
    } else {
        st
    }
}

/// What a finished parse hands back: the tree if no error was found, else
/// all the errors, in the order in which they were found.
pub open spec fn outcome(st: ParseState) -> Result<Tree, Seq<ErrorView>> {
    if st.errors.len() == 0 {
        Ok(st.tree)
    } else {
        Err(st.errors)
    }
}

/// The tree that `tokens` describe, built onto `tree`, or the errors
/// found in them.
pub open spec fn parse_tokens(tokens: Seq<TokenView>, tree: Tree) -> Result<Tree, Seq<ErrorView>> {
    outcome(parse_run(tokens, start_state(tree)))
}

/// Whether the parse from `st` on reads a value whose path begins with
/// `path`: what the document, from there on, spells out under `path`.
pub open spec fn spells(tokens: Seq<TokenView>, st: ParseState, path: Path) -> bool
    decreases tokens.len() - st.at,
{
    0 <= st.at < tokens.len() && !(tokens[st.at].kind is EOF) && {
        ||| tokens[st.at].kind matches KindView::Name(text) && path.is_prefix_of(
            path_to(st.path, st.indent, text),
        )
        ||| {
            proof {
                lemma_indent_run_end(tokens, st.at);
            }
            spells(tokens, parse_step(tokens, st), path)
        }
    }
}

/// No step of the parse takes anything out of the tree.
pub proof fn lemma_step_extends(tokens: Seq<TokenView>, st: ParseState)
    requires
        0 <= st.at < tokens.len(),
    ensures
        parse_step(tokens, st).tree.extends(st.tree),
{
    lemma_extends_reflexive(st.tree);
    if let KindView::Name(text) = tokens[st.at].kind {
        lemma_ensure_path_extends(st.tree, path_to(st.path, st.indent, text));
    }
}

/// The tree a parse ends with holds all that the tree it began with
/// held, each node where it was.
pub proof fn lemma_run_extends(tokens: Seq<TokenView>, st: ParseState)
    ensures
        parse_run(tokens, st).tree.extends(st.tree),
    decreases tokens.len() - st.at,
{
    lemma_extends_reflexive(st.tree);
    if 0 <= st.at < tokens.len() && !(tokens[st.at].kind is EOF) {
        let next = parse_step(tokens, st);
        lemma_indent_run_end(tokens, st.at);
        lemma_step_extends(tokens, st);
        lemma_run_extends(tokens, next);
        lemma_extends_transitive(parse_run(tokens, st).tree, next.tree, st.tree);
    }
}

/// No step of the parse forgets an error: those found so far stay first
/// among those the parse ends with.
pub proof fn lemma_errors_are_kept(tokens: Seq<TokenView>, st: ParseState)
    ensures
        st.errors.is_prefix_of(parse_run(tokens, st).errors),
    decreases tokens.len() - st.at,
{
    if 0 <= st.at < tokens.len() && !(tokens[st.at].kind is EOF) {
        let next = parse_step(tokens, st);
        lemma_indent_run_end(tokens, st.at);
        lemma_errors_are_kept(tokens, next);
        assert(st.errors.is_prefix_of(next.errors));
    }
}

/// A line indented more than one level away from the line before it is
/// rejected, and the parse goes on. The error is recorded for the current
/// line; the line is read at the depth of the line before; the tree is
/// left alone; the parse continues behind the indentation, and whatever
/// it still finds, it ends in an error list that holds this error at its
/// place.
pub proof fn lemma_illegal_step_is_recorded(tokens: Seq<TokenView>, st: ParseState)
    requires
        0 <= st.at < tokens.len(),
        tokens[st.at].kind is Indent,
        !legal_step(st.prev_indent, (indent_run_end(tokens, st.at) - st.at) as nat),
    ensures
        ({
            let next = parse_step(tokens, st);
            let last = parse_run(tokens, st);
            &&& next.errors == st.errors.push(indentation_failure(st.line))
            &&& next.indent == st.prev_indent
            &&& next.tree == st.tree
            &&& st.at < next.at == indent_run_end(tokens, st.at)
            &&& last == parse_run(tokens, next)
            &&& outcome(last) == Err::<Tree, Seq<ErrorView>>(last.errors)
            &&& last.errors.len() > st.errors.len()
            &&& last.errors[st.errors.len() as int] == indentation_failure(st.line)
        }),
{
    let next = parse_step(tokens, st);
    lemma_indent_run_end(tokens, st.at);
    lemma_errors_are_kept(tokens, next);
    assert(next.errors[st.errors.len() as int] == indentation_failure(st.line));
}

/// The tree follows the document exactly. The paths of the tree a parse
/// ends with are those of the tree it began with and those that the
/// values of the document spell out, each value under the keys that its
/// depth places it under, and no others.
pub proof fn lemma_tree_is_what_is_spelled(tokens: Seq<TokenView>, st: ParseState, path: Path)
    ensures
        parse_run(tokens, st).tree.has_path(path) <==> st.tree.has_path(path) || spells(
            tokens,
            st,
            path,
        ),
    decreases tokens.len() - st.at,
{
    if 0 <= st.at < tokens.len() && !(tokens[st.at].kind is EOF) {
        let next = parse_step(tokens, st);
        lemma_indent_run_end(tokens, st.at);
        lemma_tree_is_what_is_spelled(tokens, next, path);
        if let KindView::Name(text) = tokens[st.at].kind {
            lemma_ensure_path_adds_only_the_path(
                st.tree,
                path_to(st.path, st.indent, text),
                path,
            );
        }
    }
}

/// A parser over the tokens of one document.
#[derive(Debug)]
pub struct Parser {
    current: usize,
    path: Vec<String>,
    indent: usize,
    prev_indent: usize,
    tokens: Vec<Token>,
    pair: Pair,
    line: u64,
    errors: Vec<NcclError>,
}

impl Parser {
    /// The tokens being parsed.
    pub closed spec fn tokens(&self) -> Seq<TokenView> {
        token_views(self.tokens@)
    }

    /// Where the parse stands.
    pub closed spec fn state(&self) -> ParseState {
        ParseState {
            at: self.current as int,
            indent: self.indent as nat,
            prev_indent: self.prev_indent as nat,
            path: path_view(self.path@),
            line: self.line as nat,
            tree: self.pair@,
            errors: error_views(self.errors@),
        }
    }

    /// The parser's invariant: the position lies within the tokens, and
    /// the lines counted do not outnumber the tokens read.
    pub closed spec fn wf(&self) -> bool {
        &&& self.current <= self.tokens.len() < u64::MAX
        &&& self.line <= self.current + 1
    }

    /// A parser that builds a tree from scratch, under a root keyed
    /// `__top_level__`.
    pub fn new(tokens: Vec<Token>) -> (parser: Parser)
        requires
            tokens.len() < u64::MAX,
        ensures
            parser.wf(),
            parser.tokens() == token_views(tokens@),
            parser.state() == start_state(leaf(top_level())),
    {
        Parser::new_with(tokens, Pair::new("__top_level__"))
    }

    /// A parser that builds onto `pair`: what the tokens describe is
    /// added to what `pair` already holds.
    pub fn new_with(tokens: Vec<Token>, pair: Pair) -> (parser: Parser)
        requires
            tokens.len() < u64::MAX,
        ensures
            parser.wf(),
            parser.tokens() == token_views(tokens@),
            parser.state() == start_state(pair@),
    {
        let parser = Parser {
            current: 0,
            path: Vec::new(),
            indent: 0,
            prev_indent: 0,
            tokens,
            pair,
            line: 1,
            errors: Vec::new(),
        };
        assert(parser.state().path =~= Seq::empty());
        assert(parser.state().errors =~= Seq::empty());
        parser
    }

    /// Parses the tokens: the tree, if no line is indented wrongly, else
    /// every indentation error found, in order.
    pub fn parse(self) -> (result: Result<Pair, Vec<NcclError>>)
        requires
            self.wf(),
        ensures
            match result {
                Ok(pair) => outcome(parse_run(self.tokens(), self.state())) == Ok::<
                    Tree,
                    Seq<ErrorView>,
                >(pair@),
                Err(errors) => outcome(parse_run(self.tokens(), self.state())) == Err::<
                    Tree,
                    Seq<ErrorView>,
                >(error_views(errors@)),
            },
    {
        let mut parser = self;
        let ghost tokens = parser.tokens();
        let ghost start = parser.state();
        loop
            invariant
                parser.wf(),
                parser.tokens() == tokens,
                parse_run(tokens, parser.state()) == parse_run(tokens, start),
            ensures
                parser.state() == parse_run(tokens, start),
            decreases parser.tokens.len() - parser.current,
        {
            if parser.current >= parser.tokens.len() {
                break ;
            }
            proof {
                lemma_indent_run_end(tokens, parser.current as int);
            }
            match &parser.tokens[parser.current].kind {
                TokenKind::Name(text) => {
                    let text = text.clone();
                    parser.value(text);
                },
                TokenKind::Indent => {
                    parser.indentation();
                },
                TokenKind::Newline => {
                    parser.prev_indent = parser.indent;
                    parser.indent = 0;
                    parser.current = parser.current + 1;
                    parser.line = parser.line + 1;
                },
                TokenKind::Colon => {
                    parser.current = parser.current + 1;
                },
                TokenKind::EOF => {
                    break ;
                },
            }
        }
        if parser.errors.len() == 0 {
            Ok(parser.pair)
        } else {
            Err(parser.errors)
        }
    }

    /// Takes the value `text` at the current token into the tree.
    fn value(&mut self, text: String)
        requires
            old(self).wf(),
            old(self).current < old(self).tokens.len(),
            old(self).tokens()[old(self).current as int].kind == KindView::Name(text@),
        ensures
            final(self).wf(),
            final(self).tokens() == old(self).tokens(),
            final(self).tokens.len() == old(self).tokens.len(),
            final(self).current == old(self).current + 1,
            final(self).state() == step_name(old(self).tokens(), old(self).state(), text@),
    {
        let ghost before = path_view(self.path@);
        if self.indent <= self.path.len() {
            self.path.truncate(self.indent);
        }
        self.path.push(text);
        assert(path_view(self.path@) =~= path_to(before, self.indent as nat, text@));
        self.pair.add_slice(self.path.as_slice());
        if self.inline_value_follows() {
            self.path.clear();
            self.indent = 0;
            assert(path_view(self.path@) =~= Seq::<Seq<char>>::empty());
        }
        self.current = self.current + 1;
    }

    /// Whether the value at the current token is the key of the short
    /// form `key value`.
    fn inline_value_follows(&self) -> (follows: bool)
        requires
            self.current < self.tokens.len(),
        ensures
            follows == inline_value_follows(self.tokens(), self.current as int),
    {
        let i = self.current;
        if self.tokens.len() - i > 2 {
            let after = match &self.tokens[i + 2].kind {
                TokenKind::Name(_) => true,
                _ => false,
            };
            let between = match &self.tokens[i + 1].kind {
                TokenKind::Indent => true,
                TokenKind::Newline => true,
                _ => false,
            };
            after && !between
        } else {
            false
        }
    }

    /// Reads the run of `Indent`s at the current token as the depth of
    /// the line, or records that the depth is not allowed there.
    fn indentation(&mut self)
        requires
            old(self).wf(),
            old(self).current < old(self).tokens.len(),
        ensures
            final(self).wf(),
            final(self).tokens() == old(self).tokens(),
            final(self).tokens.len() == old(self).tokens.len(),
            final(self).current >= old(self).current,
            final(self).state() == step_indent(old(self).tokens(), old(self).state()),
    {
        let ghost tokens = self.tokens();
        let ghost start = self.current as int;
        let mut end = self.current;
        while end < self.tokens.len() && self.is_indent(end)
            invariant
                start <= end <= self.tokens.len(),
                self.tokens() == tokens,
                indent_run_end(tokens, end as int) == indent_run_end(tokens, start),
            decreases self.tokens.len() - end,
        {
            end = end + 1;
        }
        let depth = end - self.current;
        self.current = end;
        let legal = if self.prev_indent > depth {
            self.prev_indent - depth <= 1
        } else {
            depth - self.prev_indent <= 1
        };
        if legal {
            self.indent = depth;
        } else {
            let error = NcclError::new(
                ErrorKind::IndentationError,
                "Incorrect level of indentation found",
                self.line,
            );
            self.errors.push(error);
            self.indent = self.prev_indent;
            assert(error_views(self.errors@) =~= error_views(old(self).errors@).push(error@));
        }
    }

    /// Whether the token at index `i` is an `Indent`.
    fn is_indent(&self, i: usize) -> (indent: bool)
        requires
            i < self.tokens.len(),
        ensures
            indent == (self.tokens()[i as int].kind is Indent),
    {
        match &self.tokens[i].kind {
            TokenKind::Indent => true,
            _ => false,
        }
    }
}

} // verus!
