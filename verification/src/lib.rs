//! A whitespace-structured configuration language: a scanner, an
//! indentation-tracking parser and the ordered keyed tree they build.
//!
//! A document is scanned into tokens and the tokens are parsed into a
//! tree, from scratch or onto a tree parsed before. [`parse_document`]
//! says what comes out, for every text.
//!
//! - [`scanner`]: text to tokens, and what a scan means ([`scanner::scan`]).
//! - [`parser`]: tokens to tree, and what a parse means
//!   ([`parser::parse_tokens`]).
//! - [`pair`]: the tree as it is held in memory, and its operations.
//! - [`tree`]: the tree as a mathematical value, which the contracts of
//!   the other modules speak of.
//! - [`token`], [`error`]: the small types that pass between them.
//! - [`text`]: characters, strings and line endings.

pub mod error;
pub mod pair;
pub mod parser;
pub mod scanner;
pub mod text;
pub mod token;
pub mod tree;

pub use error::{ErrorKind, ErrorView, NcclError};
pub use pair::Pair;
pub use parser::Parser;
pub use scanner::Scanner;
pub use token::{KindView, Token, TokenKind, TokenView};
pub use tree::Tree;

use error::error_views;
use parser::{
    lemma_run_extends, lemma_tree_is_what_is_spelled, parse_run, parse_tokens, spells,
    start_state, top_level,
};
use scanner::scan;
use text::{
    ends_lines_with_line_feeds, lemma_carriage_returns_are_dropped, lemma_unix_lines_len,
    with_carriage_returns,
};
use tree::{leaf, lemma_extends_has_path, Path};
use vstd::prelude::*;

verus! {

/// What parsing the document `text` onto the tree `base` gives: the tree,
/// or the one error that stopped the scan, or all the errors of the parse.
pub open spec fn parse_document(text: Seq<char>, base: Tree) -> Result<Tree, Seq<ErrorView>> {
    match scan(text) {
        Ok(tokens) => parse_tokens(tokens, base),
        Err(e) => Err(seq![e]),
    }
}

/// The tree follows the document exactly: where a document parses, the
/// paths of the tree that comes out are those of `base` and those that
/// the values of the document spell out, and no others.
pub proof fn lemma_document_is_what_it_spells(text: Seq<char>, base: Tree, path: Path)
    ensures
        parse_document(text, base) matches Ok(tree) ==> (tree.has_path(path) <==> base.has_path(
            path,
        ) || spells(scan(text)->Ok_0, start_state(base), path)),
{
    if let Ok(tokens) = scan(text) {
        lemma_tree_is_what_is_spelled(tokens, start_state(base), path);
    }
}

/// A document parsed onto a tree leaves what the tree held where it
/// was: the tree that comes out holds every node of `base` at its place,
/// with all its children, and so every path of `base`.
pub proof fn lemma_document_extends_base(text: Seq<char>, base: Tree)
    ensures
        parse_document(text, base) matches Ok(tree) ==> {
            &&& tree.extends(base)
            &&& forall|path: Path| base.has_path(path) ==> tree.has_path(path)
        },
{
    if let Ok(tokens) = scan(text) {
        let tree = parse_run(tokens, start_state(base)).tree;
        lemma_run_extends(tokens, start_state(base));
        assert forall|path: Path| base.has_path(path) implies tree.has_path(path) by {
            lemma_extends_has_path(tree, base, path);
        }
    }
}

/// A document reads the same whether its lines end in a line feed or in
/// a carriage return and a line feed: both ways give the same tokens,
/// and so the same tree or the same errors.
pub proof fn lemma_line_endings_are_equivalent(text: Seq<char>, base: Tree)
    requires
        ends_lines_with_line_feeds(text),
    ensures
        scan(with_carriage_returns(text)) == scan(text),
        parse_document(with_carriage_returns(text), base) == parse_document(text, base),
{
    lemma_carriage_returns_are_dropped(text);
}

/// The mathematical content of what a parse hands back.
pub open spec fn result_view(result: Result<Pair, Vec<NcclError>>) -> Result<
    Tree,
    Seq<ErrorView>,
> {
    match result {
        Ok(pair) => Ok(pair@),
        Err(errors) => Err(error_views(errors@)),
    }
}

/// Parses the document `text` into a tree of its own.
pub fn parse_string(text: &str) -> (result: Result<Pair, Vec<NcclError>>)
    requires
        text@.len() + 1 < u64::MAX,
    ensures
        result_view(result) == parse_document(text@, leaf(top_level())),
{
    parse_string_with(text, Pair::new("__top_level__"))
}

/// Parses the document `text` onto `pair`, a tree parsed before: what the
/// document describes is added to what `pair` holds.
pub fn parse_string_with(text: &str, pair: Pair) -> (result: Result<Pair, Vec<NcclError>>)
    requires
        text@.len() + 1 < u64::MAX,
    ensures
        result_view(result) == parse_document(text@, pair@),
{
    let mut scanner = Scanner::new(text.to_owned());
    proof {
        lemma_unix_lines_len(text@);
    }
    match scanner.scan_tokens() {
        Ok(tokens) => Parser::new_with(tokens, pair).parse(),
        Err(e) => {
            let mut errors: Vec<NcclError> = Vec::new();
            errors.push(e);
            assert(error_views(errors@) =~= seq![e@]);
            Err(errors)
        },
    }
}

} // verus!
