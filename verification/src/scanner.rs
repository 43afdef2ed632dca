//! The lexical scanner: from the text of one document to its tokens.
//!
//! The contract of the scanner is the function [`scan`]: it says, for
//! every text, which tokens come out or which single error stops the scan.

use crate::error::{ErrorKind, ErrorView, NcclError};
use crate::text::{chars_of, lemma_unix_lines_len, push_char, string_of, to_unix_lines, unix_lines};
use crate::token::{token_views, KindView, Token, TokenKind, TokenView};
use vstd::prelude::*;

verus! {

/// How a document indents. The first indentation met decides it: tabs, one
/// per level, or runs of spaces of one fixed width.
#[derive(Debug, Clone, Copy, PartialEq, Eq, Structural)]
pub enum IndentStyle {
    Neither,
    Tabs,
    Spaces(usize),
}

/// Where a scan stands: the next character to read, the current line, the
/// indentation style fixed so far and the tokens already produced.
pub ghost struct ScanState {
    pub pos: int,
    pub line: nat,
    pub style: IndentStyle,
    pub tokens: Seq<TokenView>,
}

/// The state in which every scan begins.
pub open spec fn initial_state() -> ScanState {
    ScanState { pos: 0, line: 1, style: IndentStyle::Neither, tokens: Seq::empty() }
}

/// The first index at or after `from` that does not hold `c`, or the
/// length of `src` if the run of `c` reaches the end.
pub open spec fn run_end(src: Seq<char>, from: int, c: char) -> int
    decreases src.len() - from,
{
    if 0 <= from < src.len() && src[from] == c {
        run_end(src, from + 1, c)
    } else {
        from
    }
}

/// The first index at or after `from` that holds `c`, or the length of
/// `src` if there is none.
pub open spec fn find(src: Seq<char>, from: int, c: char) -> int
    decreases src.len() - from,
{
    if 0 <= from < src.len() && src[from] != c {
        find(src, from + 1, c)
    } else {
        from
    }
}

/// Whether an escape sequence begins at `i`: a backslash followed by a
/// double quote or by the letter `n`.
pub open spec fn escape_at(src: Seq<char>, i: int) -> bool {
    &&& 0 <= i
    &&& i + 1 < src.len()
    &&& src[i] == '\\'
    &&& (src[i + 1] == '"' || src[i + 1] == 'n')
}

/// The index of the first double quote at or after `from` that no
/// backslash escapes, or the length of `src` if there is none.
pub open spec fn closing_quote(src: Seq<char>, from: int) -> int
    decreases src.len() - from,
{
    if 0 <= from < src.len() && src[from] != '"' {
        if escape_at(src, from) {
            closing_quote(src, from + 2)
        } else {
            closing_quote(src, from + 1)
        }
    } else {
        from
    }
}

/// The text a quoted literal stands for: `\"` reads as a double quote,
/// `\n` as a line feed, every other character as itself.
pub open spec fn unescape(body: Seq<char>) -> Seq<char>
    decreases body.len(),
{
    if body.len() == 0 {
        body
    } else if escape_at(body, 0) {
        seq![if body[1] == 'n' { '\n' } else { '"' }] + unescape(body.skip(2))
    } else {
        seq![body[0]] + unescape(body.skip(1))
    }
}

/// How many line feeds `body` holds.
pub open spec fn line_feeds(body: Seq<char>) -> nat
    decreases body.len(),
{
    if body.len() == 0 {
        0
    } else {
        (if body[0] == '\n' { 1nat } else { 0nat }) + line_feeds(body.skip(1))
    }
}

/// The error of kind `kind` that says `message` about line `line`.
pub open spec fn failure(kind: ErrorKind, message: &str, line: nat) -> ErrorView {
    ErrorView { kind, message: message@, line }
}

impl ScanState {
    /// This state moved to `pos`.
    pub open spec fn at(self, pos: int) -> ScanState {
        ScanState { pos, ..self }
    }

    /// This state with one more token, found on the current line.
    pub open spec fn emit(self, kind: KindView, lexeme: Seq<char>) -> ScanState {
        ScanState { tokens: self.tokens.push(TokenView { kind, lexeme, line: self.line }), ..self }
    }
}

/// A colon: a `Colon` token, then the spaces behind it are skipped. A
/// colon with nothing but spaces up to the end of the text is an error.
pub open spec fn scan_colon(src: Seq<char>, st: ScanState) -> Result<ScanState, ErrorView> {
    let end = run_end(src, st.pos + 1, ' ');
    if end >= src.len() {
        Err(failure(ErrorKind::ParseError, "Expected schema name, found EOF", st.line))
    } else {
        Ok(st.emit(KindView::Colon, src.subrange(st.pos, st.pos + 1)).at(end))
    }
}

/// Spaces: one `Indent` token for one level. The first run of spaces of
/// the document is one level, and its width is the width of every level
/// after it: from then on a level is that many spaces, and a run that
/// ends short of it is an error. (No scan fixes a width of zero; a state
/// that holds one accepts no spaces.)
pub open spec fn scan_spaces(src: Seq<char>, st: ScanState) -> Result<ScanState, ErrorView> {
    let run = run_end(src, st.pos, ' ') - st.pos;
    match st.style {
        IndentStyle::Tabs => Err(
            failure(ErrorKind::IndentationError, "Expected tabs, found spaces", st.line),
        ),
        IndentStyle::Spaces(fixed) if run < fixed || fixed == 0 => Err(
            failure(ErrorKind::IndentationError, "incorrect number of spaces", st.line),
        ),
        _ => {
            let width = match st.style {
                IndentStyle::Spaces(fixed) => fixed as int,
                _ => run,
            };
            let end = st.pos + width;
            if end >= src.len() {
                Err(failure(ErrorKind::ParseError, "Expected value, found EOF", st.line))
            } else {
                Ok(
                    ScanState { style: IndentStyle::Spaces(width as usize), ..st }.emit(
                        KindView::Indent,
                        src.subrange(st.pos, end),
                    ).at(end),
                )
            }
        },
    }
}

/// A tab: one `Indent` token, unless the document indents with spaces.
pub open spec fn scan_tab(src: Seq<char>, st: ScanState) -> Result<ScanState, ErrorView> {
    match st.style {
        IndentStyle::Spaces(_) => Err(
            failure(ErrorKind::IndentationError, "Expected spaces, found tabs", st.line),
        ),
        _ => Ok(
            ScanState { style: IndentStyle::Tabs, ..st }.emit(
                KindView::Indent,
                src.subrange(st.pos, st.pos + 1),
            ).at(st.pos + 1),
        ),
    }
}

/// A quoted literal: a `Name` token holding the unescaped text between
/// the quotes. Line feeds inside the quotes count as lines.
pub open spec fn scan_string(src: Seq<char>, st: ScanState) -> Result<ScanState, ErrorView> {
    let close = closing_quote(src, st.pos + 1);
    let body = src.subrange(st.pos + 1, close);
    let line = st.line + line_feeds(body);
    if close >= src.len() {
        Err(failure(ErrorKind::ParseError, "Unterminated string", line))
    } else {
        let text = unescape(body);
        Ok(ScanState { line, ..st }.emit(KindView::Name(text), text).at(close + 1))
    }
}

/// A bare value: a `Name` token holding everything up to the end of the
/// line, spaces included.
pub open spec fn scan_name(src: Seq<char>, st: ScanState) -> ScanState {
    let end = find(src, st.pos + 1, '\n');
    let text = src.subrange(st.pos, end);
    st.emit(KindView::Name(text), text).at(end)
}

/// One step of the scan, decided by the character at `st.pos`.
pub open spec fn scan_step(src: Seq<char>, st: ScanState) -> Result<ScanState, ErrorView>
    recommends
        0 <= st.pos < src.len(),
{
    let c = src[st.pos];
    if c == ':' {
        scan_colon(src, st)
    } else if c == '#' {
        Ok(st.at(find(src, st.pos + 1, '\n')))
    } else if c == ' ' {
        scan_spaces(src, st)
    } else if c == '\t' {
        scan_tab(src, st)
    } else if c == '\n' {
        Ok(
            ScanState { line: st.line + 1, ..st.emit(KindView::Newline, src.subrange(st.pos, st.pos + 1)) }.at(
                st.pos + 1,
            ),
        )
    } else if c == '"' {
        scan_string(src, st)
    } else {
        Ok(scan_name(src, st))
    }
}

/// A run of `c` ends at or after its start and within the text.
pub proof fn lemma_run_end(src: Seq<char>, from: int, c: char)
    requires
        0 <= from <= src.len(),
    ensures
        from <= run_end(src, from, c) <= src.len(),
        forall|i: int| from <= i < run_end(src, from, c) ==> src[i] == c,
        run_end(src, from, c) < src.len() ==> src[run_end(src, from, c)] != c,
    decreases src.len() - from,
{
    if from < src.len() && src[from] == c {
        lemma_run_end(src, from + 1, c);
    }
}

/// A search for `c` ends at or after its start and within the text.
pub proof fn lemma_find(src: Seq<char>, from: int, c: char)
    requires
        0 <= from <= src.len(),
    ensures
        from <= find(src, from, c) <= src.len(),
        forall|i: int| from <= i < find(src, from, c) ==> src[i] != c,
        find(src, from, c) < src.len() ==> src[find(src, from, c)] == c,
    decreases src.len() - from,
{
    if from < src.len() && src[from] != c {
        lemma_find(src, from + 1, c);
    }
}

/// The closing quote lies at or after the start of the search and within
/// the text.
pub proof fn lemma_closing_quote(src: Seq<char>, from: int)
    requires
        0 <= from <= src.len(),
    ensures
        from <= closing_quote(src, from) <= src.len(),
        closing_quote(src, from) < src.len() ==> src[closing_quote(src, from)] == '"',
    decreases src.len() - from,
{
    if from < src.len() && src[from] != '"' {
        if escape_at(src, from) {
            lemma_closing_quote(src, from + 2);
        } else {
            lemma_closing_quote(src, from + 1);
        }
    }
}

/// A text holds no more line feeds than characters.
pub proof fn lemma_line_feeds_len(body: Seq<char>)
    ensures
        line_feeds(body) <= body.len(),
    decreases body.len(),
{
    if body.len() > 0 {
        lemma_line_feeds_len(body.skip(1));
    }
}

/// Every successful step reads at least one character, stays within the
/// text, adds at most one token and at most as many lines as it read
/// characters.
pub proof fn lemma_step_advances(src: Seq<char>, st: ScanState)
    requires
        0 <= st.pos < src.len(),
    ensures
        scan_step(src, st) matches Ok(next) ==> {
            &&& st.pos < next.pos <= src.len()
            &&& next.tokens.len() <= st.tokens.len() + 1
            &&& st.line <= next.line <= st.line + (next.pos - st.pos)
        },
{
    lemma_run_end(src, st.pos + 1, ' ');
    lemma_run_end(src, st.pos, ' ');
    lemma_find(src, st.pos + 1, '\n');
    lemma_closing_quote(src, st.pos + 1);
    lemma_line_feeds_len(src.subrange(st.pos + 1, closing_quote(src, st.pos + 1)));
}

/// The scan from `st` to the end of `src`: the tokens of the whole
/// document, closed by `EOF`, or the first error met.
pub open spec fn scan_run(src: Seq<char>, st: ScanState) -> Result<Seq<TokenView>, ErrorView>
    decreases src.len() - st.pos,
{
    if 0 <= st.pos < src.len() {
        match scan_step(src, st) {
            Err(e) => Err(e),
            Ok(next) => {
                proof {
                    lemma_step_advances(src, st);
                }
                scan_run(src, next)
            },
        }
    } else {
        Ok(st.tokens.push(TokenView { kind: KindView::EOF, lexeme: Seq::empty(), line: st.line }))
    }
}

/// The state in which a step that fails leaves the scan. Nothing is
/// added to the tokens and the style stays as it was, with one
/// exception: a colon with nothing behind it has its token added and
/// the spaces behind it read before the end of the text is found. A
/// literal that is not closed is read to the end of the text, lines
/// counted; spaces are read as far as they go, or as far as a level is
/// wide; of anything else, one character.
pub open spec fn scan_stop(src: Seq<char>, st: ScanState) -> ScanState
    recommends
        0 <= st.pos < src.len(),
        scan_step(src, st) is Err,
{
    let c = src[st.pos];
    if c == ':' {
        st.emit(KindView::Colon, src.subrange(st.pos, st.pos + 1)).at(src.len() as int)
    } else if c == '"' {
        ScanState {
            line: st.line + line_feeds(src.subrange(st.pos + 1, src.len() as int)),
            ..st
        }.at(src.len() as int)
    } else if c == ' ' {
        let run = run_end(src, st.pos, ' ') - st.pos;
        match st.style {
            IndentStyle::Spaces(fixed) if 0 < fixed <= run => st.at(st.pos + fixed),
            IndentStyle::Spaces(fixed) if 0 < fixed => st.at(st.pos + run),
            IndentStyle::Neither => st.at(st.pos + run),
            _ => st.at(st.pos + 1),
        }
    } else {
        st.at(st.pos + 1)
    }
}

/// The state in which the scan from `st` on leaves the scanner: at the
/// end of the text with `EOF` added, or where the step that failed
/// stopped.
pub open spec fn scan_rest(src: Seq<char>, st: ScanState) -> ScanState
    decreases src.len() - st.pos,
{
    if 0 <= st.pos < src.len() {
        match scan_step(src, st) {
            Err(_) => scan_stop(src, st),
            Ok(next) => {
                proof {
                    lemma_step_advances(src, st);
                }
                scan_rest(src, next)
            },
        }
    } else {
        st.emit(KindView::EOF, Seq::empty())
    }
}

/// The tokens of the document `text`, or the error that stops the scan.
/// Line endings are read as line feeds alone, whichever way they are written.
pub open spec fn scan(text: Seq<char>) -> Result<Seq<TokenView>, ErrorView> {
    scan_run(unix_lines(text), initial_state())
}

/// From anywhere inside a run of `c`, the run ends where it ends.
pub proof fn lemma_run_end_within(src: Seq<char>, from: int, mid: int, c: char)
    requires
        0 <= from <= mid <= run_end(src, from, c),
    ensures
        run_end(src, mid, c) == run_end(src, from, c),
    decreases mid - from,
{
    if from < mid {
        lemma_run_end_within(src, from + 1, mid, c);
    }
}

/// The first spaces of a document fix its indentation: the whole run is
/// one level, and its width is the width of a level from then on.
pub proof fn lemma_first_spaces_fix_width(src: Seq<char>, st: ScanState)
    requires
        0 <= st.pos < src.len(),
        src[st.pos] == ' ',
        st.style == IndentStyle::Neither,
    ensures
        scan_step(src, st) matches Ok(next) ==> {
            &&& next.pos == run_end(src, st.pos, ' ')
            &&& next.style == IndentStyle::Spaces((next.pos - st.pos) as usize)
        },
{
}

/// Once a document indents by tabs or by spaces of some width, it keeps
/// to that: no later step of the scan changes the style.
pub proof fn lemma_style_is_kept(src: Seq<char>, st: ScanState)
    requires
        0 <= st.pos < src.len(),
        st.style != IndentStyle::Neither,
    ensures
        scan_step(src, st) matches Ok(next) ==> next.style == st.style,
{
}

/// In a document that indents by `n` spaces, a run of spaces whose
/// width is not a multiple of `n` stops the scan with an indentation
/// error.
pub proof fn lemma_uneven_spaces_fail(src: Seq<char>, st: ScanState, n: usize)
    requires
        0 <= st.pos < src.len(),
        src[st.pos] == ' ',
        st.style == IndentStyle::Spaces(n),
        n > 0,
        (run_end(src, st.pos, ' ') - st.pos) % (n as int) != 0,
    ensures
        scan_run(src, st) matches Err(e) && e.kind == ErrorKind::IndentationError,
    decreases src.len() - st.pos,
{
    let end = run_end(src, st.pos, ' ');
    let run = end - st.pos;
    lemma_run_end(src, st.pos, ' ');
    if run >= n {
        assert(run != n) by (nonlinear_arith)
            requires
                run % (n as int) != 0,
                n > 0,
        ;
        let next = scan_step(src, st)->Ok_0;
        assert(next.pos == st.pos + n);
        lemma_run_end_within(src, st.pos, next.pos, ' ');
        assert((run - n) % (n as int) != 0) by (nonlinear_arith)
            requires
                run % (n as int) != 0,
                n > 0,
        ;
        lemma_uneven_spaces_fail(src, next, n);
    }
}

/// A tab in a document that indents by spaces stops the scan with an
/// indentation error.
pub proof fn lemma_tab_among_spaces_fails(src: Seq<char>, st: ScanState)
    requires
        0 <= st.pos < src.len(),
        src[st.pos] == '\t',
        st.style is Spaces,
    ensures
        scan_run(src, st) matches Err(e) && e.kind == ErrorKind::IndentationError,
{
}

/// A space in a document that indents by tabs stops the scan with an
/// indentation error.
pub proof fn lemma_space_among_tabs_fails(src: Seq<char>, st: ScanState)
    requires
        0 <= st.pos < src.len(),
        src[st.pos] == ' ',
        st.style == IndentStyle::Tabs,
    ensures
        scan_run(src, st) matches Err(e) && e.kind == ErrorKind::IndentationError,
{
}

/// A scanner over one document. Its indentation style is its own: it
/// starts undecided for every document.
pub struct Scanner {
    source: Vec<char>,
    tokens: Vec<Token>,
    current: usize,
    line: u64,
    indent: IndentStyle,
}

impl Scanner {
    /// The text being scanned, with line endings as line feeds alone.
    pub closed spec fn source(&self) -> Seq<char> {
        self.source@
    }

    /// Where the scan stands.
    pub closed spec fn state(&self) -> ScanState {
        ScanState {
            pos: self.current as int,
            line: self.line as nat,
            style: self.indent,
            tokens: token_views(self.tokens@),
        }
    }

    /// The scanner's invariant: the position lies within the text, and
    /// the lines counted do not outnumber the characters read.
    pub closed spec fn wf(&self) -> bool {
        &&& self.current <= self.source.len() < u64::MAX
        &&& self.line <= self.current + 1
    }

    /// A scanner at the start of `source`.
    pub fn new(source: String) -> (scanner: Scanner)
        requires
            source@.len() < u64::MAX,
        ensures
            scanner.wf(),
            scanner.source() == unix_lines(source@),
            scanner.state() == initial_state(),
    {
        let chars = chars_of(source.as_str());
        let lines = to_unix_lines(&chars);
        proof {
            lemma_unix_lines_len(source@);
        }
        let scanner = Scanner {
            source: lines,
            tokens: Vec::new(),
            current: 0,
            line: 1,
            indent: IndentStyle::Neither,
        };
        assert(scanner.state().tokens =~= Seq::empty());
        scanner
    }

    /// Scans what is left of the text and returns every token produced,
    /// closed by `EOF`, or the first error met. The scanner keeps the
    /// tokens it returns; after an error it stands where the failing step
    /// stopped.
    pub fn scan_tokens(&mut self) -> (result: Result<Vec<Token>, NcclError>)
        requires
            old(self).wf(),
        ensures
            final(self).wf(),
            final(self).source() == old(self).source(),
            final(self).state() == scan_rest(old(self).source(), old(self).state()),
            match result {
                Ok(tokens) => {
                    &&& token_views(tokens@) == final(self).state().tokens
                    &&& scan_run(old(self).source(), old(self).state()) == Ok::<
                        Seq<TokenView>,
                        ErrorView,
                    >(token_views(tokens@))
                    &&& tokens.len() <= old(self).state().tokens.len() + (old(self).source().len()
                        - old(self).state().pos) + 1
                },
                Err(e) => scan_run(old(self).source(), old(self).state()) == Err::<
                    Seq<TokenView>,
                    ErrorView,
                >(e@),
            },
    {
        while !self.is_at_end()
            invariant
                self.wf(),
                self.source@ == old(self).source@,
                scan_run(self.source@, self.state()) == scan_run(
                    old(self).source@,
                    old(self).state(),
                ),
                scan_rest(self.source@, self.state()) == scan_rest(
                    old(self).source@,
                    old(self).state(),
                ),
                self.tokens.len() + (self.source.len() - self.current) <= old(self).tokens.len() + (
                old(self).source.len() - old(self).current),
            decreases self.source.len() - self.current,
        {
            match self.scan_token() {
                Ok(_) => {},
                Err(e) => {
                    return Err(e);
                },
            }
        }
        let ghost end = self.state();
        self.add_token_string(TokenKind::EOF, String::new());
        let tokens = self.tokens.clone();
        proof {
            assert(tokens@ =~= self.tokens@);
            assert(token_views(tokens@) == end.emit(KindView::EOF, Seq::empty()).tokens);
        }
        Ok(tokens)
    }

    /// Reads one token, comment or piece of indentation. Where the step
    /// fails, no token has been added, but for a colon with nothing behind
    /// it: its token is added and the spaces behind it are read before
    /// the end of the text is found.
    fn scan_token(&mut self) -> (result: Result<(), NcclError>)
        requires
            old(self).wf(),
            old(self).current < old(self).source.len(),
        ensures
            final(self).wf(),
            final(self).source@ == old(self).source@,
            final(self).current > old(self).current,
            final(self).tokens.len() <= old(self).tokens.len() + 1,
            result is Err ==> token_views(final(self).tokens@) == (if old(self).source@[old(
                self,
            ).current as int] == ':' {
                old(self).state().emit(
                    KindView::Colon,
                    old(self).source@.subrange(old(self).current as int, old(self).current + 1),
                ).tokens
            } else {
                old(self).state().tokens
            }),
            result is Err && old(self).source@[old(self).current as int] == ':'
                ==> final(self).current == old(self).source@.len(),
            result is Err ==> final(self).state() == scan_stop(
                old(self).source@,
                old(self).state(),
            ),
            match result {
                Ok(_) => scan_step(old(self).source@, old(self).state()) == Ok::<
                    ScanState,
                    ErrorView,
                >(final(self).state()),
                Err(e) => scan_step(old(self).source@, old(self).state()) == Err::<
                    ScanState,
                    ErrorView,
                >(e@),
            },
    {
        let start = self.current;
        let c = self.advance();
        if c == ':' {
            self.add_token(TokenKind::Colon, start);
            self.skip_run(' ');
            if self.is_at_end() {
                return Err(
                    NcclError::new(
                        ErrorKind::ParseError,
                        "Expected schema name, found EOF",
                        self.line,
                    ),
                );
            }
        } else if c == '#' {
            self.skip_to('\n');
        } else if c == ' ' {
            proof {
                lemma_run_end(self.source@, start as int, ' ');
            }
            match self.indent {
                IndentStyle::Tabs => {
                    return Err(
                        NcclError::new(
                            ErrorKind::IndentationError,
                            "Expected tabs, found spaces",
                            self.line,
                        ),
                    );
                },
                IndentStyle::Spaces(fixed) => {
                    self.skip_run_within(' ', start, fixed);
                    if self.current - start != fixed {
                        return Err(
                            NcclError::new(
                                ErrorKind::IndentationError,
                                "incorrect number of spaces",
                                self.line,
                            ),
                        );
                    }
                },
                IndentStyle::Neither => {
                    self.skip_run(' ');
                },
            }
            if self.is_at_end() {
                return Err(
                    NcclError::new(ErrorKind::ParseError, "Expected value, found EOF", self.line),
                );
            }
            self.indent = IndentStyle::Spaces(self.current - start);
            self.add_token(TokenKind::Indent, start);
        } else if c == '\t' {
            match self.indent {
                IndentStyle::Spaces(_) => {
                    return Err(
                        NcclError::new(
                            ErrorKind::IndentationError,
                            "Expected spaces, found tabs",
                            self.line,
                        ),
                    );
                },
                _ => {
                    self.indent = IndentStyle::Tabs;
                    self.add_token(TokenKind::Indent, start);
                },
            }
        } else if c == '\n' {
            self.add_token(TokenKind::Newline, start);
            self.line = self.line + 1;
        } else if c == '"' {
            proof {
                lemma_closing_quote(self.source@, start + 1);
            }
            return self.string();
        } else {
            self.identifier(start);
        }
        Ok(())
    }

    /// Reads a bare value that began at `start`, up to the end of its line.
    fn identifier(&mut self, start: usize)
        requires
            old(self).wf(),
            start + 1 == old(self).current,
        ensures
            final(self).wf(),
            final(self).source@ == old(self).source@,
            final(self).current >= old(self).current,
            final(self).tokens.len() == old(self).tokens.len() + 1,
            final(self).state() == scan_name(
                old(self).source@,
                old(self).state().at(start as int),
            ),
    {
        self.skip_to('\n');
        let value = string_of(&self.source, start, self.current);
        self.add_token_string(TokenKind::Name(value.clone()), value);
    }

    /// Reads a quoted literal whose opening quote has just been read. A
    /// literal that is not closed reads to the end of the text and adds
    /// no token.
    fn string(&mut self) -> (result: Result<(), NcclError>)
        requires
            old(self).wf(),
            old(self).current >= 1,
        ensures
            final(self).wf(),
            final(self).source@ == old(self).source@,
            final(self).current >= old(self).current,
            final(self).tokens.len() <= old(self).tokens.len() + 1,
            result is Err ==> final(self).tokens@ == old(self).tokens@,
            result is Err ==> final(self).current == old(self).source@.len(),
            result matches Err(e) ==> final(self).line == e.line,
            final(self).indent == old(self).indent,
            match result {
                Ok(_) => scan_string(
                    old(self).source@,
                    old(self).state().at(old(self).current - 1),
                ) == Ok::<ScanState, ErrorView>(final(self).state()),
                Err(e) => scan_string(
                    old(self).source@,
                    old(self).state().at(old(self).current - 1),
                ) == Err::<ScanState, ErrorView>(e@),
            },
    {
        let ghost src = self.source@;
        let ghost open = self.current as int;
        let ghost close = closing_quote(src, open);
        let ghost first_line = self.line as nat;
        let mut value = String::new();
        proof {
            lemma_closing_quote(src, open);
            assert(value@ + unescape(src.subrange(open, close)) =~= unescape(
                src.subrange(open, close),
            ));
        }
        while !self.is_at_end() && self.peek() != '"'
            invariant
                self.wf(),
                self.source@ == src,
                self.tokens == old(self).tokens,
                self.indent == old(self).indent,
                1 <= open <= self.current <= close <= src.len(),
                closing_quote(src, self.current as int) == close,
                value@ + unescape(src.subrange(self.current as int, close)) == unescape(
                    src.subrange(open, close),
                ),
                self.line + line_feeds(src.subrange(self.current as int, close)) == first_line
                    + line_feeds(src.subrange(open, close)),
            decreases src.len() - self.current,
        {
            let ghost here = self.current as int;
            let ghost rest = src.subrange(here, close);
            let ghost before = value@;
            let c = self.advance();
            proof {
                lemma_closing_quote(src, here + 1);
                if escape_at(src, here) {
                    lemma_closing_quote(src, here + 2);
                }
                assert(rest.len() == close - here);
                assert(rest[0] == src[here]);
            }
            if c == '\\' && !self.is_at_end() && (self.peek() == '"' || self.peek() == 'n') {
                let d = self.advance();
                let plain = if d == 'n' {
                    '\n'
                } else {
                    '"'
                };
                push_char(&mut value, plain);
                proof {
                    assert(escape_at(src, here));
                    assert(rest[1] == src[here + 1]);
                    assert(escape_at(rest, 0));
                    assert(rest.skip(2) =~= src.subrange(here + 2, close));
                    assert(rest.skip(1).skip(1) =~= rest.skip(2));
                    assert(value@ + unescape(rest.skip(2)) =~= before + unescape(rest));
                    reveal_with_fuel(line_feeds, 3);
                }
            } else {
                if c == '\n' {
                    self.line = self.line + 1;
                }
                push_char(&mut value, c);
                proof {
                    assert(!escape_at(src, here));
                    assert(!escape_at(rest, 0)) by {
                        if rest.len() >= 2 {
                            assert(rest[1] == src[here + 1]);
                        }
                    }
                    assert(rest.skip(1) =~= src.subrange(here + 1, close));
                    assert(value@ + unescape(rest.skip(1)) =~= before + unescape(rest));
                }
            }
        }
        proof {
            assert(src.subrange(self.current as int, close) =~= Seq::<char>::empty());
            assert(value@ + Seq::<char>::empty() =~= value@);
        }
        if self.is_at_end() {
            return Err(NcclError::new(ErrorKind::ParseError, "Unterminated string", self.line));
        }
        self.advance();
        self.add_token_string(TokenKind::Name(value.clone()), value);
        Ok(())
    }

    /// Whether the whole text has been read.
    fn is_at_end(&self) -> (at_end: bool)
        ensures
            at_end == (self.current >= self.source.len()),
    {
        self.current >= self.source.len()
    }

    /// Reads the next character.
    fn advance(&mut self) -> (c: char)
        requires
            old(self).current < old(self).source.len(),
        ensures
            *final(self) == (Scanner { current: (old(self).current + 1) as usize, ..*old(self) }),
            c == old(self).source[old(self).current as int],
    {
        self.current += 1;
        self.source[self.current - 1]
    }

    /// Adds a token whose lexeme is the text from `start` to the position.
    fn add_token(&mut self, kind: TokenKind, start: usize)
        requires
            start <= old(self).current <= old(self).source.len(),
        ensures
            final(self).source == old(self).source,
            final(self).current == old(self).current,
            final(self).line == old(self).line,
            final(self).indent == old(self).indent,
            final(self).tokens@ == old(self).tokens@.push(
                Token {
                    kind,
                    lexeme: final(self).tokens[old(self).tokens.len() as int].lexeme,
                    line: old(self).line,
                },
            ),
            final(self).state() == old(self).state().emit(
                kind@,
                old(self).source@.subrange(start as int, old(self).current as int),
            ),
    {
        let text = string_of(&self.source, start, self.current);
        self.add_token_string(kind, text);
    }

    /// Adds a token with the lexeme given.
    fn add_token_string(&mut self, kind: TokenKind, value: String)
        ensures
            final(self).source == old(self).source,
            final(self).current == old(self).current,
            final(self).line == old(self).line,
            final(self).indent == old(self).indent,
            final(self).tokens@ == old(self).tokens@.push(
                Token { kind, lexeme: value, line: old(self).line },
            ),
            final(self).state() == old(self).state().emit(kind@, value@),
    {
        let token = Token::new(kind, value, self.line);
        self.tokens.push(token);
        assert(token_views(self.tokens@) =~= token_views(old(self).tokens@).push(token@));
    }

    /// The next character, or NUL at the end of the text.
    fn peek(&self) -> (c: char)
        ensures
            c == if self.current < self.source.len() {
                self.source[self.current as int]
            } else {
                '\0'
            },
    {
        if self.current >= self.source.len() {
            '\0'
        } else {
            self.source[self.current]
        }
    }

    /// Reads on while the next character is `c`.
    fn skip_run(&mut self, c: char)
        requires
            old(self).wf(),
        ensures
            final(self).wf(),
            *final(self) == (Scanner { current: final(self).current, ..*old(self) }),
            final(self).current == run_end(old(self).source@, old(self).current as int, c),
            final(self).current >= old(self).current,
    {
        while !self.is_at_end() && self.peek() == c
            invariant
                self.wf(),
                *self == (Scanner { current: self.current, ..*old(self) }),
                self.current >= old(self).current,
                run_end(self.source@, self.current as int, c) == run_end(
                    old(self).source@,
                    old(self).current as int,
                    c,
                ),
            decreases self.source.len() - self.current,
        {
            self.advance();
        }
    }

    /// Reads on while the next character is `c`, but no further than
    /// `limit` characters from `start`, where a run of `c` began.
    fn skip_run_within(&mut self, c: char, start: usize, limit: usize)
        requires
            old(self).wf(),
            start + 1 == old(self).current,
            old(self).source[start as int] == c,
        ensures
            final(self).wf(),
            *final(self) == (Scanner { current: final(self).current, ..*old(self) }),
            final(self).current >= old(self).current,
            final(self).current <= run_end(old(self).source@, start as int, c),
            final(self).current - start < limit ==> final(self).current == run_end(
                old(self).source@,
                start as int,
                c,
            ),
            final(self).current - start > limit ==> limit == 0 && final(self).current == old(
                self,
            ).current,
    {
        while self.current - start < limit && !self.is_at_end() && self.peek() == c
            invariant
                self.wf(),
                *self == (Scanner { current: self.current, ..*old(self) }),
                start < old(self).current <= self.current,
                self.current - start <= limit || (limit == 0 && self.current == old(self).current),
                run_end(self.source@, self.current as int, c) == run_end(
                    old(self).source@,
                    start as int,
                    c,
                ),
            decreases self.source.len() - self.current,
        {
            self.advance();
        }
        proof {
            lemma_run_end(self.source@, self.current as int, c);
        }
    }

    /// Reads on until the next character is `c`.
    fn skip_to(&mut self, c: char)
        requires
            old(self).wf(),
        ensures
            final(self).wf(),
            *final(self) == (Scanner { current: final(self).current, ..*old(self) }),
            final(self).current == find(old(self).source@, old(self).current as int, c),
            final(self).current >= old(self).current,
    {
        while !self.is_at_end() && self.peek() != c
            invariant
                self.wf(),
                *self == (Scanner { current: self.current, ..*old(self) }),
                self.current >= old(self).current,
                find(self.source@, self.current as int, c) == find(
                    old(self).source@,
                    old(self).current as int,
                    c,
                ),
            decreases self.source.len() - self.current,
        {
            self.advance();
        }
    }
}

} // verus!
