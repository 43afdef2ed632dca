//! Moving between strings and sequences of characters, and the line
//! endings of a document.
//!
//! Three functions of the standard library are taken on trust here, each
//! behind a function of its own: `String::push`, the `Debug` form of a
//! string slice, and `str::parse`.

use std::str::FromStr;
use vstd::prelude::*;
use vstd::std_specs::iter::IteratorSpec;

verus! {

/// The characters of `s`, in order.
pub(crate) fn chars_of(s: &str) -> (chars: Vec<char>)
    ensures
        chars@ == s@,
{
    broadcast use vstd::string::group_string_axioms;

    let mut chars: Vec<char> = Vec::new();
    let walk = s.chars();
    for c in it: walk
        invariant
            it.seq() == s@,
            chars@ == it.seq().take(it.index() as int),
    {
        chars.push(c);
        assert(it.seq().take(it.index() + 1) =~= it.seq().take(it.index() as int).push(c));
    }
    assert(s@.take(s@.len() as int) =~= s@);
    chars
}

/// `String::push`: appends one character to the end of the string and
/// leaves the rest as it was.
#[verifier::external_body]
pub(crate) fn push_char(s: &mut String, c: char)
    ensures
        final(s)@ == old(s)@.push(c),
{
    s.push(c)
}

/// What `{:?}` writes for a string slice: the text between double quotes,
/// with the characters that cannot stand for themselves escaped.
pub uninterp spec fn debug_text(text: Seq<char>) -> Seq<char>;

/// The `Debug` form of a string slice, as `format!("{:?}", text)` gives it:
/// a function of the text alone.
#[verifier::external_body]
pub(crate) fn debug_quoted(text: &str) -> (shown: String)
    ensures
        shown@ == debug_text(text@),
{
    format!("{:?}", text)
}

/// `str::parse`: the value that `T` reads out of `text`, or `None` where
/// `T` refuses it. What comes back is up to `T`'s implementation of
/// `FromStr`, so nothing is promised of it.
#[verifier::external_body]
pub(crate) fn parse_text<T: FromStr>(text: &str) -> (parsed: Option<T>) {
    text.parse::<T>().ok()
}

/// Appends `chars[from..to]` to `s`.
pub(crate) fn push_chars(s: &mut String, chars: &Vec<char>, from: usize, to: usize)
    requires
        from <= to <= chars.len(),
    ensures
        final(s)@ == old(s)@ + chars@.subrange(from as int, to as int),
{
    let mut i: usize = from;
    while i < to
        invariant
            from <= i <= to <= chars.len(),
            s@ == old(s)@ + chars@.subrange(from as int, i as int),
        decreases to - i,
    {
        push_char(s, chars[i]);
        assert(chars@.subrange(from as int, i + 1) =~= chars@.subrange(from as int, i as int).push(
            chars@[i as int],
        ));
        i += 1;
    }
}

/// The string that reads `chars[from..to]`.
pub(crate) fn string_of(chars: &Vec<char>, from: usize, to: usize) -> (s: String)
    requires
        from <= to <= chars.len(),
    ensures
        s@ == chars@.subrange(from as int, to as int),
{
    let mut s = String::new();
    push_chars(&mut s, chars, from, to);
    s
}

/// Whether two strings read the same.
pub(crate) fn same_text(a: &str, b: &str) -> (same: bool)
    ensures
        same == (a@ == b@),
{
    let x = a.as_bytes();
    let y = b.as_bytes();
    proof {
        vstd::utf8::encode_utf8_decode_utf8(a@);
        vstd::utf8::encode_utf8_decode_utf8(b@);
    }
    if x.len() != y.len() {
        return false;
    }
    let mut i: usize = 0;
    while i < x.len()
        invariant
            i <= x.len() == y.len(),
            x@ == vstd::utf8::encode_utf8(a@),
            y@ == vstd::utf8::encode_utf8(b@),
            forall|j: int| 0 <= j < i ==> x@[j] == y@[j],
        decreases x.len() - i,
    {
        if x[i] != y[i] {
            return false;
        }
        i += 1;
    }
    assert(x@ =~= y@);
    true
}

/// `text` with every carriage return that stands directly before a line
/// feed removed, so that a line ends in a line feed alone.
pub open spec fn unix_lines(text: Seq<char>) -> Seq<char>
    decreases text.len(),
{
    if text.len() == 0 {
        text
    } else if text[0] == '\r' && text.len() >= 2 && text[1] == '\n' {
        unix_lines(text.skip(1))
    } else {
        seq![text[0]] + unix_lines(text.skip(1))
    }
}

/// `text` with a carriage return put before every line feed.
pub open spec fn with_carriage_returns(text: Seq<char>) -> Seq<char>
    decreases text.len(),
{
    if text.len() == 0 {
        text
    } else if text[0] == '\n' {
        seq!['\r', '\n'] + with_carriage_returns(text.skip(1))
    } else {
        seq![text[0]] + with_carriage_returns(text.skip(1))
    }
}

/// Whether the lines of `text` end in line feeds alone: no line feed has
/// a carriage return directly before it.
pub open spec fn ends_lines_with_line_feeds(text: Seq<char>) -> bool {
    forall|i: int| 0 <= i && i + 1 < text.len() ==> !(text[i] == '\r' && #[trigger] text[i + 1] == '\n')
}

/// What [`with_carriage_returns`] adds, [`unix_lines`] takes away again.
pub proof fn lemma_carriage_returns_are_dropped(text: Seq<char>)
    requires
        ends_lines_with_line_feeds(text),
    ensures
        unix_lines(text) == text,
        unix_lines(with_carriage_returns(text)) == text,
    decreases text.len(),
{
    if text.len() > 0 {
        let rest = text.skip(1);
        let long = with_carriage_returns(text);
        let long_rest = with_carriage_returns(rest);
        assert forall|i: int| 0 <= i && i + 1 < rest.len() implies !(rest[i] == '\r'
            && #[trigger] rest[i + 1] == '\n') by {
            assert(rest[i] == text[i + 1]);
            assert(rest[i + 1] == text[i + 1 + 1]);
        }
        lemma_carriage_returns_are_dropped(rest);
        if text.len() >= 2 {
            assert(rest[0] == text[1]);
        }
        assert(long_rest.len() > 0 ==> long_rest[0] != '\n');
        if text[0] == '\n' {
            assert(long.skip(1) =~= seq!['\n'] + long_rest);
            assert(long.skip(1).skip(1) =~= long_rest);
            assert(unix_lines(long.skip(1)) =~= seq!['\n'] + unix_lines(long_rest));
        } else {
            assert(long.skip(1) =~= long_rest);
        }
        assert(seq![text[0]] + rest =~= text);
    }
}

/// Removing carriage returns never lengthens a text.
pub proof fn lemma_unix_lines_len(text: Seq<char>)
    ensures
        unix_lines(text).len() <= text.len(),
    decreases text.len(),
{
    if text.len() > 0 {
        lemma_unix_lines_len(text.skip(1));
    }
}

/// Computes [`unix_lines`].
pub(crate) fn to_unix_lines(chars: &Vec<char>) -> (out: Vec<char>)
    ensures
        out@ == unix_lines(chars@),
{
    let mut out: Vec<char> = Vec::new();
    let mut i: usize = 0;
    assert(chars@.skip(0) =~= chars@);
    assert(out@ + unix_lines(chars@) =~= unix_lines(chars@));
    while i < chars.len()
        invariant
            i <= chars.len(),
            out@ + unix_lines(chars@.skip(i as int)) == unix_lines(chars@),
        decreases chars.len() - i,
    {
        let ghost rest = chars@.skip(i as int);
        assert(rest.skip(1) =~= chars@.skip(i + 1));
        assert(rest[0] == chars@[i as int]);
        if chars[i] == '\r' && i + 1 < chars.len() && chars[i + 1] == '\n' {
            assert(rest[1] == chars@[i + 1]);
        } else {
            let ghost before = out@;
            out.push(chars[i]);
            assert(out@ + unix_lines(rest.skip(1)) =~= before + (seq![rest[0]] + unix_lines(
                rest.skip(1),
            )));
        }
        i += 1;
    }
    assert(chars@.skip(i as int) =~= Seq::<char>::empty());
    assert(out@ + Seq::<char>::empty() =~= out@);
    out
}

} // verus!
