//! Executable character classification, token scanning and position
//! computation over the input, each proved against the model.

use vstd::prelude::*;
use vstd::string::StrSliceExecFns;
use crate::model::column_of;
use crate::model::is_lisp_whitespace;
use crate::model::is_word_char;
use crate::model::lemma_position_bounds;
use crate::model::line_of;
use crate::model::position_of;
use crate::model::quote_len;
use crate::model::word_len;
use crate::lisp_parser::TextPosition;

verus! {

/// Whether `c` is one of the Unicode `White_Space` code points.
pub fn is_whitespace_char(c: char) -> (r: bool)
    ensures
        r == is_lisp_whitespace(c),
{
    c == ' ' || ('\u{0009}' <= c && c <= '\u{000D}') || c == '\u{0085}' || c == '\u{00A0}'
        || c == '\u{1680}' || ('\u{2000}' <= c && c <= '\u{200A}') || c == '\u{2028}'
        || c == '\u{2029}' || c == '\u{202F}' || c == '\u{205F}' || c == '\u{3000}'
}

/// Whether `c` may stand in a word atom.
pub fn is_word_character(c: char) -> (r: bool)
    ensures
        r == is_word_char(c),
{
    !is_whitespace_char(c) && c != '(' && c != ')' && c != '"'
}

/// The index just past the word starting at `start`: the first index at or
/// after `start` holding a character that cannot stand in a word, or the
/// input's end.
pub fn scan_word_end(s: &str, start: usize, n: usize) -> (j: usize)
    requires
        n == s@.len(),
        start <= n,
    ensures
        j == start + word_len(s@, start as int),
        start <= j <= n,
{
    let mut j = start;
    while j < n && is_word_character(s.get_char(j))
        invariant
            n == s@.len(),
            start <= j <= n,
            word_len(s@, start as int) == j - start + word_len(s@, j as int),
        decreases n - j,
    {
        j = j + 1;
    }
    j
}

/// The index of the first double quote at or after `start`, or `None` if no
/// double quote follows.
pub fn scan_quote_close(s: &str, start: usize, n: usize) -> (r: Option<usize>)
    requires
        n == s@.len(),
        start <= n,
    ensures
        match r {
            Some(j) => start <= j < n && quote_len(s@, start as int) == Some((j - start) as nat),
            None => quote_len(s@, start as int) is None,
        },
{
    let mut j = start;
    while j < n && s.get_char(j) != '"'
        invariant
            n == s@.len(),
            start <= j <= n,
            quote_len(s@, start as int) == match quote_len(s@, j as int) {
                None => None::<nat>,
                Some(d) => Some((d + j - start) as nat),
            },
        decreases n - j,
    {
        j = j + 1;
    }
    if j < n {
        Some(j)
    } else {
        None
    }
}

/// The (line, column) position of the character at index `i`, computed by one
/// scan of the characters before it.
pub fn position_at(s: &str, i: usize, n: usize) -> (p: TextPosition)
    requires
        n == s@.len(),
        i < n,
    ensures
        p == position_of(s@, i as int),
        p.line >= 1,
        p.column >= 1,
{
    let mut line: usize = 1;
    let mut column: usize = 1;
    let mut k: usize = 0;
    while k < i
        invariant
            n == s@.len(),
            i < n,
            k <= i,
            line == line_of(s@, k as int),
            column == column_of(s@, k as int),
        decreases i - k,
    {
        proof {
            lemma_position_bounds(s@, k as int);
        }
        if s.get_char(k) == '\n' {
            line = line + 1;
            column = 1;
        } else {
            column = column + 1;
        }
        k = k + 1;
    }
    proof {
        lemma_position_bounds(s@, i as int);
    }
    TextPosition { line, column }
}

} // verus!
