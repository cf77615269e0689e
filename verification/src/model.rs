//! The mathematical model of the parse: character classification, position
//! tracking, token scanning, and a state machine that consumes the input one
//! construct at a time.

use vstd::prelude::*;
use crate::lisp_parser::LispParsingError;
use crate::lisp_parser::TextPosition;

verus! {

/// The mathematical value of a syntactic object: an atom is the sequence of
/// its source characters (verbatim, quotes included for quoted atoms), a list
/// is the sequence of its children.
pub enum SObj {
    Atom(Seq<char>),
    List(Seq<SObj>),
}

/// The Unicode `White_Space` code points; whitespace separates objects and is
/// discarded.
pub open spec fn is_lisp_whitespace(c: char) -> bool {
    ||| c == ' '
    ||| ('\u{0009}' <= c && c <= '\u{000D}')
    ||| c == '\u{0085}'
    ||| c == '\u{00A0}'
    ||| c == '\u{1680}'
    ||| ('\u{2000}' <= c && c <= '\u{200A}')
    ||| c == '\u{2028}'
    ||| c == '\u{2029}'
    ||| c == '\u{202F}'
    ||| c == '\u{205F}'
    ||| c == '\u{3000}'
}

/// A character that may stand in a word atom: anything but whitespace,
/// parentheses and the double quote.
pub open spec fn is_word_char(c: char) -> bool {
    !is_lisp_whitespace(c) && c != '(' && c != ')' && c != '"'
}

/// The 1-based line number of the character at index `i`: one more than the
/// number of line-feeds strictly before it.
pub open spec fn line_of(s: Seq<char>, i: int) -> int
    decreases i,
{
    if i <= 0 {
        1
    } else {
        line_of(s, i - 1) + if s[i - 1] == '\n' { 1int } else { 0int }
    }
}

/// The 1-based column of the character at index `i`: it resets to 1 on the
/// character immediately following a line-feed.
pub open spec fn column_of(s: Seq<char>, i: int) -> int
    decreases i,
{
    if i <= 0 {
        1
    } else if s[i - 1] == '\n' {
        1
    } else {
        column_of(s, i - 1) + 1
    }
}

/// The position of the character at index `i` of the input `s`.
pub open spec fn position_of(s: Seq<char>, i: int) -> TextPosition {
    TextPosition { line: line_of(s, i) as usize, column: column_of(s, i) as usize }
}

/// Line and column are at least 1 and at most `i + 1`.
pub proof fn lemma_position_bounds(s: Seq<char>, i: int)
    requires
        0 <= i,
    ensures
        1 <= line_of(s, i) <= i + 1,
        1 <= column_of(s, i) <= i + 1,
    decreases i,
{
    if i > 0 {
        lemma_position_bounds(s, i - 1);
    }
}

/// The number of characters of the word starting at index `i`: the length of
/// the maximal run of word characters.
pub open spec fn word_len(s: Seq<char>, i: int) -> nat
    decreases s.len() - i when 0 <= i <= s.len()
{
    if i == s.len() {
        0
    } else if is_word_char(s[i]) {
        1 + word_len(s, i + 1)
    } else {
        0
    }
}

/// The word starting at `i` runs over word characters only and ends at the
/// input's end or at the first character that cannot stand in a word.
pub proof fn lemma_word_len(s: Seq<char>, i: int)
    requires
        0 <= i <= s.len(),
    ensures
        i + word_len(s, i) <= s.len(),
        forall|j: int| i <= j < i + word_len(s, i) ==> is_word_char(#[trigger] s[j]),
        i + word_len(s, i) < s.len() ==> !is_word_char(s[i + word_len(s, i)]),
    decreases s.len() - i,
{
    if i < s.len() && is_word_char(s[i]) {
        lemma_word_len(s, i + 1);
    }
}

/// The distance from index `i` to the first double quote at or after it, or
/// `None` if no double quote follows.
pub open spec fn quote_len(s: Seq<char>, i: int) -> Option<nat>
    decreases s.len() - i when 0 <= i <= s.len()
{
    if i == s.len() {
        None
    } else if s[i] == '"' {
        Some(0nat)
    } else {
        match quote_len(s, i + 1) {
            None => None,
            Some(d) => Some((d + 1) as nat),
        }
    }
}

/// `quote_len` finds the first double quote at or after `i`, if there is one.
pub proof fn lemma_quote_len(s: Seq<char>, i: int)
    requires
        0 <= i <= s.len(),
    ensures
        match quote_len(s, i) {
            Some(d) => i + d < s.len() && s[i + d] == '"' && forall|j: int|
                i <= j < i + d ==> #[trigger] s[j] != '"',
            None => forall|j: int| i <= j < s.len() ==> #[trigger] s[j] != '"',
        },
    decreases s.len() - i,
{
    if i < s.len() && s[i] != '"' {
        lemma_quote_len(s, i + 1);
    }
}

/// Hands a finished object to its owner: with no list open it becomes the
/// next top-level object, otherwise the next child of the innermost open
/// list. The first component is the top-level sequence, the second the stack
/// of open lists, each an opening-parenthesis index with the children
/// collected so far.
pub open spec fn deliver(
    top: Seq<SObj>,
    stack: Seq<(int, Seq<SObj>)>,
    obj: SObj,
) -> (Seq<SObj>, Seq<(int, Seq<SObj>)>) {
    if stack.len() == 0 {
        (top.push(obj), stack)
    } else {
        let last = stack[stack.len() - 1];
        (top, stack.update(stack.len() - 1, (last.0, last.1.push(obj))))
    }
}

/// The parse, one construct at a time. `i` is the index of the next
/// character to look at, `top` the finished top-level objects, and `stack`
/// the open lists, innermost last, each recorded with the index of its
/// opening parenthesis.
///
/// Whitespace is skipped; `(` opens a list; `)` closes the innermost open
/// list, or is the unexpected-closing-parenthesis error at the top level; `"`
/// opens a quoted atom that runs verbatim to the next `"`, or is the
/// unclosed-quote error if none follows; any other character begins a word
/// atom that runs to the first non-word character. At the input's end, an
/// open list is the unclosed-parenthesis error, reported for the innermost
/// one; otherwise the parse succeeds with the top-level objects.
pub open spec fn run(
    s: Seq<char>,
    i: int,
    top: Seq<SObj>,
    stack: Seq<(int, Seq<SObj>)>,
) -> Result<Seq<SObj>, LispParsingError>
    decreases s.len() - i when 0 <= i <= s.len()
{
    if i == s.len() {
        if stack.len() == 0 {
            Ok(top)
        } else {
            Err(LispParsingError::UnclosedParenthesis {
                opening_parenthesis_position: position_of(s, stack[stack.len() - 1].0),
            })
        }
    } else if is_lisp_whitespace(s[i]) {
        run(s, i + 1, top, stack)
    } else if s[i] == '(' {
        run(s, i + 1, top, stack.push((i, Seq::empty())))
    } else if s[i] == ')' {
        if stack.len() == 0 {
            Err(LispParsingError::UnexpectedClosingParenthesis {
                closing_parenthesis_position: position_of(s, i),
            })
        } else {
            let closed = SObj::List(stack[stack.len() - 1].1);
            let rest = stack.drop_last();
            let delivered = deliver(top, rest, closed);
            run(s, i + 1, delivered.0, delivered.1)
        }
    } else if s[i] == '"' {
        match quote_len(s, i + 1) {
            None => Err(LispParsingError::UnclosedQuote {
                opening_quote_position: position_of(s, i),
            }),
            Some(d) => {
                proof {
                    lemma_quote_len(s, i + 1);
                }
                let atom = SObj::Atom(s.subrange(i, i + d + 2));
                let delivered = deliver(top, stack, atom);
                run(s, i + d + 2, delivered.0, delivered.1)
            },
        }
    } else {
        proof {
            lemma_word_len(s, i);
        }
        let l = word_len(s, i) as int;
        let atom = SObj::Atom(s.subrange(i, i + l));
        let delivered = deliver(top, stack, atom);
        run(s, i + l, delivered.0, delivered.1)
    }
}

/// The value of parsing a whole program: the state machine started at the
/// first character with nothing built yet.
pub open spec fn parse_model(s: Seq<char>) -> Result<Seq<SObj>, LispParsingError> {
    run(s, 0, Seq::empty(), Seq::empty())
}

/// What the executable parser promises: on success the returned objects have
/// exactly the model's value, on failure the returned error is exactly the
/// model's error.
pub open spec fn result_matches_model(
    r: crate::lisp_parser::LispProgramParsingResult,
    s: Seq<char>,
) -> bool {
    match r {
        Ok(objs) => parse_model(s) == Ok::<Seq<SObj>, LispParsingError>(
            crate::lisp_parser::model_seq(objs@),
        ),
        Err(e) => parse_model(s) == Err::<Seq<SObj>, LispParsingError>(e),
    }
}

} // verus!
