use lisp_parser::parse_lisp_program;
use lisp_parser::LispObject;
use lisp_parser::LispObject::List;
use lisp_parser::LispObject::String;
use lisp_parser::LispParser;
use lisp_parser::LispParsingError;
use lisp_parser::TextPosition;

fn str(string: &str) -> LispObject {
    String(string.to_string())
}

fn assert_no_empty_atoms(object: &LispObject) {
    match object {
        String(text) => assert!(!text.is_empty()),
        List(children) => {
            for child in children {
                assert_no_empty_atoms(child);
            }
        }
    }
}

#[test]
fn complex_program_parsing_test() {
    let program = "
            a
            (b c (d e f))
            \"ghi jkl\" (m n\"o\"(p q r(s t\"u v) w\")))
            x y z
            ";
    let parsed_program = vec![
        str("a"),
        List(vec![
            str("b"),
            str("c"),
            List(vec![str("d"), str("e"), str("f")]),
        ]),
        str("\"ghi jkl\""),
        List(vec![
            str("m"),
            str("n"),
            str("\"o\""),
            List(vec![
                str("p"),
                str("q"),
                str("r"),
                List(vec![str("s"), str("t"), str("\"u v) w\"")]),
            ]),
        ]),
        str("x"),
        str("y"),
        str("z"),
    ];
    assert_eq!(parse_lisp_program(program).unwrap(), parsed_program,);
}

#[test]
fn test_unclosed_parenthesis_error() {
    assert_eq!(
        parse_lisp_program("("),
        Err(LispParsingError::UnclosedParenthesis {
            opening_parenthesis_position: TextPosition { line: 1, column: 1 },
        })
    );
}

#[test]
fn test_unexpected_closing_parenthesis_error() {
    assert_eq!(
        parse_lisp_program("( )\n)"),
        Err(LispParsingError::UnexpectedClosingParenthesis {
            closing_parenthesis_position: TextPosition { line: 2, column: 1 },
        })
    );
}

#[test]
fn test_unclosed_quote() {
    assert_eq!(
        parse_lisp_program("(\"\nabc)"),
        Err(LispParsingError::UnclosedQuote {
            opening_quote_position: TextPosition { line: 1, column: 2 },
        })
    );
}

#[test]
fn test_empty_program() {
    assert_eq!(parse_lisp_program(""), Ok(Vec::new()));
}

#[test]
fn test_whitespaces_program() {
    assert_eq!(
        parse_lisp_program("   \t \n  \n\t    \r    "),
        Ok(Vec::new())
    );
}

#[test]
fn test_parser_type_directly() {
    let mut parser = LispParser::new("x (y)");
    assert_eq!(
        parser.parse_program(),
        Ok(vec![str("x"), List(vec![str("y")])])
    );
}

#[test]
fn test_word_at_end_of_input() {
    assert_eq!(parse_lisp_program("abc"), Ok(vec![str("abc")]));
    assert_eq!(parse_lisp_program("ab cd"), Ok(vec![str("ab"), str("cd")]));
}

#[test]
fn test_word_quote_boundary() {
    // A quote right after word characters ends the word; the two are siblings.
    assert_eq!(
        parse_lisp_program("n\"o\""),
        Ok(vec![str("n"), str("\"o\"")])
    );
}

#[test]
fn test_word_parenthesis_boundary() {
    // `a(b)` parses as the atom `a` followed by the list `(b)`.
    assert_eq!(
        parse_lisp_program("a(b)"),
        Ok(vec![str("a"), List(vec![str("b")])])
    );
}

#[test]
fn test_empty_list() {
    assert_eq!(parse_lisp_program("()"), Ok(vec![List(Vec::new())]));
}

#[test]
fn test_quoted_atom_keeps_quotes_verbatim() {
    // The atom is reproduced verbatim, quotes included, with no escape
    // processing; parentheses and line-feeds inside are literal.
    assert_eq!(
        parse_lisp_program("\"a ) (\nb\""),
        Ok(vec![str("\"a ) (\nb\"")])
    );
}

#[test]
fn test_nesting_depth_matches_parentheses() {
    // Two opening parentheses on the path to `x`: `x` sits two lists deep.
    assert_eq!(
        parse_lisp_program("((x) y)"),
        Ok(vec![List(vec![List(vec![str("x")]), str("y")])])
    );
}

#[test]
fn test_unclosed_inner_parenthesis_reported() {
    // The innermost unclosed parenthesis is the one reported.
    assert_eq!(
        parse_lisp_program("(("),
        Err(LispParsingError::UnclosedParenthesis {
            opening_parenthesis_position: TextPosition { line: 1, column: 2 },
        })
    );
}

#[test]
fn test_unclosed_parenthesis_after_children() {
    assert_eq!(
        parse_lisp_program("(a b"),
        Err(LispParsingError::UnclosedParenthesis {
            opening_parenthesis_position: TextPosition { line: 1, column: 1 },
        })
    );
}

#[test]
fn test_unclosed_quote_at_top_level() {
    assert_eq!(
        parse_lisp_program("ab \"cd"),
        Err(LispParsingError::UnclosedQuote {
            opening_quote_position: TextPosition { line: 1, column: 4 },
        })
    );
}

#[test]
fn test_carriage_return_does_not_advance_line() {
    // Only the line-feed advances the line; `\r` is ordinary whitespace.
    assert_eq!(
        parse_lisp_program("\r\n)"),
        Err(LispParsingError::UnexpectedClosingParenthesis {
            closing_parenthesis_position: TextPosition { line: 2, column: 1 },
        })
    );
}

#[test]
fn test_newline_occupies_last_column_of_its_line() {
    // The quote sits at line 2 column 3: the line-feed ended line 1, and the
    // character after it started line 2 at column 1.
    assert_eq!(
        parse_lisp_program("a\n b\"c"),
        Err(LispParsingError::UnclosedQuote {
            opening_quote_position: TextPosition { line: 2, column: 3 },
        })
    );
}

#[test]
fn test_reparse_of_rendered_text() {
    // Re-parse idempotence on concrete values: the same tree, rendered with
    // one space before each object, parses back to itself.
    let first = parse_lisp_program("a (b c (d))\"e\"");
    let second = parse_lisp_program(" a ( b c ( d)) \"e\"");
    assert_eq!(first, second);
    assert!(first.is_ok());
}

#[test]
fn test_atoms_are_never_empty() {
    // Adjacent delimiters produce no empty atoms.
    let parsed = parse_lisp_program("(())\"\"").unwrap();
    assert_eq!(
        parsed,
        vec![List(vec![List(Vec::new())]), str("\"\"")]
    );
    for object in &parsed {
        assert_no_empty_atoms(object);
    }
}

#[test]
fn test_unicode_whitespace_separates_objects() {
    // Form feed, vertical tab, next line, and ideographic space are all
    // whitespace; none of them reaches an atom.
    assert_eq!(
        parse_lisp_program("\u{000C}\u{000B}\u{0085}\u{3000}"),
        Ok(Vec::new())
    );
    assert_eq!(
        parse_lisp_program("a\u{3000}b"),
        Ok(vec![str("a"), str("b")])
    );
}

#[test]
fn test_non_ascii_word_atom() {
    assert_eq!(
        parse_lisp_program("héllo (wörld)"),
        Ok(vec![str("héllo"), List(vec![str("wörld")])])
    );
}

#[test]
fn test_stray_closer_inside_list_closes_it() {
    // A `)` is unexpected only at the top level; inside a list it is the
    // list's normal terminator.
    assert_eq!(
        parse_lisp_program("(a) )"),
        Err(LispParsingError::UnexpectedClosingParenthesis {
            closing_parenthesis_position: TextPosition { line: 1, column: 5 },
        })
    );
}
