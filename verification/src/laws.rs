//! Laws of the parser, proved of the model: empty and whitespace-only inputs
//! parse to nothing; every atom of a successful parse is non-empty and
//! well-formed; every reported error points at a character actually present
//! in the input; the tree of a successful parse opens one list for each
//! opening parenthesis outside quoted atoms and nests exactly as deep as the
//! parentheses of the input; and rendering a parsed tree back to text
//! re-parses to the same tree.

use vstd::prelude::*;
use vstd::math::max;
use crate::lisp_parser::LispParsingError;
use crate::lisp_parser::TextPosition;
use crate::model::SObj;
use crate::model::deliver;
use crate::model::is_lisp_whitespace;
use crate::model::is_word_char;
use crate::model::lemma_quote_len;
use crate::model::lemma_word_len;
use crate::model::parse_model;
use crate::model::position_of;
use crate::model::quote_len;
use crate::model::run;
use crate::model::word_len;

verus! {

broadcast use vstd::seq::group_seq_axioms;

/// An empty program parses to the empty sequence of objects.
pub proof fn lemma_parse_empty()
    ensures
        parse_model(Seq::<char>::empty()) == Ok::<Seq<SObj>, LispParsingError>(Seq::<SObj>::empty()),
{
}

proof fn lemma_run_whitespace_only(s: Seq<char>, i: int, top: Seq<SObj>)
    requires
        0 <= i <= s.len(),
        forall|j: int| i <= j < s.len() ==> is_lisp_whitespace(#[trigger] s[j]),
    ensures
        run(s, i, top, Seq::empty()) == Ok::<Seq<SObj>, LispParsingError>(top),
    decreases s.len() - i,
{
    if i < s.len() {
        lemma_run_whitespace_only(s, i + 1, top);
    }
}

/// A program of whitespace alone parses to the empty sequence of objects.
pub proof fn lemma_parse_whitespace_only(s: Seq<char>)
    requires
        forall|j: int| 0 <= j < s.len() ==> is_lisp_whitespace(#[trigger] s[j]),
    ensures
        parse_model(s) == Ok::<Seq<SObj>, LispParsingError>(Seq::<SObj>::empty()),
{
    lemma_run_whitespace_only(s, 0, Seq::empty());
}

/// A well-formed atom text: a non-empty run of word characters, or a quoted
/// text that opens and closes with a double quote and holds none in between.
pub open spec fn wf_atom(a: Seq<char>) -> bool {
    ||| (a.len() >= 1 && forall|j: int| 0 <= j < a.len() ==> is_word_char(#[trigger] a[j]))
    ||| (a.len() >= 2 && a[0] == '"' && a[a.len() - 1] == '"' && forall|j: int|
        1 <= j < a.len() - 1 ==> #[trigger] a[j] != '"')
}

/// A well-formed tree: every atom in it is well-formed.
pub open spec fn wf_obj(o: SObj) -> bool
    decreases o,
{
    match o {
        SObj::Atom(a) => wf_atom(a),
        SObj::List(cs) => forall|j: int| 0 <= j < cs.len() ==> wf_obj(#[trigger] cs[j]),
    }
}

/// A well-formed sequence of trees.
pub open spec fn wf_objs(cs: Seq<SObj>) -> bool {
    forall|j: int| 0 <= j < cs.len() ==> wf_obj(#[trigger] cs[j])
}

/// No atom anywhere in the tree is the empty string.
pub open spec fn atoms_nonempty(o: SObj) -> bool
    decreases o,
{
    match o {
        SObj::Atom(a) => a.len() >= 1,
        SObj::List(cs) => forall|j: int| 0 <= j < cs.len() ==> atoms_nonempty(#[trigger] cs[j]),
    }
}

/// Every well-formed tree has only non-empty atoms.
pub proof fn lemma_wf_obj_atoms_nonempty(o: SObj)
    requires
        wf_obj(o),
    ensures
        atoms_nonempty(o),
    decreases o,
{
    match o {
        SObj::Atom(_) => {},
        SObj::List(cs) => {
            assert forall|j: int| 0 <= j < cs.len() implies atoms_nonempty(#[trigger] cs[j]) by {
                lemma_wf_obj_atoms_nonempty(cs[j]);
            }
        },
    }
}

/// The position a parsing error reports.
pub open spec fn error_position(e: LispParsingError) -> TextPosition {
    match e {
        LispParsingError::UnclosedQuote { opening_quote_position } => opening_quote_position,
        LispParsingError::UnclosedParenthesis { opening_parenthesis_position } =>
            opening_parenthesis_position,
        LispParsingError::UnexpectedClosingParenthesis { closing_parenthesis_position } =>
            closing_parenthesis_position,
    }
}

/// The character a parsing error points at: the opening quote, the opening
/// parenthesis, or the unexpected closing parenthesis.
pub open spec fn error_char(e: LispParsingError) -> char {
    match e {
        LispParsingError::UnclosedQuote { .. } => '"',
        LispParsingError::UnclosedParenthesis { .. } => '(',
        LispParsingError::UnexpectedClosingParenthesis { .. } => ')',
    }
}

proof fn lemma_run_wf(s: Seq<char>, i: int, top: Seq<SObj>, stack: Seq<(int, Seq<SObj>)>)
    requires
        0 <= i <= s.len(),
        wf_objs(top),
        forall|k: int| 0 <= k < stack.len() ==> wf_objs((#[trigger] stack[k]).1),
        forall|k: int| 0 <= k < stack.len() ==> 0 <= (#[trigger] stack[k]).0 < s.len()
            && s[stack[k].0] == '(',
    ensures
        match run(s, i, top, stack) {
            Ok(objs) => wf_objs(objs),
            Err(e) => exists|j: int|
                0 <= j < s.len() && position_of(s, j) == error_position(e) && s[j] == error_char(e),
        },
    decreases s.len() - i,
{
    if i == s.len() {
        if stack.len() > 0 {
            let j = stack[stack.len() - 1].0;
            assert(0 <= j < s.len() && position_of(s, j) == error_position(
                run(s, i, top, stack)->Err_0,
            ) && s[j] == '(');
        }
    } else if is_lisp_whitespace(s[i]) {
        lemma_run_wf(s, i + 1, top, stack);
    } else if s[i] == '(' {
        let stack2 = stack.push((i, Seq::<SObj>::empty()));
        assert(forall|k: int| 0 <= k < stack2.len() ==> wf_objs((#[trigger] stack2[k]).1));
        lemma_run_wf(s, i + 1, top, stack2);
    } else if s[i] == ')' {
        if stack.len() == 0 {
            assert(position_of(s, i) == error_position(run(s, i, top, stack)->Err_0));
        } else {
            let closed = SObj::List(stack[stack.len() - 1].1);
            assert(wf_obj(closed));
            let rest = stack.drop_last();
            lemma_deliver_wf(s, top, rest, closed);
            let d = deliver(top, rest, closed);
            lemma_run_wf(s, i + 1, d.0, d.1);
        }
    } else if s[i] == '"' {
        lemma_quote_len(s, i + 1);
        match quote_len(s, i + 1) {
            None => {
                assert(position_of(s, i) == error_position(run(s, i, top, stack)->Err_0));
            },
            Some(d) => {
                let atom = SObj::Atom(s.subrange(i, i + d + 2));
                assert(wf_obj(atom)) by {
                    let a = s.subrange(i, i + d + 2);
                    assert(a.len() >= 2 && a[0] == '"' && a[a.len() - 1] == '"');
                    assert(forall|j: int| 1 <= j < a.len() - 1 ==> #[trigger] a[j] != '"');
                }
                lemma_deliver_wf(s, top, stack, atom);
                let dd = deliver(top, stack, atom);
                lemma_run_wf(s, i + d + 2, dd.0, dd.1);
            },
        }
    } else {
        lemma_word_len(s, i);
        let l = word_len(s, i) as int;
        let atom = SObj::Atom(s.subrange(i, i + l));
        assert(wf_obj(atom)) by {
            let a = s.subrange(i, i + l);
            assert(a.len() >= 1);
            assert(forall|j: int| 0 <= j < a.len() ==> is_word_char(#[trigger] a[j]));
        }
        lemma_deliver_wf(s, top, stack, atom);
        let dd = deliver(top, stack, atom);
        lemma_run_wf(s, i + l, dd.0, dd.1);
    }
}

/// Delivering a well-formed object keeps the built state well-formed and the
/// recorded opening positions unchanged.
proof fn lemma_deliver_wf(s: Seq<char>, top: Seq<SObj>, stack: Seq<(int, Seq<SObj>)>, obj: SObj)
    requires
        wf_objs(top),
        forall|k: int| 0 <= k < stack.len() ==> wf_objs((#[trigger] stack[k]).1),
        forall|k: int| 0 <= k < stack.len() ==> 0 <= (#[trigger] stack[k]).0 < s.len()
            && s[stack[k].0] == '(',
        wf_obj(obj),
    ensures
        wf_objs(deliver(top, stack, obj).0),
        forall|k: int| 0 <= k < deliver(top, stack, obj).1.len() ==> wf_objs(
            (#[trigger] deliver(top, stack, obj).1[k]).1,
        ),
        forall|k: int| 0 <= k < deliver(top, stack, obj).1.len() ==> 0 <= (#[trigger] deliver(
            top,
            stack,
            obj,
        ).1[k]).0 < s.len() && s[deliver(top, stack, obj).1[k].0] == '(',
{
    if stack.len() == 0 {
        assert(forall|j: int| 0 <= j < top.len() ==> top.push(obj)[j] == #[trigger] top[j]);
        assert(top.push(obj)[top.len() as int] == obj);
    } else {
        let last = stack[stack.len() - 1];
        assert(forall|j: int| 0 <= j < last.1.len() ==> last.1.push(obj)[j] == #[trigger] last.1[j]);
        assert(last.1.push(obj)[last.1.len() as int] == obj);
    }
}

/// Every tree of a successful parse is well-formed: each of its atoms is a
/// non-empty run of word characters, or a quoted text with a double quote at
/// each end and none in between.
pub proof fn lemma_parsed_objects_well_formed(s: Seq<char>, objs: Seq<SObj>)
    requires
        parse_model(s) == Ok::<Seq<SObj>, LispParsingError>(objs),
    ensures
        wf_objs(objs),
{
    lemma_run_wf(s, 0, Seq::empty(), Seq::empty());
}

/// No atom of a successful parse is the empty string.
pub proof fn lemma_no_empty_atoms(s: Seq<char>, objs: Seq<SObj>)
    requires
        parse_model(s) == Ok::<Seq<SObj>, LispParsingError>(objs),
    ensures
        forall|j: int| 0 <= j < objs.len() ==> atoms_nonempty(#[trigger] objs[j]),
{
    lemma_parsed_objects_well_formed(s, objs);
    assert forall|j: int| 0 <= j < objs.len() implies atoms_nonempty(#[trigger] objs[j]) by {
        lemma_wf_obj_atoms_nonempty(objs[j]);
    }
}

proof fn lemma_word_len_exact(s: Seq<char>, i: int, e: int)
    requires
        0 <= i <= e <= s.len(),
        forall|j: int| i <= j < e ==> is_word_char(#[trigger] s[j]),
        e == s.len() || !is_word_char(s[e]),
    ensures
        word_len(s, i) == e - i,
    decreases e - i,
{
    if i < e {
        lemma_word_len_exact(s, i + 1, e);
    }
}

proof fn lemma_quote_len_exact(s: Seq<char>, i: int, e: int)
    requires
        0 <= i <= e < s.len(),
        forall|j: int| i <= j < e ==> #[trigger] s[j] != '"',
        s[e] == '"',
    ensures
        quote_len(s, i) == Some((e - i) as nat),
    decreases e - i,
{
    if i < e {
        lemma_quote_len_exact(s, i + 1, e);
    }
}

/// The text of one tree: an atom verbatim, a list as its children between
/// parentheses.
pub open spec fn render_obj(o: SObj) -> Seq<char>
    decreases o,
{
    match o {
        SObj::Atom(a) => a,
        SObj::List(cs) => seq!['('] + render_objs(cs) + seq![')'],
    }
}

/// The text of a sequence of trees: each preceded by a single space.
pub open spec fn render_objs(cs: Seq<SObj>) -> Seq<char>
    decreases cs,
{
    if cs.len() == 0 {
        Seq::empty()
    } else {
        seq![' '] + render_obj(cs[0]) + render_objs(cs.drop_first())
    }
}

/// Hands a whole sequence of finished objects to its owner, in order.
pub open spec fn deliver_seq(
    top: Seq<SObj>,
    stack: Seq<(int, Seq<SObj>)>,
    cs: Seq<SObj>,
) -> (Seq<SObj>, Seq<(int, Seq<SObj>)>) {
    if stack.len() == 0 {
        (top + cs, stack)
    } else {
        let last = stack[stack.len() - 1];
        (top, stack.update(stack.len() - 1, (last.0, last.1 + cs)))
    }
}

proof fn lemma_deliver_seq_empty(top: Seq<SObj>, stack: Seq<(int, Seq<SObj>)>)
    ensures
        deliver_seq(top, stack, Seq::empty()) == (top, stack),
{
    if stack.len() == 0 {
        assert(top + Seq::<SObj>::empty() =~= top);
    } else {
        let last = stack[stack.len() - 1];
        assert(last.1 + Seq::<SObj>::empty() =~= last.1);
        assert(stack.update(stack.len() - 1, (last.0, last.1)) =~= stack);
    }
}

proof fn lemma_deliver_seq_step(top: Seq<SObj>, stack: Seq<(int, Seq<SObj>)>, cs: Seq<SObj>)
    requires
        cs.len() > 0,
    ensures
        deliver_seq(deliver(top, stack, cs[0]).0, deliver(top, stack, cs[0]).1, cs.drop_first())
            == deliver_seq(top, stack, cs),
{
    if stack.len() == 0 {
        assert(top.push(cs[0]) + cs.drop_first() =~= top + cs);
    } else {
        let last = stack[stack.len() - 1];
        let stack2 = stack.update(stack.len() - 1, (last.0, last.1.push(cs[0])));
        assert(last.1.push(cs[0]) + cs.drop_first() =~= last.1 + cs);
        assert(stack2.update(stack2.len() - 1, (last.0, last.1.push(cs[0]) + cs.drop_first()))
            =~= stack.update(stack.len() - 1, (last.0, last.1 + cs)));
    }
}

proof fn lemma_run_render_obj(
    s: Seq<char>,
    i: int,
    top: Seq<SObj>,
    stack: Seq<(int, Seq<SObj>)>,
    o: SObj,
)
    requires
        wf_obj(o),
        0 <= i,
        i + render_obj(o).len() <= s.len(),
        s.subrange(i, i + render_obj(o).len() as int) == render_obj(o),
        i + render_obj(o).len() == s.len() || !is_word_char(s[i + render_obj(o).len()]),
    ensures
        run(s, i, top, stack) == run(
            s,
            i + render_obj(o).len() as int,
            deliver(top, stack, o).0,
            deliver(top, stack, o).1,
        ),
    decreases o,
{
    let r = render_obj(o);
    let e = i + r.len() as int;
    assert forall|j: int| 0 <= j < r.len() implies s[i + j] == r[j] by {
        assert(s.subrange(i, e)[j] == s[i + j]);
    }
    match o {
        SObj::Atom(a) => {
            assert(s[i + 0] == r[0]);
            if a.len() >= 1 && (forall|j: int| 0 <= j < a.len() ==> is_word_char(#[trigger] a[j])) {
                assert(is_word_char(s[i]));
                assert forall|j: int| i <= j < e implies is_word_char(#[trigger] s[j]) by {
                    assert(s[i + (j - i)] == r[j - i]);
                }
                lemma_word_len_exact(s, i, e);
                assert(s.subrange(i, i + word_len(s, i) as int) == a);
            } else {
                assert(a.len() >= 2 && a[0] == '"' && a[a.len() - 1] == '"');
                assert(s[i] == '"');
                assert(s[i + (a.len() - 1)] == r[a.len() - 1]);
                assert(s[e - 1] == '"');
                assert forall|j: int| i + 1 <= j < e - 1 implies #[trigger] s[j] != '"' by {
                    assert(s[j] == a[j - i]);
                }
                lemma_quote_len_exact(s, i + 1, e - 1);
                assert(quote_len(s, i + 1) == Some((a.len() - 2) as nat));
                assert(s.subrange(i, i + (a.len() - 2) + 2) == a);
            }
        },
        SObj::List(cs) => {
            let r2 = render_objs(cs);
            assert(s[i + 0] == r[0]);
            assert(s[i] == '(');
            assert forall|j: int| 0 <= j < r2.len() implies s[i + 1 + j] == r2[j] by {
                assert(r[1 + j] == r2[j]);
            }
            assert(s.subrange(i + 1, i + 1 + r2.len() as int) =~= r2);
            assert(s[i + 1 + r2.len()] == ')') by {
                assert(r[r.len() - 1] == ')');
                assert(s[i + (r.len() - 1)] == r[r.len() - 1]);
            }
            let stack2 = stack.push((i, Seq::<SObj>::empty()));
            lemma_run_render_objs(s, i + 1, top, stack2, cs);
            let d2 = deliver_seq(top, stack2, cs);
            assert(d2.0 == top);
            assert(d2.1 =~= stack.push((i, cs))) by {
                assert(Seq::<SObj>::empty() + cs =~= cs);
            }
            let ip = i + 1 + r2.len() as int;
            let stack3 = stack.push((i, cs));
            assert(stack3[stack3.len() - 1].1 == cs);
            assert(stack3.drop_last() =~= stack);
            assert(run(s, ip, top, stack3) == run(
                s,
                ip + 1,
                deliver(top, stack, SObj::List(cs)).0,
                deliver(top, stack, SObj::List(cs)).1,
            ));
            assert(ip + 1 == e);
        },
    }
}

proof fn lemma_run_render_objs(
    s: Seq<char>,
    i: int,
    top: Seq<SObj>,
    stack: Seq<(int, Seq<SObj>)>,
    cs: Seq<SObj>,
)
    requires
        wf_objs(cs),
        0 <= i,
        i + render_objs(cs).len() <= s.len(),
        s.subrange(i, i + render_objs(cs).len() as int) == render_objs(cs),
        i + render_objs(cs).len() == s.len() || s[i + render_objs(cs).len()] == ')',
    ensures
        run(s, i, top, stack) == run(
            s,
            i + render_objs(cs).len() as int,
            deliver_seq(top, stack, cs).0,
            deliver_seq(top, stack, cs).1,
        ),
    decreases cs,
{
    let r = render_objs(cs);
    let e = i + r.len() as int;
    if cs.len() == 0 {
        lemma_deliver_seq_empty(top, stack);
    } else {
        assert forall|j: int| 0 <= j < r.len() implies s[i + j] == r[j] by {
            assert(s.subrange(i, e)[j] == s[i + j]);
        }
        let r0 = render_obj(cs[0]);
        let rr = render_objs(cs.drop_first());
        assert(r == seq![' '] + r0 + rr);
        assert(r.len() == 1 + r0.len() + rr.len());
        assert(s[i] == ' ') by {
            assert(r[0] == ' ');
            assert(s[i + 0] == r[0]);
        }
        assert(is_lisp_whitespace(s[i]));
        let e0 = i + 1 + r0.len() as int;
        assert forall|j: int| 0 <= j < r0.len() implies s[i + 1 + j] == r0[j] by {
            assert(r[1 + j] == r0[j]);
        }
        assert(s.subrange(i + 1, e0) =~= r0);
        if cs.drop_first().len() == 0 {
            assert(e0 == e);
            assert(e0 == s.len() || !is_word_char(s[e0]));
        } else {
            assert(rr[0] == ' ') by {
                assert(rr == seq![' '] + render_obj(cs.drop_first()[0]) + render_objs(
                    cs.drop_first().drop_first(),
                ));
            }
            assert(s[e0] == ' ') by {
                assert(r[1 + r0.len() as int] == rr[0]);
                assert(s[i + (1 + r0.len() as int)] == r[1 + r0.len() as int]);
            }
            assert(!is_word_char(s[e0]));
        }
        assert(wf_obj(cs[0]));
        lemma_run_render_obj(s, i + 1, top, stack, cs[0]);
        let d = deliver(top, stack, cs[0]);
        assert forall|j: int| 0 <= j < rr.len() implies s[e0 + j] == rr[j] by {
            assert(r[1 + r0.len() + j] == rr[j]);
        }
        assert(s.subrange(e0, e0 + rr.len() as int) =~= rr);
        assert(wf_objs(cs.drop_first())) by {
            assert(forall|j: int|
                0 <= j < cs.drop_first().len() ==> #[trigger] cs.drop_first()[j] == cs[j + 1]);
        }
        lemma_run_render_objs(s, e0, d.0, d.1, cs.drop_first());
        lemma_deliver_seq_step(top, stack, cs);
        assert(e0 + rr.len() as int == e);
    }
}

/// The number of `(` characters at or after `i` that stand outside quoted
/// atoms: the content of a quoted atom is skipped whole, and nothing counts
/// after an unclosed quote, where the parse stops.
pub open spec fn open_paren_count(s: Seq<char>, i: int) -> nat
    decreases s.len() - i when 0 <= i <= s.len()
{
    if i == s.len() {
        0
    } else if s[i] == '(' {
        1 + open_paren_count(s, i + 1)
    } else if s[i] == '"' {
        match quote_len(s, i + 1) {
            None => 0,
            Some(d) => {
                proof {
                    lemma_quote_len(s, i + 1);
                }
                open_paren_count(s, i + d + 2)
            },
        }
    } else {
        open_paren_count(s, i + 1)
    }
}

/// The number of lists anywhere in one tree.
pub open spec fn list_count_obj(o: SObj) -> nat
    decreases o,
{
    match o {
        SObj::Atom(_) => 0,
        SObj::List(cs) => 1 + list_count(cs),
    }
}

/// The number of lists anywhere in a sequence of trees.
pub open spec fn list_count(cs: Seq<SObj>) -> nat
    decreases cs,
{
    if cs.len() == 0 {
        0
    } else {
        list_count_obj(cs[0]) + list_count(cs.drop_first())
    }
}

spec fn pending_list_count(stack: Seq<(int, Seq<SObj>)>) -> nat
    decreases stack,
{
    if stack.len() == 0 {
        0
    } else {
        pending_list_count(stack.drop_last()) + 1 + list_count(stack.last().1)
    }
}

proof fn lemma_list_count_push(cs: Seq<SObj>, o: SObj)
    ensures
        list_count(cs.push(o)) == list_count(cs) + list_count_obj(o),
    decreases cs,
{
    assert(list_count(cs.push(o)) == list_count_obj(cs.push(o)[0]) + list_count(
        cs.push(o).drop_first(),
    ));
    if cs.len() == 0 {
        assert(cs.push(o)[0] == o);
        assert(cs.push(o).drop_first() =~= Seq::<SObj>::empty());
        assert(list_count(cs.push(o).drop_first()) == 0);
    } else {
        assert(cs.push(o)[0] == cs[0]);
        assert(cs.push(o).drop_first() =~= cs.drop_first().push(o));
        lemma_list_count_push(cs.drop_first(), o);
        assert(list_count(cs) == list_count_obj(cs[0]) + list_count(cs.drop_first()));
    }
}

proof fn lemma_open_paren_count_word(s: Seq<char>, i: int, e: int)
    requires
        0 <= i <= e <= s.len(),
        forall|j: int| i <= j < e ==> is_word_char(#[trigger] s[j]),
    ensures
        open_paren_count(s, i) == open_paren_count(s, e),
    decreases e - i,
{
    if i < e {
        lemma_open_paren_count_word(s, i + 1, e);
    }
}

proof fn lemma_deliver_list_count(top: Seq<SObj>, stack: Seq<(int, Seq<SObj>)>, obj: SObj)
    ensures
        list_count(deliver(top, stack, obj).0) + pending_list_count(deliver(top, stack, obj).1)
            == list_count(top) + pending_list_count(stack) + list_count_obj(obj),
{
    if stack.len() == 0 {
        lemma_list_count_push(top, obj);
    } else {
        let last = stack[stack.len() - 1];
        let stack2 = stack.update(stack.len() - 1, (last.0, last.1.push(obj)));
        assert(stack2.drop_last() =~= stack.drop_last());
        assert(stack2.last() == (last.0, last.1.push(obj)));
        lemma_list_count_push(last.1, obj);
    }
}

proof fn lemma_run_list_count(s: Seq<char>, i: int, top: Seq<SObj>, stack: Seq<(int, Seq<SObj>)>)
    requires
        0 <= i <= s.len(),
    ensures
        match run(s, i, top, stack) {
            Ok(objs) => list_count(objs) == list_count(top) + pending_list_count(stack)
                + open_paren_count(s, i),
            Err(_) => true,
        },
    decreases s.len() - i,
{
    if i == s.len() {
    } else if is_lisp_whitespace(s[i]) {
        lemma_run_list_count(s, i + 1, top, stack);
    } else if s[i] == '(' {
        let stack2 = stack.push((i, Seq::<SObj>::empty()));
        assert(stack2.drop_last() =~= stack);
        lemma_run_list_count(s, i + 1, top, stack2);
    } else if s[i] == ')' {
        if stack.len() > 0 {
            let closed = SObj::List(stack[stack.len() - 1].1);
            let rest = stack.drop_last();
            lemma_deliver_list_count(top, rest, closed);
            let d = deliver(top, rest, closed);
            lemma_run_list_count(s, i + 1, d.0, d.1);
        }
    } else if s[i] == '"' {
        lemma_quote_len(s, i + 1);
        match quote_len(s, i + 1) {
            None => {},
            Some(dd) => {
                let atom = SObj::Atom(s.subrange(i, i + dd + 2));
                lemma_deliver_list_count(top, stack, atom);
                let d = deliver(top, stack, atom);
                lemma_run_list_count(s, i + dd + 2, d.0, d.1);
            },
        }
    } else {
        lemma_word_len(s, i);
        let l = word_len(s, i) as int;
        let atom = SObj::Atom(s.subrange(i, i + l));
        lemma_deliver_list_count(top, stack, atom);
        lemma_open_paren_count_word(s, i, i + l);
        let d = deliver(top, stack, atom);
        lemma_run_list_count(s, i + l, d.0, d.1);
    }
}

/// Each list of a successful parse corresponds to exactly one opening
/// parenthesis of the input outside quoted atoms: the tree opens one nesting
/// level for each such `(` and for nothing else.
pub proof fn lemma_list_count_matches_open_parens(s: Seq<char>, objs: Seq<SObj>)
    requires
        parse_model(s) == Ok::<Seq<SObj>, LispParsingError>(objs),
    ensures
        list_count(objs) == open_paren_count(s, 0),
{
    lemma_run_list_count(s, 0, Seq::empty(), Seq::empty());
}

/// The nesting depth of one tree: the number of lists on the longest path
/// from this node down to a leaf, the node itself included when it is a list.
pub open spec fn depth_obj(o: SObj) -> nat
    decreases o,
{
    match o {
        SObj::Atom(_) => 0,
        SObj::List(cs) => (1 + depth_seq(cs)) as nat,
    }
}

/// The nesting depth of the deepest tree of a sequence.
pub open spec fn depth_seq(cs: Seq<SObj>) -> nat
    decreases cs,
{
    if cs.len() == 0 {
        0
    } else {
        max(depth_obj(cs[0]) as int, depth_seq(cs.drop_first()) as int) as nat
    }
}

/// The deepest parenthesis nesting reached from index `i` onward, outside
/// quoted atoms, starting `cur` levels deep: each `(` opens a level, each `)`
/// closes one, and a quoted atom is skipped whole. After an unclosed quote
/// nothing counts, where the parse stops.
pub open spec fn max_nesting(s: Seq<char>, i: int, cur: int) -> int
    decreases s.len() - i when 0 <= i <= s.len()
{
    if i == s.len() {
        cur
    } else if s[i] == '(' {
        max(cur, max_nesting(s, i + 1, cur + 1))
    } else if s[i] == ')' {
        max(cur, max_nesting(s, i + 1, cur - 1))
    } else if s[i] == '"' {
        match quote_len(s, i + 1) {
            None => cur,
            Some(d) => {
                proof {
                    lemma_quote_len(s, i + 1);
                }
                max(cur, max_nesting(s, i + d + 2, cur))
            },
        }
    } else {
        max(cur, max_nesting(s, i + 1, cur))
    }
}

proof fn lemma_max_nesting_ge(s: Seq<char>, i: int, cur: int)
    requires
        0 <= i <= s.len(),
    ensures
        max_nesting(s, i, cur) >= cur,
{
}

proof fn lemma_max_nesting_word(s: Seq<char>, i: int, e: int, cur: int)
    requires
        0 <= i <= e <= s.len(),
        forall|j: int| i <= j < e ==> is_word_char(#[trigger] s[j]),
    ensures
        max_nesting(s, i, cur) == max_nesting(s, e, cur),
    decreases e - i,
{
    if i < e {
        lemma_max_nesting_word(s, i + 1, e, cur);
        lemma_max_nesting_ge(s, i + 1, cur);
    }
}

proof fn lemma_depth_seq_push(cs: Seq<SObj>, o: SObj)
    ensures
        depth_seq(cs.push(o)) == max(depth_seq(cs) as int, depth_obj(o) as int),
    decreases cs,
{
    assert(depth_seq(cs.push(o)) == max(
        depth_obj(cs.push(o)[0]) as int,
        depth_seq(cs.push(o).drop_first()) as int,
    ) as nat);
    if cs.len() == 0 {
        assert(cs.push(o)[0] == o);
        assert(cs.push(o).drop_first() =~= Seq::<SObj>::empty());
        assert(depth_seq(cs.push(o).drop_first()) == 0);
    } else {
        assert(cs.push(o)[0] == cs[0]);
        assert(cs.push(o).drop_first() =~= cs.drop_first().push(o));
        lemma_depth_seq_push(cs.drop_first(), o);
        assert(depth_seq(cs) == max(depth_obj(cs[0]) as int, depth_seq(cs.drop_first()) as int)
            as nat);
    }
}

/// The deepest nesting already pledged by the open lists: the children
/// collected by the list opened `k + 1` levels deep sit at least `k + 1`
/// levels deep themselves.
spec fn stack_depth(stack: Seq<(int, Seq<SObj>)>) -> int
    decreases stack,
{
    if stack.len() == 0 {
        0
    } else {
        max(stack_depth(stack.drop_last()), stack.len() + depth_seq(stack.last().1) as int)
    }
}

proof fn lemma_run_depth(s: Seq<char>, i: int, top: Seq<SObj>, stack: Seq<(int, Seq<SObj>)>)
    requires
        0 <= i <= s.len(),
    ensures
        match run(s, i, top, stack) {
            Ok(objs) => depth_seq(objs) == max(
                max(depth_seq(top) as int, stack_depth(stack)),
                max_nesting(s, i, stack.len() as int),
            ),
            Err(_) => true,
        },
    decreases s.len() - i,
{
    if i == s.len() {
        if stack.len() == 0 {
            assert(stack_depth(stack) == 0);
        }
    } else if is_lisp_whitespace(s[i]) {
        lemma_run_depth(s, i + 1, top, stack);
        lemma_max_nesting_ge(s, i + 1, stack.len() as int);
    } else if s[i] == '(' {
        let stack2 = stack.push((i, Seq::<SObj>::empty()));
        assert(stack2.drop_last() =~= stack);
        assert(depth_seq(stack2.last().1) == 0);
        lemma_run_depth(s, i + 1, top, stack2);
        lemma_max_nesting_ge(s, i + 1, stack.len() as int + 1);
    } else if s[i] == ')' {
        if stack.len() > 0 {
            let children = stack[stack.len() - 1].1;
            let closed = SObj::List(children);
            let rest = stack.drop_last();
            let d = deliver(top, rest, closed);
            if rest.len() == 0 {
                lemma_depth_seq_push(top, closed);
            } else {
                let parent = rest[rest.len() - 1];
                let rest2 = rest.update(rest.len() - 1, (parent.0, parent.1.push(closed)));
                assert(rest2.drop_last() =~= rest.drop_last());
                assert(rest2.last() == (parent.0, parent.1.push(closed)));
                lemma_depth_seq_push(parent.1, closed);
                assert(stack_depth(d.1) == max(
                    stack_depth(rest.drop_last()),
                    rest.len() + max(depth_seq(parent.1) as int, 1 + depth_seq(children) as int),
                ));
            }
            lemma_run_depth(s, i + 1, d.0, d.1);
            lemma_max_nesting_ge(s, i + 1, stack.len() - 1);
            assert(d.1.len() == stack.len() - 1);
            assert(run(s, i, top, stack) == run(s, i + 1, d.0, d.1));
            assert(max_nesting(s, i, stack.len() as int) == max(
                stack.len() as int,
                max_nesting(s, i + 1, stack.len() - 1),
            ));
            assert(stack.last().1 == children);
            assert(depth_obj(closed) == 1 + depth_seq(children));
            assert(stack_depth(stack) == max(
                stack_depth(rest),
                stack.len() + depth_seq(children) as int,
            ));
            if rest.len() == 0 {
                assert(stack_depth(rest) == 0);
                assert(depth_seq(d.0) == max(
                    depth_seq(top) as int,
                    1 + depth_seq(children) as int,
                ));
                assert(stack_depth(d.1) == 0);
            } else {
                assert(stack_depth(rest) == max(
                    stack_depth(rest.drop_last()),
                    rest.len() + depth_seq(rest.last().1) as int,
                ));
                assert(stack_depth(d.1) == stack_depth(stack));
                assert(d.0 == top);
            }
        }
    } else if s[i] == '"' {
        lemma_quote_len(s, i + 1);
        match quote_len(s, i + 1) {
            None => {},
            Some(dd) => {
                let atom = SObj::Atom(s.subrange(i, i + dd + 2));
                let d = deliver(top, stack, atom);
                if stack.len() == 0 {
                    lemma_depth_seq_push(top, atom);
                } else {
                    let last = stack[stack.len() - 1];
                    let stack2 = stack.update(stack.len() - 1, (last.0, last.1.push(atom)));
                    assert(stack2.drop_last() =~= stack.drop_last());
                    assert(stack2.last() == (last.0, last.1.push(atom)));
                    lemma_depth_seq_push(last.1, atom);
                }
                lemma_run_depth(s, i + dd + 2, d.0, d.1);
                lemma_max_nesting_ge(s, i + dd + 2, stack.len() as int);
            },
        }
    } else {
        lemma_word_len(s, i);
        let l = word_len(s, i) as int;
        let atom = SObj::Atom(s.subrange(i, i + l));
        let d = deliver(top, stack, atom);
        if stack.len() == 0 {
            lemma_depth_seq_push(top, atom);
        } else {
            let last = stack[stack.len() - 1];
            let stack2 = stack.update(stack.len() - 1, (last.0, last.1.push(atom)));
            assert(stack2.drop_last() =~= stack.drop_last());
            assert(stack2.last() == (last.0, last.1.push(atom)));
            lemma_depth_seq_push(last.1, atom);
        }
        lemma_max_nesting_word(s, i, i + l, stack.len() as int);
        lemma_run_depth(s, i + l, d.0, d.1);
        lemma_max_nesting_ge(s, i + l, stack.len() as int);
    }
}

/// The nesting depth of a successful parse equals the deepest parenthesis
/// nesting of the input outside quoted atoms: the tree nests exactly as the
/// parentheses of the input do.
pub proof fn lemma_depth_matches_nesting(s: Seq<char>, objs: Seq<SObj>)
    requires
        parse_model(s) == Ok::<Seq<SObj>, LispParsingError>(objs),
    ensures
        depth_seq(objs) == max_nesting(s, 0, 0),
{
    lemma_run_depth(s, 0, Seq::empty(), Seq::empty());
    lemma_max_nesting_ge(s, 0, 0);
}

/// Rendering well-formed trees back to text — each object preceded by a
/// single space, each list as its children between parentheses — re-parses
/// to exactly those trees.
pub proof fn lemma_render_round_trip(objs: Seq<SObj>)
    requires
        wf_objs(objs),
    ensures
        parse_model(render_objs(objs)) == Ok::<Seq<SObj>, LispParsingError>(objs),
{
    let s = render_objs(objs);
    assert(s.subrange(0, s.len() as int) =~= s);
    lemma_run_render_objs(s, 0, Seq::empty(), Seq::empty(), objs);
    assert(deliver_seq(Seq::empty(), Seq::empty(), objs).0 =~= objs) by {
        assert(Seq::<SObj>::empty() + objs =~= objs);
    }
}

/// Re-parse idempotence: the text rendered from the trees of a successful
/// parse parses back to exactly the same trees.
pub proof fn lemma_reparse_render(s: Seq<char>, objs: Seq<SObj>)
    requires
        parse_model(s) == Ok::<Seq<SObj>, LispParsingError>(objs),
    ensures
        parse_model(render_objs(objs)) == Ok::<Seq<SObj>, LispParsingError>(objs),
{
    lemma_parsed_objects_well_formed(s, objs);
    lemma_render_round_trip(objs);
}

/// The position of every reported error is the position of a character
/// actually present in the input: the unclosed opening quote, the unclosed
/// opening parenthesis, or the unexpected closing parenthesis itself.
pub proof fn lemma_error_position_in_input(s: Seq<char>, e: LispParsingError)
    requires
        parse_model(s) == Err::<Seq<SObj>, LispParsingError>(e),
    ensures
        exists|j: int|
            0 <= j < s.len() && position_of(s, j) == error_position(e) && s[j] == error_char(e),
{
    lemma_run_wf(s, 0, Seq::empty(), Seq::empty());
}

} // verus!
