//! The public data types of the parser and the executable parser itself.

use vstd::prelude::*;
use vstd::string::StrSliceExecFns;
use crate::model::SObj;
use crate::model::deliver;
use crate::model::is_lisp_whitespace;
use crate::model::position_of;
use crate::model::parse_model;
use crate::model::result_matches_model;
use crate::model::run;
use crate::scanner::is_whitespace_char;
use crate::scanner::position_at;
use crate::scanner::scan_quote_close;
use crate::scanner::scan_word_end;

verus! {

broadcast use vstd::seq::group_seq_axioms, vstd::std_specs::vec::group_vec_axioms;

/// A 1-based (line, column) coordinate of a character in the input text.
///
/// The line number increments only after a line-feed (`U+000A`); the column
/// resets to 1 on the character immediately following a line-feed. The
/// line-feed itself occupies the last column of its own line.
#[derive(Clone, Copy, PartialEq, Eq, Debug, Structural)]
pub struct TextPosition {
    pub line: usize,
    pub column: usize,
}

/// The first structural fault found by a parse, with the position of the
/// construct that caused it.
#[derive(Clone, Copy, PartialEq, Eq, Debug, Structural)]
pub enum LispParsingError {
    /// An opening quote of a string literal was never closed.
    UnclosedQuote { opening_quote_position: TextPosition },
    /// An opening parenthesis of a list was never closed.
    UnclosedParenthesis { opening_parenthesis_position: TextPosition },
    /// A closing parenthesis appeared at the top level, outside of any list.
    UnexpectedClosingParenthesis { closing_parenthesis_position: TextPosition },
}

/// A syntactic object: either an atom (a word or a quoted string, reproduced
/// verbatim from the input, quotes included) or a list of objects.
#[derive(Eq, Debug)]
pub enum LispObject {
    String(String),
    List(Vec<Self>),
}

/// The result of parsing a whole program.
pub type LispProgramParsingResult = Result<Vec<LispObject>, LispParsingError>;

impl LispObject {
    /// The mathematical value of a syntactic object: its tree of character
    /// sequences.
    pub open spec fn model(self) -> crate::model::SObj
        decreases self,
    {
        match self {
            LispObject::String(s) => crate::model::SObj::Atom(s@),
            LispObject::List(v) => crate::model::SObj::List(model_seq(v@)),
        }
    }
}

/// The mathematical value of a sequence of syntactic objects.
pub open spec fn model_seq(v: Seq<LispObject>) -> Seq<crate::model::SObj>
    decreases v,
{
    Seq::new(
        v.len(),
        |i: int|
            if 0 <= i < v.len() {
                v[i].model()
            } else {
                crate::model::SObj::Atom(Seq::empty())
            },
    )
}

/// Structural equality of two syntactic objects: equal when their
/// mathematical values are equal.
pub fn obj_eq(a: &LispObject, b: &LispObject) -> (r: bool)
    ensures
        r == (a.model() == b.model()),
    decreases a.model(),
{
    match a {
        LispObject::String(x) => match b {
            LispObject::String(y) => x.eq(y),
            LispObject::List(_) => false,
        },
        LispObject::List(u) => match b {
            LispObject::String(_) => false,
            LispObject::List(w) => {
                if u.len() != w.len() {
                    proof {
                        assert(model_seq(u@).len() != model_seq(w@).len());
                    }
                    return false;
                }
                let mut k: usize = 0;
                while k < u.len()
                    invariant
                        a.model() == SObj::List(model_seq(u@)),
                        b.model() == SObj::List(model_seq(w@)),
                        u@.len() == w@.len(),
                        k <= u@.len(),
                        forall|j: int| 0 <= j < k ==> (#[trigger] u@[j]).model() == w@[j].model(),
                    decreases u@.len() - k,
                {
                    proof {
                        assert(decreases_to!(a.model() => a.model()->List_0));
                        assert(decreases_to!(a.model()->List_0 => a.model()->List_0[k as int]));
                        assert(a.model()->List_0[k as int] == u@[k as int].model());
                    }
                    if !obj_eq(&u[k], &w[k]) {
                        proof {
                            assert(model_seq(u@)[k as int] != model_seq(w@)[k as int]);
                        }
                        return false;
                    }
                    k = k + 1;
                }
                proof {
                    assert(model_seq(u@) =~= model_seq(w@));
                }
                true
            },
        },
    }
}

impl PartialEq for LispObject {
    fn eq(&self, other: &LispObject) -> (r: bool) {
        obj_eq(self, other)
    }
}

impl vstd::std_specs::cmp::PartialEqSpecImpl for LispObject {
    open spec fn obeys_eq_spec() -> bool {
        true
    }

    open spec fn eq_spec(&self, other: &LispObject) -> bool {
        self.model() == other.model()
    }
}

/// The mathematical value of a stack of open lists: each frame is the index
/// of its opening parenthesis and the children collected so far.
pub open spec fn frames_model(st: Seq<(usize, Vec<LispObject>)>) -> Seq<(int, Seq<SObj>)> {
    Seq::new(st.len(), |k: int| (st[k].0 as int, model_seq(st[k].1@)))
}

/// Hands a finished object to its owner: the top level if no list is open,
/// the innermost open list otherwise.
fn deliver_object(
    top: &mut Vec<LispObject>,
    stack: &mut Vec<(usize, Vec<LispObject>)>,
    obj: LispObject,
)
    ensures
        model_seq(final(top)@) == deliver(
            model_seq(old(top)@),
            frames_model(old(stack)@),
            obj.model(),
        ).0,
        frames_model(final(stack)@) == deliver(
            model_seq(old(top)@),
            frames_model(old(stack)@),
            obj.model(),
        ).1,
        final(stack)@.len() == old(stack)@.len(),
        forall|k: int| 0 <= k < old(stack)@.len() ==> final(stack)@[k].0 == old(stack)@[k].0,
{
    let ghost m = obj.model();
    if stack.len() == 0 {
        top.push(obj);
        proof {
            assert(model_seq(top@) =~= model_seq(old(top)@).push(m));
        }
    } else {
        let (open, mut children) = stack.pop().unwrap();
        children.push(obj);
        stack.push((open, children));
        proof {
            let pre = frames_model(old(stack)@);
            let last = pre[pre.len() - 1];
            assert(model_seq(children@) =~= last.1.push(m));
            assert(frames_model(stack@) =~= pre.update(pre.len() - 1, (last.0, last.1.push(m))));
        }
    }
}

/// A single-pass parser over one input program.
pub struct LispParser<'program> {
    program: &'program str,
}

impl View for LispParser<'_> {
    type V = Seq<char>;

    closed spec fn view(&self) -> Seq<char> {
        self.program@
    }
}

impl<'program> LispParser<'program> {
    /// Makes a parser for the given program text.
    pub fn new(program: &'program str) -> (p: Self)
        ensures
            p@ == program@,
    {
        LispParser { program }
    }

    /// Parses the whole program: returns the sequence of top-level objects,
    /// or the first parsing error with the position of the construct that
    /// caused it. The result is exactly the model's value of the input.
    pub fn parse_program(&mut self) -> (r: LispProgramParsingResult)
        ensures
            final(self)@ == old(self)@,
            result_matches_model(r, old(self)@),
    {
        let s = self.program;
        let n = s.unicode_len();
        let mut i: usize = 0;
        let mut top: Vec<LispObject> = Vec::new();
        let mut stack: Vec<(usize, Vec<LispObject>)> = Vec::new();
        proof {
            assert(model_seq(top@) =~= Seq::<SObj>::empty());
            assert(frames_model(stack@) =~= Seq::<(int, Seq<SObj>)>::empty());
        }
        while i < n
            invariant
                s@ == old(self)@,
                n == s@.len(),
                i <= n,
                forall|k: int| 0 <= k < stack@.len() ==> (#[trigger] stack@[k]).0 < i,
                run(s@, i as int, model_seq(top@), frames_model(stack@)) == parse_model(s@),
            decreases n - i,
        {
            let c = s.get_char(i);
            if is_whitespace_char(c) {
                i = i + 1;
            } else if c == '(' {
                let ghost pre = frames_model(stack@);
                stack.push((i, Vec::new()));
                proof {
                    assert(model_seq(stack@[stack@.len() - 1].1@) =~= Seq::<SObj>::empty());
                    assert(frames_model(stack@) =~= pre.push((i as int, Seq::empty())));
                }
                i = i + 1;
            } else if c == ')' {
                if stack.len() == 0 {
                    let p = position_at(s, i, n);
                    return Err(LispParsingError::UnexpectedClosingParenthesis {
                        closing_parenthesis_position: p,
                    });
                }
                let ghost pre = frames_model(stack@);
                let (_open, children) = stack.pop().unwrap();
                proof {
                    assert(frames_model(stack@) =~= pre.drop_last());
                    assert(model_seq(children@) == pre[pre.len() - 1].1);
                }
                let obj = LispObject::List(children);
                deliver_object(&mut top, &mut stack, obj);
                i = i + 1;
            } else if c == '"' {
                match scan_quote_close(s, i + 1, n) {
                    None => {
                        let p = position_at(s, i, n);
                        return Err(LispParsingError::UnclosedQuote {
                            opening_quote_position: p,
                        });
                    },
                    Some(close) => {
                        let text = s.substring_char(i, close + 1).to_owned();
                        let obj = LispObject::String(text);
                        deliver_object(&mut top, &mut stack, obj);
                        i = close + 1;
                    },
                }
            } else {
                let j = scan_word_end(s, i, n);
                let text = s.substring_char(i, j).to_owned();
                let obj = LispObject::String(text);
                deliver_object(&mut top, &mut stack, obj);
                i = j;
            }
        }
        if stack.len() > 0 {
            let open = stack[stack.len() - 1].0;
            let p = position_at(s, open, n);
            return Err(LispParsingError::UnclosedParenthesis {
                opening_parenthesis_position: p,
            });
        }
        Ok(top)
    }
}

} // verus!
