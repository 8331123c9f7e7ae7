//! The stack reduction of a token sequence.
//!
//! The operand type `V` stays abstract: the caller hands in how a token is
//! read as an operand, how a right operand is tested for zero, and how an
//! operator combines two operands. Each of these is a relation as far as the
//! proofs are concerned, so the contracts say that the result is one that
//! the reduction can reach through values those functions may return.
use vstd::prelude::*;
use vstd::string::StringSliceAdditionalSpecFns;
use vstd::utf8::{encode_utf8, encode_utf8_decode_utf8};
use crate::token::{Op, operator_of, pieces, spec_operator, split_tokens, token_bytes};

verus! {

/// Why an expression has no value.
#[derive(Clone, Debug, PartialEq, Eq)]
pub enum EvalError {
    /// An operator found fewer than two operands on the stack.
    StackUnderflow,
    /// The right operand of `/` was zero.
    DivisionByZero,
    /// A token that is neither an operand nor an operator.
    UnknownToken(String),
    /// The stack did not hold exactly one value at the end.
    MalformedExpression { expected: usize, actual: usize },
}

/// `r` reports the unknown token `t`.
pub open spec fn unknown_token<V>(r: Result<V, EvalError>, t: Seq<char>) -> bool {
    r matches Err(EvalError::UnknownToken(s)) && s@ == t
}

/// The result once every token has been consumed with `stack` left over.
pub open spec fn finish<V>(stack: Seq<V>, r: Result<V, EvalError>) -> bool {
    if stack.len() == 1 {
        r == Ok::<V, EvalError>(stack[0])
    } else {
        r == Err::<V, EvalError>(
            EvalError::MalformedExpression { expected: 1, actual: stack.len() as usize },
        )
    }
}

/// Reducing `toks` from left to right, starting on `stack`, can end in `r`.
///
/// A token that `parse` reads as an operand is pushed. Any other token must
/// spell an operator, else the result is `UnknownToken`; the operator pops
/// the right and then the left operand (`StackUnderflow` if there are fewer
/// than two), fails with `DivisionByZero` for `/` over a zero right operand,
/// and otherwise pushes `apply(op, left, right)`. At the end, `finish`.
pub open spec fn reduces<'a, V, P, Z, A>(
    toks: Seq<&'a str>,
    stack: Seq<V>,
    parse: P,
    is_zero: Z,
    apply: A,
    r: Result<V, EvalError>,
) -> bool where P: Fn(&'a str) -> Option<V>, Z: Fn(V) -> bool, A: Fn(Op, V, V) -> V
    decreases toks.len(),
{
    if toks.len() == 0 {
        finish(stack, r)
    } else {
        let t = toks[0];
        let more = toks.drop_first();
        exists|o: Option<V>|
            #[trigger] parse.ensures((t,), o) && match o {
                Some(v) => reduces(more, stack.push(v), parse, is_zero, apply, r),
                None => match spec_operator(t.spec_bytes()) {
                    None => unknown_token(r, t@),
                    Some(op) => if stack.len() < 2 {
                        r == Err::<V, EvalError>(EvalError::StackUnderflow)
                    } else {
                        let left = stack[stack.len() - 2];
                        let right = stack[stack.len() - 1];
                        let below = stack.take(stack.len() - 2);
                        ||| (op == Op::Div && is_zero.ensures((right,), true) && r == Err::<
                            V,
                            EvalError,
                        >(EvalError::DivisionByZero))
                        ||| ((op != Op::Div || is_zero.ensures((right,), false)) && exists|x: V|
                            #[trigger] apply.ensures((op, left, right), x) && reduces(
                                more,
                                below.push(x),
                                parse,
                                is_zero,
                                apply,
                                r,
                            ))
                    },
                },
            }
    }
}

/// Reduces a sequence of tokens on an initially empty stack.
pub fn evaluate_tokens<'a, V: Copy, P, Z, A>(
    toks: &Vec<&'a str>,
    parse: P,
    is_zero: Z,
    apply: A,
) -> (r: Result<V, EvalError>) where
    P: Fn(&'a str) -> Option<V>,
    Z: Fn(V) -> bool,
    A: Fn(Op, V, V) -> V,

    requires
        forall|t: &'a str| #[trigger] parse.requires((t,)),
        forall|v: V| #[trigger] is_zero.requires((v,)),
        forall|op: Op, l: V, x: V| #[trigger] apply.requires((op, l, x)),
    ensures
        reduces(toks@, Seq::empty(), parse, is_zero, apply, r),
{
    let mut stack: Vec<V> = Vec::new();
    let mut i: usize = 0;
    proof {
        assert(toks@.skip(0) =~= toks@);
    }
    while i < toks.len()
        invariant
            0 <= i <= toks@.len(),
            forall|t: &'a str| #[trigger] parse.requires((t,)),
            forall|v: V| #[trigger] is_zero.requires((v,)),
            forall|op: Op, l: V, x: V| #[trigger] apply.requires((op, l, x)),
            forall|r: Result<V, EvalError>|
                #[trigger] reduces(toks@.skip(i as int), stack@, parse, is_zero, apply, r)
                    ==> reduces(toks@, Seq::empty(), parse, is_zero, apply, r),
        decreases toks@.len() - i,
    {
        let t = toks[i];
        let ghost here = toks@.skip(i as int);
        let ghost before = stack@;
        proof {
            assert(here[0] == t);
            assert(here.drop_first() =~= toks@.skip(i + 1));
        }
        let o = parse(t);
        match o {
            Some(v) => {
                stack.push(v);
                proof {
                    assert forall|r: Result<V, EvalError>|
                        #[trigger] reduces(
                            toks@.skip(i + 1),
                            stack@,
                            parse,
                            is_zero,
                            apply,
                            r,
                        ) implies reduces(toks@, Seq::empty(), parse, is_zero, apply, r) by {
                        assert(reduces(here, before, parse, is_zero, apply, r));
                    }
                }
            },
            None => {
                let op = match operator_of(t) {
                    Some(op) => op,
                    None => {
                        let r = Err(EvalError::UnknownToken(t.to_owned()));
                        proof {
                            assert(reduces(here, before, parse, is_zero, apply, r));
                        }
                        return r;
                    },
                };
                if stack.len() < 2 {
                    let r = Err(EvalError::StackUnderflow);
                    proof {
                        assert(reduces(here, before, parse, is_zero, apply, r));
                    }
                    return r;
                }
                let right = match stack.pop() {
                    Some(x) => x,
                    None => {
                        return Err(EvalError::StackUnderflow);
                    },
                };
                let left = match stack.pop() {
                    Some(x) => x,
                    None => {
                        return Err(EvalError::StackUnderflow);
                    },
                };
                proof {
                    assert(stack@ =~= before.take(before.len() - 2));
                }
                if op == Op::Div {
                    let z = is_zero(right);
                    if z {
                        let r = Err(EvalError::DivisionByZero);
                        proof {
                            assert(reduces(here, before, parse, is_zero, apply, r));
                        }
                        return r;
                    }
                }
                let x = apply(op, left, right);
                stack.push(x);
                proof {
                    assert forall|r: Result<V, EvalError>|
                        #[trigger] reduces(
                            toks@.skip(i + 1),
                            stack@,
                            parse,
                            is_zero,
                            apply,
                            r,
                        ) implies reduces(toks@, Seq::empty(), parse, is_zero, apply, r) by {
                        assert(reduces(here, before, parse, is_zero, apply, r));
                    }
                }
            },
        }
        i = i + 1;
    }
    proof {
        assert(toks@.skip(i as int) =~= Seq::<&'a str>::empty());
    }
    if stack.len() == 1 {
        let r = Ok(stack[0]);
        proof {
            assert(reduces(toks@.skip(i as int), stack@, parse, is_zero, apply, r));
        }
        r
    } else {
        let r = Err(EvalError::MalformedExpression { expected: 1, actual: stack.len() });
        proof {
            assert(reduces(toks@.skip(i as int), stack@, parse, is_zero, apply, r));
        }
        r
    }
}


/// Evaluating the text `raw` can end in `r`: for some tokens whose bytes are
/// the pieces of `raw` between single spaces, the reduction can end in `r`.
pub open spec fn evaluates<'a, V, P, Z, A>(
    raw: Seq<u8>,
    parse: P,
    is_zero: Z,
    apply: A,
    r: Result<V, EvalError>,
) -> bool where P: Fn(&'a str) -> Option<V>, Z: Fn(V) -> bool, A: Fn(Op, V, V) -> V {
    exists|toks: Seq<&'a str>|
        #[trigger] token_bytes(toks) == pieces(raw) && reduces(
            toks,
            Seq::empty(),
            parse,
            is_zero,
            apply,
            r,
        )
}

/// Evaluates the expression `raw`: its tokens are separated by single
/// spaces and reduced from left to right.
pub fn evaluate<'a, V: Copy, P, Z, A>(raw: &'a str, parse: P, is_zero: Z, apply: A) -> (r: Result<
    V,
    EvalError,
>) where P: Fn(&'a str) -> Option<V>, Z: Fn(V) -> bool, A: Fn(Op, V, V) -> V
    requires
        forall|t: &'a str| #[trigger] parse.requires((t,)),
        forall|v: V| #[trigger] is_zero.requires((v,)),
        forall|op: Op, l: V, x: V| #[trigger] apply.requires((op, l, x)),
    ensures
        evaluates(raw.spec_bytes(), parse, is_zero, apply, r),
{
    let toks = split_tokens(raw);
    evaluate_tokens(&toks, parse, is_zero, apply)
}

/// Both results are the same value, or the same error; an unknown token is
/// compared by its text.
pub open spec fn same_outcome<V>(a: Result<V, EvalError>, b: Result<V, EvalError>) -> bool {
    match a {
        Ok(x) => b == Ok::<V, EvalError>(x),
        Err(EvalError::UnknownToken(s)) => unknown_token(b, s@),
        Err(e) => b == Err::<V, EvalError>(e),
    }
}

/// `parse` gives one answer per token text, `is_zero` and `apply` one
/// answer per argument.
pub open spec fn functional<'a, V, P, Z, A>(parse: P, is_zero: Z, apply: A) -> bool where
    P: Fn(&'a str) -> Option<V>,
    Z: Fn(V) -> bool,
    A: Fn(Op, V, V) -> V,
 {
    &&& forall|t: &'a str, u: &'a str, o: Option<V>, q: Option<V>|
        t@ == u@ && #[trigger] parse.ensures((t,), o) && #[trigger] parse.ensures((u,), q) ==> o
            == q
    &&& forall|v: V, y: bool, z: bool|
        #[trigger] is_zero.ensures((v,), y) && #[trigger] is_zero.ensures((v,), z) ==> y == z
    &&& forall|op: Op, l: V, x: V, y: V, z: V|
        #[trigger] apply.ensures((op, l, x), y) && #[trigger] apply.ensures((op, l, x), z) ==> y
            == z
}

/// Tokens with the same bytes have the same text.
proof fn lemma_same_bytes_same_text(t: &str, u: &str)
    requires
        t.spec_bytes() == u.spec_bytes(),
    ensures
        t@ == u@,
{
    encode_utf8_decode_utf8(t@);
    encode_utf8_decode_utf8(u@);
}

/// With functional operand handling, reducing tokens of the same bytes from
/// the same stack always ends in the same outcome.
pub proof fn lemma_reduces_functional<'a, V, P, Z, A>(
    toks1: Seq<&'a str>,
    toks2: Seq<&'a str>,
    stack: Seq<V>,
    parse: P,
    is_zero: Z,
    apply: A,
    r1: Result<V, EvalError>,
    r2: Result<V, EvalError>,
) where P: Fn(&'a str) -> Option<V>, Z: Fn(V) -> bool, A: Fn(Op, V, V) -> V
    requires
        functional(parse, is_zero, apply),
        token_bytes(toks1) == token_bytes(toks2),
        reduces(toks1, stack, parse, is_zero, apply, r1),
        reduces(toks2, stack, parse, is_zero, apply, r2),
    ensures
        same_outcome(r1, r2),
    decreases toks1.len(),
{
    assert(toks1.len() == token_bytes(toks1).len());
    assert(toks2.len() == token_bytes(toks2).len());
    if toks1.len() > 0 {
        let t = toks1[0];
        let u = toks2[0];
        assert(token_bytes(toks1)[0] == t.spec_bytes());
        assert(token_bytes(toks2)[0] == u.spec_bytes());
        lemma_same_bytes_same_text(t, u);
        let more1 = toks1.drop_first();
        let more2 = toks2.drop_first();
        assert(token_bytes(more1) =~= token_bytes(toks1).drop_first());
        assert(token_bytes(more2) =~= token_bytes(toks2).drop_first());
        let o1 = choose|o: Option<V>|
            #[trigger] parse.ensures((t,), o) && match o {
                Some(v) => reduces(more1, stack.push(v), parse, is_zero, apply, r1),
                None => match spec_operator(t.spec_bytes()) {
                    None => unknown_token(r1, t@),
                    Some(op) => if stack.len() < 2 {
                        r1 == Err::<V, EvalError>(EvalError::StackUnderflow)
                    } else {
                        let left = stack[stack.len() - 2];
                        let right = stack[stack.len() - 1];
                        let below = stack.take(stack.len() - 2);
                        ||| (op == Op::Div && is_zero.ensures((right,), true) && r1 == Err::<
                            V,
                            EvalError,
                        >(EvalError::DivisionByZero))
                        ||| ((op != Op::Div || is_zero.ensures((right,), false)) && exists|x: V|
                            #[trigger] apply.ensures((op, left, right), x) && reduces(
                                more1,
                                below.push(x),
                                parse,
                                is_zero,
                                apply,
                                r1,
                            ))
                    },
                },
            };
        let o2 = choose|o: Option<V>|
            #[trigger] parse.ensures((u,), o) && match o {
                Some(v) => reduces(more2, stack.push(v), parse, is_zero, apply, r2),
                None => match spec_operator(u.spec_bytes()) {
                    None => unknown_token(r2, u@),
                    Some(op) => if stack.len() < 2 {
                        r2 == Err::<V, EvalError>(EvalError::StackUnderflow)
                    } else {
                        let left = stack[stack.len() - 2];
                        let right = stack[stack.len() - 1];
                        let below = stack.take(stack.len() - 2);
                        ||| (op == Op::Div && is_zero.ensures((right,), true) && r2 == Err::<
                            V,
                            EvalError,
                        >(EvalError::DivisionByZero))
                        ||| ((op != Op::Div || is_zero.ensures((right,), false)) && exists|x: V|
                            #[trigger] apply.ensures((op, left, right), x) && reduces(
                                more2,
                                below.push(x),
                                parse,
                                is_zero,
                                apply,
                                r2,
                            ))
                    },
                },
            };
        assert(o1 == o2);
        match o1 {
            Some(v) => {
                lemma_reduces_functional(
                    more1,
                    more2,
                    stack.push(v),
                    parse,
                    is_zero,
                    apply,
                    r1,
                    r2,
                );
            },
            None => {
                if stack.len() >= 2 {
                    let left = stack[stack.len() - 2];
                    let right = stack[stack.len() - 1];
                    let below = stack.take(stack.len() - 2);
                    if let Some(op) = spec_operator(t.spec_bytes()) {
                        let d1 = op == Op::Div && is_zero.ensures((right,), true) && r1 == Err::<
                            V,
                            EvalError,
                        >(EvalError::DivisionByZero);
                        let d2 = op == Op::Div && is_zero.ensures((right,), true) && r2 == Err::<
                            V,
                            EvalError,
                        >(EvalError::DivisionByZero);
                        if !d1 && !d2 {
                            let x1 = choose|x: V|
                                #[trigger] apply.ensures((op, left, right), x) && reduces(
                                    more1,
                                    below.push(x),
                                    parse,
                                    is_zero,
                                    apply,
                                    r1,
                                );
                            let x2 = choose|x: V|
                                #[trigger] apply.ensures((op, left, right), x) && reduces(
                                    more2,
                                    below.push(x),
                                    parse,
                                    is_zero,
                                    apply,
                                    r2,
                                );
                            lemma_reduces_functional(
                                more1,
                                more2,
                                below.push(x1),
                                parse,
                                is_zero,
                                apply,
                                r1,
                                r2,
                            );
                        }
                    }
                }
            },
        }
    }
}

/// Evaluating the same text twice gives the same outcome, as long as reading,
/// testing and combining operands each give one answer per argument.
pub proof fn lemma_evaluate_idempotent<'a, V, P, Z, A>(
    raw: Seq<u8>,
    parse: P,
    is_zero: Z,
    apply: A,
    r1: Result<V, EvalError>,
    r2: Result<V, EvalError>,
) where P: Fn(&'a str) -> Option<V>, Z: Fn(V) -> bool, A: Fn(Op, V, V) -> V
    requires
        functional(parse, is_zero, apply),
        evaluates(raw, parse, is_zero, apply, r1),
        evaluates(raw, parse, is_zero, apply, r2),
    ensures
        same_outcome(r1, r2),
{
    let toks1 = choose|toks: Seq<&'a str>|
        #[trigger] token_bytes(toks) == pieces(raw) && reduces(
            toks,
            Seq::empty(),
            parse,
            is_zero,
            apply,
            r1,
        );
    let toks2 = choose|toks: Seq<&'a str>|
        #[trigger] token_bytes(toks) == pieces(raw) && reduces(
            toks,
            Seq::empty(),
            parse,
            is_zero,
            apply,
            r2,
        );
    lemma_reduces_functional(toks1, toks2, Seq::empty(), parse, is_zero, apply, r1, r2);
}

/// Empty text never has a value: it is one empty token, which is no
/// operator, so unless it reads as an operand the result is `UnknownToken`.
pub proof fn lemma_empty_input_fails<'a, V, P, Z, A>(
    parse: P,
    is_zero: Z,
    apply: A,
    r: Result<V, EvalError>,
) where P: Fn(&'a str) -> Option<V>, Z: Fn(V) -> bool, A: Fn(Op, V, V) -> V
    requires
        forall|t: &'a str, o: Option<V>| t@.len() == 0 && #[trigger] parse.ensures((t,), o) ==> o
            is None,
        evaluates(Seq::empty(), parse, is_zero, apply, r),
    ensures
        unknown_token(r, Seq::empty()),
{
    let toks = choose|toks: Seq<&'a str>|
        #[trigger] token_bytes(toks) == pieces(Seq::empty()) && reduces(
            toks,
            Seq::empty(),
            parse,
            is_zero,
            apply,
            r,
        );
    assert(pieces(Seq::<u8>::empty()) == seq![Seq::<u8>::empty()]);
    assert(toks.len() == token_bytes(toks).len());
    let t = toks[0];
    assert(token_bytes(toks)[0] == t.spec_bytes());
    if t@.len() > 0 {
        assert(encode_utf8(t@).len() > 0);
    }
    assert(t@ =~= Seq::<char>::empty());
    assert(spec_operator(t.spec_bytes()) is None) by {
        assert(seq![43u8].len() == 1);
    }
}

/// Applies a binary function to two operands, left first.
pub fn do_operation<F, V>(f: F, v1: V, v2: V) -> (r: V) where F: Fn(V, V) -> V
    requires
        f.requires((v1, v2)),
    ensures
        f.ensures((v1, v2), r),
{
    f(v1, v2)
}

} // verus!
