//! Splitting an expression into tokens, and recognising operator tokens.
use vstd::prelude::*;
use vstd::string::*;
use vstd::utf8::*;

verus! {

/// The byte that separates tokens: an ASCII space.
pub const SPACE: u8 = 32;

/// The pieces of `s` between single space bytes, in order.
///
/// A leading, trailing or doubled space yields an empty piece, and an empty
/// input is one empty piece.
pub open spec fn pieces(s: Seq<u8>) -> Seq<Seq<u8>>
    decreases s.len(),
{
    if s.len() == 0 {
        seq![Seq::<u8>::empty()]
    } else {
        let rest = pieces(s.drop_first());
        if s[0] == SPACE {
            seq![Seq::<u8>::empty()] + rest
        } else {
            rest.update(0, seq![s[0]] + rest[0])
        }
    }
}

/// The UTF-8 bytes of each token.
pub open spec fn token_bytes<'a>(toks: Seq<&'a str>) -> Seq<Seq<u8>> {
    toks.map_values(|t: &'a str| t.spec_bytes())
}

/// There is always at least one piece.
pub proof fn lemma_pieces_nonempty(s: Seq<u8>)
    ensures
        pieces(s).len() >= 1,
    decreases s.len(),
{
    if s.len() > 0 {
        lemma_pieces_nonempty(s.drop_first());
    }
}

/// A prefix without spaces belongs to the first piece.
proof fn lemma_pieces_prefix(s: Seq<u8>, k: int)
    requires
        0 <= k <= s.len(),
        forall|j: int| 0 <= j < k ==> s[j] != SPACE,
    ensures
        pieces(s) == pieces(s.skip(k)).update(0, s.take(k) + pieces(s.skip(k))[0]),
    decreases k,
{
    lemma_pieces_nonempty(s.skip(k));
    let q = pieces(s.skip(k));
    if k == 0 {
        assert(s.skip(0) =~= s);
        assert(s.take(0) + q[0] =~= q[0]);
        assert(q.update(0, q[0]) =~= q);
    } else {
        let t = s.drop_first();
        lemma_pieces_prefix(t, k - 1);
        assert(t.skip(k - 1) =~= s.skip(k));
        assert(seq![s[0]] + (t.take(k - 1) + q[0]) =~= s.take(k) + q[0]);
        assert(pieces(s) =~= q.update(0, s.take(k) + q[0]));
    }
}

/// A token that ends at the first space is the first piece.
proof fn lemma_pieces_cut(s: Seq<u8>, k: int)
    requires
        0 <= k < s.len(),
        s[k] == SPACE,
        forall|j: int| 0 <= j < k ==> s[j] != SPACE,
    ensures
        pieces(s) == seq![s.take(k)] + pieces(s.skip(k + 1)),
{
    lemma_pieces_prefix(s, k);
    let r = s.skip(k);
    assert(r.drop_first() =~= s.skip(k + 1));
    assert(s.take(k) + Seq::<u8>::empty() =~= s.take(k));
    assert(pieces(s) =~= seq![s.take(k)] + pieces(s.skip(k + 1)));
}

/// Without any space, the whole input is the one piece.
proof fn lemma_pieces_last(s: Seq<u8>)
    requires
        forall|j: int| 0 <= j < s.len() ==> s[j] != SPACE,
    ensures
        pieces(s) == seq![s],
{
    lemma_pieces_prefix(s, s.len() as int);
    assert(s.skip(s.len() as int) =~= Seq::<u8>::empty());
    assert(s.take(s.len() as int) + Seq::<u8>::empty() =~= s);
    assert(pieces(s) =~= seq![s]);
}

/// In valid UTF-8, the byte after a space starts a character.
proof fn lemma_boundary_after_space(b: Seq<u8>)
    requires
        valid_utf8(b),
        b.len() > 0,
        b[0] == SPACE,
    ensures
        is_char_boundary(b, 1),
{
    assert(length_of_first_scalar(b) == 1);
    reveal_with_fuel(is_char_boundary, 2);
}

/// Splits `raw` on every single space byte.
///
/// The tokens borrow from `raw`; an empty input, as well as leading,
/// trailing and doubled spaces, give empty tokens.
pub fn split_tokens<'a>(raw: &'a str) -> (toks: Vec<&'a str>)
    ensures
        token_bytes(toks@) == pieces(raw.spec_bytes()),
{
    let bytes = raw.as_bytes();
    let ghost all = bytes@;
    let mut toks: Vec<&'a str> = Vec::new();
    let mut rest: &'a str = raw;
    let mut start: usize = 0;
    let mut i: usize = 0;
    proof {
        assert(all.skip(0) =~= all);
        assert(token_bytes(toks@) =~= Seq::<Seq<u8>>::empty());
        assert(pieces(all) =~= token_bytes(toks@) + pieces(all.skip(0)));
    }
    while i < bytes.len()
        invariant
            bytes@ == all,
            all == raw.spec_bytes(),
            start <= i <= all.len(),
            rest.spec_bytes() == all.skip(start as int),
            forall|j: int| start <= j < i ==> all[j] != SPACE,
            pieces(all) == token_bytes(toks@) + pieces(all.skip(start as int)),
        decreases all.len() - i,
    {
        if bytes[i] == SPACE {
            let k = i - start;
            let ghost r = rest.spec_bytes();
            proof {
                encode_utf8_valid_utf8(rest@);
                assert(r[k as int] == SPACE);
                is_char_boundary_iff_not_is_continuation_byte(r, k as int);
                lemma_pieces_cut(r, k as int);
            }
            let (tok, tail) = rest.split_at(k);
            proof {
                assert(tail.spec_bytes() =~= r.skip(k as int));
                encode_utf8_valid_utf8(tail@);
                lemma_boundary_after_space(tail.spec_bytes());
            }
            let (_, next) = tail.split_at(1);
            proof {
                assert(tok.spec_bytes() =~= r.take(k as int));
                assert(next.spec_bytes() =~= all.skip(i + 1));
                assert(r.skip(k + 1) =~= all.skip(i + 1));
                assert(token_bytes(toks@.push(tok)) =~= token_bytes(toks@).push(r.take(k as int)));
            }
            toks.push(tok);
            rest = next;
            start = i + 1;
        }
        i = i + 1;
    }
    proof {
        let r = all.skip(start as int);
        lemma_pieces_last(r);
        assert(token_bytes(toks@.push(rest)) =~= token_bytes(toks@).push(r));
    }
    toks.push(rest);
    proof {
        assert(pieces(all) =~= token_bytes(toks@));
    }
    toks
}

/// A binary operator of the expression language.
#[derive(Clone, Copy, Debug, PartialEq, Eq, Structural)]
pub enum Op {
    Add,
    Sub,
    Mul,
    Div,
}

/// The operator that a token spells, if any: exactly one of `+ - * /`.
pub open spec fn spec_operator(t: Seq<u8>) -> Option<Op> {
    if t == seq![43u8] {
        Some(Op::Add)
    } else if t == seq![45u8] {
        Some(Op::Sub)
    } else if t == seq![42u8] {
        Some(Op::Mul)
    } else if t == seq![47u8] {
        Some(Op::Div)
    } else {
        None
    }
}

/// Recognises an operator token.
pub fn operator_of(t: &str) -> (r: Option<Op>)
    ensures
        r == spec_operator(t.spec_bytes()),
{
    let b = t.as_bytes();
    if b.len() != 1 {
        proof {
            assert(seq![43u8].len() == 1);
        }
        return None;
    }
    let c = b[0];
    proof {
        assert(b@ =~= seq![c]);
    }
    if c == 43 {
        Some(Op::Add)
    } else if c == 45 {
        Some(Op::Sub)
    } else if c == 42 {
        Some(Op::Mul)
    } else if c == 47 {
        Some(Op::Div)
    } else {
        None
    }
}

} // verus!
