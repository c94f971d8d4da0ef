//! The normalizer and the tokenizer: fold a chunk to lowercase in place,
//! check that it is well-formed text, and split it into owned tokens.
use vstd::prelude::*;

use crate::model::{is_space, lower_byte, lower_seq, tokens, tokens_acc};

verus! {

/// Whether a byte sequence is well-formed UTF-8, as `core::str::from_utf8`
/// decides it; the answer depends on the bytes alone.
pub uninterp spec fn is_text(s: Seq<u8>) -> bool;

/// Relies on core::str::from_utf8: it returns `Ok` exactly on well-formed
/// UTF-8 input, a function of the bytes alone.
#[verifier::external_body]
pub fn utf8_ok(buf: &Vec<u8>) -> (r: bool)
    ensures
        r == is_text(buf@),
{
    core::str::from_utf8(buf).is_ok()
}

/// The refusal a chunk of malformed text earns: the stream is treated as
/// corrupt and processing stops.
#[derive(Debug, PartialEq, Eq, Structural)]
pub struct TextError;

/// Checks a chunk and splits it: the tokens of well-formed text, in stream
/// order, or a refusal on malformed bytes.
pub fn checked_tokens(buf: &Vec<u8>) -> (r: Result<Vec<Vec<u8>>, TextError>)
    ensures
        r is Ok <==> is_text(buf@),
        r matches Ok(ts) ==> ts.deep_view() == tokens(buf@),
{
    if utf8_ok(buf) {
        Ok(tokenize(buf))
    } else {
        Err(TextError)
    }
}

/// Folds every ASCII uppercase byte of a chunk to lowercase, in place,
/// leaving every other byte alone.
pub fn normalize(buf: &mut Vec<u8>)
    ensures
        final(buf)@ == lower_seq(old(buf)@),
{
    let n = buf.len();
    let mut i: usize = 0;
    while i < n
        invariant
            n == buf.len(),
            0 <= i <= n,
            forall|j: int| 0 <= j < i ==> buf@[j] == lower_byte(old(buf)@[j]),
            forall|j: int| i <= j < n ==> buf@[j] == old(buf)@[j],
        decreases n - i,
    {
        let b = buf[i];
        if 65 <= b && b <= 90 {
            buf.set(i, b + 32);
        }
        i = i + 1;
    }
    assert(buf@ =~= lower_seq(old(buf)@));
}

/// True of the bytes that `split_ascii_whitespace` treats as delimiters.
pub fn is_delimiter(b: u8) -> (r: bool)
    ensures
        r == is_space(b),
{
    b == 32 || b == 9 || b == 10 || b == 12 || b == 13
}

/// Splits a chunk into its whitespace-delimited tokens, each an owned copy
/// of a maximal run of non-delimiter bytes, in stream order.
pub fn tokenize(buf: &Vec<u8>) -> (r: Vec<Vec<u8>>)
    ensures
        r.deep_view() == tokens(buf@),
{
    let n = buf.len();
    let mut out: Vec<Vec<u8>> = Vec::new();
    let mut cur: Vec<u8> = Vec::new();
    let mut i: usize = 0;
    assert(out.deep_view() =~= Seq::<Seq<u8>>::empty());
    assert(buf@.skip(0) =~= buf@);
    assert(out.deep_view() + tokens_acc(buf@.skip(0), cur@) =~= tokens_acc(buf@, Seq::empty()));
    while i < n
        invariant
            n == buf.len(),
            0 <= i <= n,
            tokens(buf@) == out.deep_view() + tokens_acc(buf@.skip(i as int), cur@),
        decreases n - i,
    {
        let ghost prev_out = out.deep_view();
        let ghost prev_cur = cur@;
        let ghost rest = buf@.skip(i as int);
        assert(rest[0] == buf@[i as int]);
        assert(rest.skip(1) =~= buf@.skip(i as int + 1));
        let b = buf[i];
        if is_delimiter(b) {
            if cur.len() > 0 {
                let done = cur;
                cur = Vec::new();
                out.push(done);
                assert(out.deep_view() =~~= prev_out.push(prev_cur));
                assert(tokens_acc(rest, prev_cur) == seq![prev_cur] + tokens_acc(
                    rest.skip(1),
                    Seq::empty(),
                ));
                assert(prev_out + (seq![prev_cur] + tokens_acc(rest.skip(1), Seq::empty()))
                    =~= prev_out.push(prev_cur) + tokens_acc(rest.skip(1), Seq::empty()));
            } else {
                assert(tokens_acc(rest, prev_cur) == tokens_acc(rest.skip(1), Seq::empty()));
            }
            assert(cur@ =~= Seq::<u8>::empty());
        } else {
            cur.push(b);
            assert(cur@ =~= prev_cur.push(buf@[i as int]));
            assert(tokens_acc(rest, prev_cur) == tokens_acc(
                rest.skip(1),
                prev_cur.push(rest[0]),
            ));
        }
        i = i + 1;
    }
    assert(buf@.skip(n as int) =~= Seq::<u8>::empty());
    if cur.len() > 0 {
        let ghost prev_out = out.deep_view();
        let ghost prev_cur = cur@;
        assert(tokens_acc(Seq::<u8>::empty(), prev_cur) == seq![prev_cur]);
        out.push(cur);
        assert(out.deep_view() =~~= prev_out.push(prev_cur));
        assert(prev_out + seq![prev_cur] =~= prev_out.push(prev_cur));
    } else {
        assert(tokens_acc(Seq::<u8>::empty(), cur@) == Seq::<Seq<u8>>::empty());
        assert(out.deep_view() + Seq::<Seq<u8>>::empty() =~= out.deep_view());
    }
    out
}

} // verus!
