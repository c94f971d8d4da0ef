//! The mathematical model of the word counter: what a delimiter is, how a
//! byte stream folds to lowercase, how it splits into tokens, and what the
//! resulting frequency map is.
use vstd::prelude::*;

verus! {

/// True of the ASCII bytes that delimit words: space, tab, line feed,
/// form feed and carriage return.
pub open spec fn is_space(b: u8) -> bool {
    b == 32 || b == 9 || b == 10 || b == 12 || b == 13
}

/// The lowercase counterpart of one byte: ASCII uppercase letters are
/// folded, every other byte is left alone.
pub open spec fn lower_byte(b: u8) -> u8 {
    if 65 <= b <= 90 {
        (b + 32) as u8
    } else {
        b
    }
}

/// A byte sequence with every ASCII uppercase byte folded to lowercase.
pub open spec fn lower_seq(s: Seq<u8>) -> Seq<u8> {
    s.map(|i: int, b: u8| lower_byte(b))
}

/// The tokens of `s` when a token already begun holds the bytes `cur`:
/// maximal runs of non-delimiter bytes, in stream order.
pub open spec fn tokens_acc(s: Seq<u8>, cur: Seq<u8>) -> Seq<Seq<u8>>
    decreases s.len(),
{
    if s.len() == 0 {
        if cur.len() == 0 {
            Seq::empty()
        } else {
            seq![cur]
        }
    } else if is_space(s[0]) {
        if cur.len() == 0 {
            tokens_acc(s.skip(1), Seq::empty())
        } else {
            seq![cur] + tokens_acc(s.skip(1), Seq::empty())
        }
    } else {
        tokens_acc(s.skip(1), cur.push(s[0]))
    }
}

/// The whitespace-delimited tokens of a byte sequence, in stream order.
pub open spec fn tokens(s: Seq<u8>) -> Seq<Seq<u8>> {
    tokens_acc(s, Seq::empty())
}

/// How many entries of `ts` equal the word `w`.
pub open spec fn occ(ts: Seq<Seq<u8>>, w: Seq<u8>) -> nat
    decreases ts.len(),
{
    if ts.len() == 0 {
        0
    } else {
        (occ(ts.skip(1), w) + if ts[0] == w {
            1nat
        } else {
            0nat
        }) as nat
    }
}

/// One word recorded into a frequency map: its count rises by one, or
/// starts at one if the word is new.
pub open spec fn bump(m: Map<Seq<u8>, nat>, w: Seq<u8>) -> Map<Seq<u8>, nat> {
    m.insert(
        w,
        if m.contains_key(w) {
            (m[w] + 1) as nat
        } else {
            1nat
        },
    )
}

/// A token list folded into a frequency map, one `bump` per token, in order.
pub open spec fn counts_from(m: Map<Seq<u8>, nat>, ts: Seq<Seq<u8>>) -> Map<Seq<u8>, nat>
    decreases ts.len(),
{
    if ts.len() == 0 {
        m
    } else {
        counts_from(bump(m, ts[0]), ts.skip(1))
    }
}

/// The frequency map of a whole byte stream taken in one pass:
/// lowercase it, split it, count every token.
pub open spec fn word_counts(s: Seq<u8>) -> Map<Seq<u8>, nat> {
    counts_from(Map::empty(), tokens(lower_seq(s)))
}

/// The frequency map after the sequential loop has consumed each chunk in
/// turn: per chunk, lowercase, split, and fold the tokens into `m`.
pub open spec fn chunk_fold(m: Map<Seq<u8>, nat>, chunks: Seq<Seq<u8>>) -> Map<Seq<u8>, nat>
    decreases chunks.len(),
{
    if chunks.len() == 0 {
        m
    } else {
        chunk_fold(counts_from(m, tokens(lower_seq(chunks[0]))), chunks.skip(1))
    }
}

/// The token stream that the two-stage pipeline carries: the tokens of each
/// lowercased chunk, chunk after chunk, in channel order.
pub open spec fn stream_tokens(chunks: Seq<Seq<u8>>) -> Seq<Seq<u8>>
    decreases chunks.len(),
{
    if chunks.len() == 0 {
        Seq::empty()
    } else {
        tokens(lower_seq(chunks[0])) + stream_tokens(chunks.skip(1))
    }
}

/// True when every chunk but the last is empty or ends in a delimiter, as
/// the chunk reader guarantees by extending each read to a line terminator.
pub open spec fn boundary_aligned(chunks: Seq<Seq<u8>>) -> bool {
    forall|i: int|
        0 <= i < chunks.len() - 1 && chunks[i].len() > 0 ==> is_space(chunks[i].last())
}

} // verus!
