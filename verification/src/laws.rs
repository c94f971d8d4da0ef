//! Proofs about the model: counting is insensitive to how the stream is cut
//! at delimiter boundaries, doubling the input doubles every count, and the
//! pipelined token stream tallies exactly as the sequential loop does.
use vstd::prelude::*;

use crate::model::{
    boundary_aligned, bump, chunk_fold, counts_from, is_space, lower_seq, occ, stream_tokens,
    tokens, tokens_acc, word_counts,
};

verus! {

/// Occurrence counts add up over concatenated token lists.
pub proof fn lemma_occ_append(a: Seq<Seq<u8>>, b: Seq<Seq<u8>>, w: Seq<u8>)
    ensures
        occ(a + b, w) == occ(a, w) + occ(b, w),
    decreases a.len(),
{
    if a.len() == 0 {
        assert(a + b =~= b);
    } else {
        assert((a + b).skip(1) =~= a.skip(1) + b);
        lemma_occ_append(a.skip(1), b, w);
    }
}

/// Folding a concatenated token list equals folding its parts in turn.
pub proof fn lemma_counts_from_append(m: Map<Seq<u8>, nat>, a: Seq<Seq<u8>>, b: Seq<Seq<u8>>)
    ensures
        counts_from(m, a + b) == counts_from(counts_from(m, a), b),
    decreases a.len(),
{
    if a.len() == 0 {
        assert(a + b =~= b);
    } else {
        assert((a + b).skip(1) =~= a.skip(1) + b);
        lemma_counts_from_append(bump(m, a[0]), a.skip(1), b);
    }
}

/// The fold of a token list records exactly the occurrence count of every
/// word, on top of whatever the starting map already held.
pub proof fn lemma_counts_from_occ(m: Map<Seq<u8>, nat>, ts: Seq<Seq<u8>>, w: Seq<u8>)
    ensures
        counts_from(m, ts).contains_key(w) <==> (m.contains_key(w) || occ(ts, w) > 0),
        counts_from(m, ts).contains_key(w) ==> counts_from(m, ts)[w] == (if m.contains_key(w) {
            m[w]
        } else {
            0nat
        }) + occ(ts, w),
    decreases ts.len(),
{
    if ts.len() == 0 {
    } else {
        lemma_counts_from_occ(bump(m, ts[0]), ts.skip(1), w);
    }
}

/// One more token folds in as one more `bump`.
pub proof fn lemma_counts_from_push(m: Map<Seq<u8>, nat>, a: Seq<Seq<u8>>, x: Seq<u8>)
    ensures
        counts_from(m, a.push(x)) == bump(counts_from(m, a), x),
{
    assert(a.push(x) =~= a + seq![x]);
    lemma_counts_from_append(m, a, seq![x]);
    assert(seq![x].skip(1) =~= Seq::<Seq<u8>>::empty());
    assert(seq![x][0] == x);
    assert(counts_from(m, a + seq![x]) == counts_from(counts_from(m, a), seq![x]));
    assert(counts_from(counts_from(m, a), seq![x]) == counts_from(
        bump(counts_from(m, a), x),
        seq![x].skip(1),
    ));
    assert(counts_from(bump(counts_from(m, a), x), Seq::<Seq<u8>>::empty()) == bump(
        counts_from(m, a),
        x,
    ));
}

/// A byte sequence never holds more tokens than bytes (counting one more
/// for a token already begun).
pub proof fn lemma_tokens_len_bound(s: Seq<u8>, cur: Seq<u8>)
    ensures
        tokens_acc(s, cur).len() <= s.len() + if cur.len() > 0 {
            1nat
        } else {
            0nat
        },
    decreases s.len(),
{
    if s.len() == 0 {
    } else if is_space(s[0]) {
        lemma_tokens_len_bound(s.skip(1), Seq::empty());
    } else {
        lemma_tokens_len_bound(s.skip(1), cur.push(s[0]));
    }
}

/// Tokenizing stops cleanly at a delimiter: when `a` ends in one, the tokens
/// of `a + b` are the tokens of `a` followed by the tokens of `b`.
pub proof fn lemma_tokens_split(a: Seq<u8>, b: Seq<u8>, cur: Seq<u8>)
    requires
        a.len() > 0,
        is_space(a.last()),
    ensures
        tokens_acc(a + b, cur) == tokens_acc(a, cur) + tokens_acc(b, Seq::empty()),
    decreases a.len(),
{
    assert((a + b)[0] == a[0]);
    if a.len() == 1 {
        assert(a[0] == a.last());
        assert((a + b).skip(1) =~= b);
        assert(a.skip(1) =~= Seq::<u8>::empty());
        assert(tokens_acc(a.skip(1), Seq::<u8>::empty()) == Seq::<Seq<u8>>::empty());
        if cur.len() == 0 {
            assert(tokens_acc(a + b, cur) == tokens_acc(b, Seq::empty()));
            assert(tokens_acc(a, cur) == Seq::<Seq<u8>>::empty());
            assert(tokens_acc(a, cur) + tokens_acc(b, Seq::empty()) =~= tokens_acc(
                b,
                Seq::empty(),
            ));
        } else {
            assert(tokens_acc(a + b, cur) == seq![cur] + tokens_acc(b, Seq::empty()));
            assert(tokens_acc(a, cur) == seq![cur] + Seq::<Seq<u8>>::empty());
            assert(tokens_acc(a, cur) + tokens_acc(b, Seq::empty()) =~= seq![cur] + tokens_acc(
                b,
                Seq::empty(),
            ));
        }
    } else {
        assert((a + b).skip(1) =~= a.skip(1) + b);
        assert(a.skip(1).last() == a.last());
        if is_space(a[0]) {
            lemma_tokens_split(a.skip(1), b, Seq::empty());
            if cur.len() == 0 {
                assert(tokens_acc(a + b, cur) == tokens_acc(a.skip(1) + b, Seq::empty()));
                assert(tokens_acc(a, cur) == tokens_acc(a.skip(1), Seq::empty()));
            } else {
                assert(tokens_acc(a + b, cur) == seq![cur] + tokens_acc(
                    a.skip(1) + b,
                    Seq::empty(),
                ));
                assert(tokens_acc(a, cur) == seq![cur] + tokens_acc(a.skip(1), Seq::empty()));
                assert((seq![cur] + tokens_acc(a.skip(1), Seq::empty())) + tokens_acc(
                    b,
                    Seq::empty(),
                ) =~= seq![cur] + (tokens_acc(a.skip(1), Seq::empty()) + tokens_acc(
                    b,
                    Seq::empty(),
                )));
            }
        } else {
            lemma_tokens_split(a.skip(1), b, cur.push(a[0]));
            assert(tokens_acc(a + b, cur) == tokens_acc(a.skip(1) + b, cur.push(a[0])));
            assert(tokens_acc(a, cur) == tokens_acc(a.skip(1), cur.push(a[0])));
        }
    }
}

/// A trailing delimiter adds no token.
pub proof fn lemma_tokens_trailing_space(s: Seq<u8>, sp: u8, cur: Seq<u8>)
    requires
        is_space(sp),
    ensures
        tokens_acc(s.push(sp), cur) == tokens_acc(s, cur),
    decreases s.len(),
{
    if s.len() == 0 {
        assert(s.push(sp)[0] == sp);
        assert(s.push(sp).skip(1) =~= Seq::<u8>::empty());
        if cur.len() == 0 {
            assert(tokens_acc(s.push(sp), cur) == tokens_acc(s.push(sp).skip(1), Seq::empty()));
            assert(tokens_acc(s.push(sp).skip(1), Seq::<u8>::empty()) == Seq::<Seq<u8>>::empty());
            assert(tokens_acc(s, cur) == Seq::<Seq<u8>>::empty());
        } else {
            assert(seq![cur] + Seq::<Seq<u8>>::empty() =~= seq![cur]);
            assert(tokens_acc(s.push(sp), cur) == seq![cur] + tokens_acc(
                s.push(sp).skip(1),
                Seq::empty(),
            ));
            assert(tokens_acc(s, cur) == seq![cur]);
        }
    } else {
        assert(s.push(sp)[0] == s[0]);
        assert(s.push(sp).skip(1) =~= s.skip(1).push(sp));
        if is_space(s[0]) {
            lemma_tokens_trailing_space(s.skip(1), sp, Seq::empty());
        } else {
            lemma_tokens_trailing_space(s.skip(1), sp, cur.push(s[0]));
        }
    }
}

/// Lowercasing a concatenation is the concatenation of the lowercased parts.
pub proof fn lemma_lower_seq_append(a: Seq<u8>, b: Seq<u8>)
    ensures
        lower_seq(a + b) == lower_seq(a) + lower_seq(b),
{
    assert(lower_seq(a + b) =~= lower_seq(a) + lower_seq(b));
}

/// Folding chunks one at a time tallies the same map as one pass over the
/// whole stream, provided every chunk but the last ends at a delimiter.
proof fn lemma_chunk_fold_flatten(m: Map<Seq<u8>, nat>, chunks: Seq<Seq<u8>>)
    requires
        boundary_aligned(chunks),
    ensures
        chunk_fold(m, chunks) == counts_from(m, tokens(lower_seq(chunks.flatten()))),
    decreases chunks.len(),
{
    if chunks.len() == 0 {
        assert(chunks.flatten() =~= Seq::<u8>::empty());
        assert(lower_seq(chunks.flatten()) =~= Seq::<u8>::empty());
        assert(tokens(lower_seq(chunks.flatten())) == Seq::<Seq<u8>>::empty());
        assert(counts_from(m, tokens(lower_seq(chunks.flatten()))) == m);
        assert(chunk_fold(m, chunks) == m);
    } else {
        let c0 = chunks[0];
        let rest = chunks.skip(1);
        assert(chunks.first() == c0);
        assert(chunks.drop_first() =~= rest);
        assert(chunks.flatten() == chunks.first() + chunks.drop_first().flatten());
        assert(chunks.flatten() == c0 + rest.flatten());
        assert(boundary_aligned(rest)) by {
            assert forall|i: int|
                0 <= i < rest.len() - 1 && rest[i].len() > 0 implies is_space(
                rest[i].last(),
            ) by {
                assert(rest[i] == chunks[i + 1]);
            }
        }
        lemma_lower_seq_append(c0, rest.flatten());
        let lc0 = lower_seq(c0);
        let lrest = lower_seq(rest.flatten());
        assert(lower_seq(chunks.flatten()) == lc0 + lrest);
        let m1 = counts_from(m, tokens(lc0));
        assert(chunk_fold(m, chunks) == chunk_fold(m1, rest));
        if rest.len() == 0 {
            assert(lrest =~= Seq::<u8>::empty());
            assert(lc0 + lrest =~= lc0);
            assert(chunk_fold(m1, rest) == m1);
        } else if c0.len() == 0 {
            assert(lc0 =~= Seq::<u8>::empty());
            assert(lc0 + lrest =~= lrest);
            assert(tokens(lc0) == Seq::<Seq<u8>>::empty());
            assert(m1 == m);
            lemma_chunk_fold_flatten(m, rest);
        } else {
            assert(is_space(c0.last()));
            assert(lc0.last() == crate::model::lower_byte(c0.last()));
            assert(is_space(lc0.last()));
            assert(lc0.len() > 0);
            lemma_tokens_split(lc0, lrest, Seq::empty());
            assert(tokens(lc0 + lrest) == tokens(lc0) + tokens(lrest));
            lemma_counts_from_append(m, tokens(lc0), tokens(lrest));
            lemma_chunk_fold_flatten(m1, rest);
            assert(chunk_fold(m1, rest) == counts_from(m1, tokens(lrest)));
            assert(counts_from(m1, tokens(lrest)) == counts_from(
                m,
                tokens(lc0) + tokens(lrest),
            ));
        }
    }
}

/// Boundary safety: cutting the input into chunks at delimiter boundaries
/// (each chunk but the last empty or ending in a delimiter, as the chunk
/// reader guarantees) and tallying chunk by chunk yields exactly the counts
/// of one pass over the whole input.
pub proof fn lemma_boundary_safety(chunks: Seq<Seq<u8>>)
    requires
        boundary_aligned(chunks),
    ensures
        chunk_fold(Map::<Seq<u8>, nat>::empty(), chunks) == word_counts(chunks.flatten()),
{
    lemma_chunk_fold_flatten(Map::<Seq<u8>, nat>::empty(), chunks);
}

/// Doubling the input doubles every count: joining two copies of a stream
/// with a single space keeps exactly the same words, each counted twice.
pub proof fn lemma_double_input(s: Seq<u8>)
    ensures
        forall|w: Seq<u8>| #[trigger] word_counts(s + seq![32u8] + s).contains_key(w)
            <==> word_counts(s).contains_key(w),
        forall|w: Seq<u8>| #[trigger] word_counts(s).contains_key(w) ==> word_counts(
            s + seq![32u8] + s,
        )[w] == 2 * word_counts(s)[w],
{
    let ls = lower_seq(s);
    let a = s + seq![32u8];
    assert(lower_seq(a) =~= ls.push(32u8));
    lemma_tokens_trailing_space(ls, 32u8, Seq::empty());
    assert(tokens(lower_seq(a)) == tokens(ls));
    assert(lower_seq(a).len() > 0);
    assert(lower_seq(a).last() == 32);
    lemma_lower_seq_append(a, s);
    lemma_tokens_split(lower_seq(a), ls, Seq::empty());
    let t = tokens(ls);
    assert(tokens(lower_seq(a + s)) == t + t);
    assert forall|w: Seq<u8>| #[trigger] word_counts(a + s).contains_key(w) <==> word_counts(
        s,
    ).contains_key(w) by {
        lemma_occ_append(t, t, w);
        lemma_counts_from_occ(Map::<Seq<u8>, nat>::empty(), t + t, w);
        lemma_counts_from_occ(Map::<Seq<u8>, nat>::empty(), t, w);
    }
    assert forall|w: Seq<u8>| #[trigger] word_counts(s).contains_key(w) implies word_counts(
        a + s,
    )[w] == 2 * word_counts(s)[w] by {
        lemma_occ_append(t, t, w);
        lemma_counts_from_occ(Map::<Seq<u8>, nat>::empty(), t + t, w);
        lemma_counts_from_occ(Map::<Seq<u8>, nat>::empty(), t, w);
    }
}

/// The pipelined fold equals the sequential fold, chunk list by chunk list.
proof fn lemma_stream_fold(m: Map<Seq<u8>, nat>, chunks: Seq<Seq<u8>>)
    ensures
        counts_from(m, stream_tokens(chunks)) == chunk_fold(m, chunks),
    decreases chunks.len(),
{
    if chunks.len() == 0 {
    } else {
        lemma_counts_from_append(
            m,
            tokens(lower_seq(chunks[0])),
            stream_tokens(chunks.skip(1)),
        );
        lemma_stream_fold(counts_from(m, tokens(lower_seq(chunks[0]))), chunks.skip(1));
    }
}

/// Pipeline equivalence: tallying the token stream that the two-stage
/// pipeline forwards token by token yields exactly the map that the
/// sequential loop builds chunk by chunk, for any division into chunks.
pub proof fn lemma_pipeline_equivalence(chunks: Seq<Seq<u8>>)
    ensures
        counts_from(Map::<Seq<u8>, nat>::empty(), stream_tokens(chunks)) == chunk_fold(
            Map::<Seq<u8>, nat>::empty(),
            chunks,
        ),
{
    lemma_stream_fold(Map::<Seq<u8>, nat>::empty(), chunks);
}

} // verus!
