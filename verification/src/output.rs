//! The sorter and emitter: drain the table, sort its pairs ascending by
//! count, and render the report from the highest count down, one
//! `word count` line per distinct token.
use vstd::prelude::*;

use crate::table::{lists_entries, pair_views, FrequencyTable};

verus! {

/// Ascending by count; ties may stand in any order.
pub open spec fn sorted_asc(ps: Seq<(Seq<u8>, nat)>) -> bool {
    forall|i: int, j: int|
        #![trigger ps[i], ps[j]]
        0 <= i < j < ps.len() ==> ps[i].1 <= ps[j].1
}

/// The decimal digits of `n`, most significant first.
pub open spec fn dec_digits(n: nat) -> Seq<u8>
    decreases n,
{
    if n < 10 {
        seq![(48 + n) as u8]
    } else {
        dec_digits(n / 10).push((48 + n % 10) as u8)
    }
}

/// One report line: the word, one space, its count in decimal, a line feed.
pub open spec fn line_of(w: Seq<u8>, c: nat) -> Seq<u8> {
    w + seq![32u8] + dec_digits(c) + seq![10u8]
}

/// The report for `ps` emitted from its last pair to its first: with `ps`
/// ascending by count, the highest count comes out first.
pub open spec fn rendered_rev(ps: Seq<(Seq<u8>, nat)>) -> Seq<u8>
    decreases ps.len(),
{
    if ps.len() == 0 {
        Seq::empty()
    } else {
        line_of(ps.last().0, ps.last().1) + rendered_rev(ps.drop_last())
    }
}

/// Appends the decimal digits of `n` to `out`.
fn push_digits(out: &mut Vec<u8>, n: usize)
    ensures
        final(out)@ == old(out)@ + dec_digits(n as nat),
    decreases n,
{
    if n < 10 {
        out.push(48 + n as u8);
        assert(out@ =~= old(out)@ + dec_digits(n as nat));
    } else {
        push_digits(out, n / 10);
        out.push(48 + (n % 10) as u8);
        assert(dec_digits(n as nat) == dec_digits((n as nat) / 10).push(
            (48 + (n as nat) % 10) as u8,
        ));
        assert((n / 10) as nat == (n as nat) / 10);
        assert(out@ =~= old(out)@ + dec_digits(n as nat));
    }
}

/// Puts the pairs in ascending count order, moving nothing in or out: the
/// sorted list still lists exactly the entries of `m`.
fn sort_by_count(pairs: &mut Vec<(Vec<u8>, usize)>, Ghost(m): Ghost<Map<Seq<u8>, nat>>)
    requires
        lists_entries(pair_views(old(pairs)@), m),
    ensures
        (lists_entries(pair_views(final(pairs)@), m)),
        (sorted_asc(pair_views(final(pairs)@))),
{
    let n = pairs.len();
    let mut i: usize = 1;
    while i < n
        invariant
            n == pairs@.len(),
            1 <= i,
            lists_entries(pair_views(pairs@), m),
            forall|a: int, b: int|
                #![trigger pairs@[a], pairs@[b]]
                0 <= a < b < i && b < n ==> pairs@[a].1 <= pairs@[b].1,
        decreases n - i,
    {
        let ghost s = pairs@;
        let ti = pairs[i].1;
        let mut k: usize = 0;
        while k < i && pairs[k].1 <= ti
            invariant
                k <= i,
                i < n,
                n == pairs@.len(),
                pairs@ == s,
                ti == s[i as int].1,
                forall|a: int| 0 <= a < k ==> (#[trigger] s[a]).1 <= ti,
            decreases i - k,
        {
            k = k + 1;
        }
        if k < i {
            let p = pairs.remove(i);
            pairs.insert(k, p);
            proof {
                lemma_sort_step(s, pairs@, m, k as int, i as int);
            }
        }
        i = i + 1;
    }
    proof {
        let ps = pair_views(pairs@);
        assert forall|a: int, b: int|
            #![trigger ps[a], ps[b]]
            0 <= a < b < ps.len() implies ps[a].1 <= ps[b].1 by {
            assert(ps[a] == (pairs@[a].0@, pairs@[a].1 as nat));
            assert(ps[b] == (pairs@[b].0@, pairs@[b].1 as nat));
        }
    }
}

/// One insertion step of the sort: moving the pair at `i` back to slot `k`
/// keeps the new prefix through `i` sorted and keeps the list an exact
/// listing of `m`'s entries.
proof fn lemma_sort_step(s: Seq<(Vec<u8>, usize)>, t: Seq<(Vec<u8>, usize)>, m: Map<Seq<u8>, nat>, k: int, i: int)
    requires
        0 <= k < i < s.len(),
        t == s.remove(i).insert(k, s[i]),
        lists_entries(pair_views(s), m),
        forall|a: int, b: int|
            #![trigger s[a], s[b]]
            0 <= a < b < i ==> s[a].1 <= s[b].1,
        forall|a: int| 0 <= a < k ==> (#[trigger] s[a]).1 <= s[i].1,
        s[k].1 > s[i].1,
    ensures
        t.len() == s.len(),
        lists_entries(pair_views(t), m),
        forall|a: int, b: int|
            #![trigger t[a], t[b]]
            0 <= a < b < i + 1 ==> t[a].1 <= t[b].1,
{
    let s1 = s.remove(i);
    s.remove_ensures(i);
    s1.insert_ensures(k, s[i]);
    assert(t.len() == s.len());
    // Where each slot of `t` came from in `s`.
    assert forall|a: int| 0 <= a < t.len() implies t[a] == s[source_slot(a, k, i)] by {
        if a < k {
            assert(t[a] == s1[a]);
        } else if a == k {
            assert(t[a] == s[i]);
        } else {
            assert(s1.insert(k, s[i])[(a - 1) + 1] == s1[a - 1]);
            assert(t[a] == s1[a - 1]);
        }
    }
    let ps = pair_views(s);
    let pt = pair_views(t);
    assert forall|a: int| 0 <= a < s.len() implies #[trigger] ps[a] == (s[a].0@, s[a].1 as nat)
        && pt[a] == (t[a].0@, t[a].1 as nat) by {}
    assert forall|a: int, b: int|
        #![trigger t[a], t[b]]
        0 <= a < b < i + 1 implies t[a].1 <= t[b].1 by {
        assert(t[a] == s[source_slot(a, k, i)]);
        assert(t[b] == s[source_slot(b, k, i)]);
        if b == k {
            assert(s[a].1 <= s[i].1);
        } else if a == k {
            assert(s[k].1 <= s[b - 1].1);
        }
    }
    assert forall|a: int, b: int|
        #![trigger pt[a], pt[b]]
        0 <= a < b < pt.len() implies pt[a].0 != pt[b].0 by {
        let sa = source_slot(a, k, i);
        let sb = source_slot(b, k, i);
        assert(t[a] == s[sa]);
        assert(t[b] == s[sb]);
        assert(sa != sb);
        if sa < sb {
            assert(ps[sa].0 != ps[sb].0);
        } else {
            assert(ps[sb].0 != ps[sa].0);
        }
    }
    assert forall|a: int| 0 <= a < pt.len() implies m.contains_key((#[trigger] pt[a]).0)
        && pt[a].1 == m[pt[a].0] by {
        let sa = source_slot(a, k, i);
        assert(t[a] == s[sa]);
        assert(m.contains_key(ps[sa].0) && ps[sa].1 == m[ps[sa].0]);
    }
    assert forall|w: Seq<u8>| #[trigger] m.contains_key(w) implies exists|a: int|
        0 <= a < pt.len() && (#[trigger] pt[a]).0 == w by {
        let c = choose|c: int| 0 <= c < ps.len() && (#[trigger] ps[c]).0 == w;
        let a = target_slot(c, k, i);
        assert(source_slot(a, k, i) == c);
        assert(t[a] == s[c]);
        assert(0 <= a < pt.len() && pt[a].0 == w);
    }
}

/// The slot of `s` that slot `a` of the reshuffled list holds.
spec fn source_slot(a: int, k: int, i: int) -> int {
    if a < k {
        a
    } else if a == k {
        i
    } else if a <= i {
        a - 1
    } else {
        a
    }
}

/// The slot of the reshuffled list that holds slot `c` of `s`.
spec fn target_slot(c: int, k: int, i: int) -> int {
    if c < k {
        c
    } else if c == i {
        k
    } else if c < i {
        c + 1
    } else {
        c
    }
}

/// Drains the table, sorts by count, and renders the report: one line per
/// distinct token, `word count`, highest count first, ties in no promised
/// order, and nothing else.
pub fn emit_lines(table: FrequencyTable) -> (out: Vec<u8>)
    ensures
        (exists|ps: Seq<(Seq<u8>, nat)>|
            lists_entries(ps, table@) && sorted_asc(ps) && out@ == rendered_rev(ps)),
{
    let ghost m = table@;
    let mut pairs = table.into_pairs();
    sort_by_count(&mut pairs, Ghost(m));
    let ghost ps = pair_views(pairs@);
    assert forall|a: int| 0 <= a < pairs@.len() implies #[trigger] ps[a] == (
        pairs@[a].0@,
        pairs@[a].1 as nat,
    ) by {}
    let mut out: Vec<u8> = Vec::new();
    let mut i: usize = pairs.len();
    proof {
        assert(ps.take(i as int) =~= ps);
        assert(out@ =~= Seq::<u8>::empty());
    }
    while i > 0
        invariant
            i <= pairs@.len(),
            ps == pair_views(pairs@),
            ps.len() == pairs@.len(),
            out@ + rendered_rev(ps.take(i as int)) == rendered_rev(ps),
        decreases i,
    {
        i = i - 1;
        let ghost out0 = out@;
        let w = &pairs[i].0;
        let mut b: usize = 0;
        while b < w.len()
            invariant
                b <= w@.len(),
                w@ == pairs@[i as int].0@,
                i < pairs@.len(),
                out@ == out0 + w@.take(b as int),
            decreases w@.len() - b,
        {
            out.push(w[b]);
            b = b + 1;
            proof {
                assert(w@.take(b as int) =~= w@.take(b as int - 1).push(w@[b as int - 1]));
                assert(out@ =~= out0 + w@.take(b as int));
            }
        }
        proof {
            assert(w@.take(w@.len() as int) =~= w@);
        }
        out.push(32);
        let count = pairs[i].1;
        push_digits(&mut out, count);
        out.push(10);
        proof {
            let pr = ps[i as int];
            assert(pr == (pairs@[i as int].0@, pairs@[i as int].1 as nat));
            assert(out@ =~= out0 + line_of(pr.0, pr.1));
            let tk = ps.take(i as int + 1);
            assert(tk.last() == pr);
            assert(tk.drop_last() =~= ps.take(i as int));
            assert(rendered_rev(tk) == line_of(pr.0, pr.1) + rendered_rev(ps.take(i as int)));
            assert(out0 + (line_of(pr.0, pr.1) + rendered_rev(ps.take(i as int))) =~= (out0
                + line_of(pr.0, pr.1)) + rendered_rev(ps.take(i as int)));
        }
    }
    proof {
        assert(ps.take(0) =~= Seq::<(Seq<u8>, nat)>::empty());
        assert(out@ + Seq::<u8>::empty() =~= out@);
        assert(out@ == rendered_rev(ps));
    }
    out
}

} // verus!
