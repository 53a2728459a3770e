use vstd::prelude::*;

use vstd::multiset::Multiset;

use crate::chunk::Chunk;

verus! {

/// The chunks stand in ascending order of their `index` fields.
pub open spec fn sorted_by_index(s: Seq<Chunk>) -> bool {
    forall|i: int, j: int| 0 <= i < j < s.len() ==> #[trigger] s[i].index <= #[trigger] s[j].index
}

/// Insertion of `c` into `s` at the last position that keeps ascending
/// indices: among equal indices the inserted chunk comes last.
pub open spec fn insert_by_index(s: Seq<Chunk>, c: Chunk) -> Seq<Chunk>
    decreases s.len(),
{
    if s.len() == 0 {
        seq![c]
    } else if s.last().index <= c.index {
        s.push(c)
    } else {
        insert_by_index(s.drop_last(), c).push(s.last())
    }
}

/// The chunks of `s` rearranged into ascending order of `index`, chunks of
/// equal index keeping their relative order.
pub open spec fn sort_by_index(s: Seq<Chunk>) -> Seq<Chunk>
    decreases s.len(),
{
    if s.len() == 0 {
        Seq::empty()
    } else {
        insert_by_index(sort_by_index(s.drop_last()), s.last())
    }
}

proof fn lemma_insert_by_index_ensures(s: Seq<Chunk>, c: Chunk)
    requires
        sorted_by_index(s),
    ensures
        sorted_by_index(insert_by_index(s, c)),
        insert_by_index(s, c).to_multiset() == s.to_multiset().insert(c),
        insert_by_index(s, c).len() == s.len() + 1,
    decreases s.len(),
{
    broadcast use vstd::seq_lib::group_to_multiset_ensures;
    broadcast use vstd::multiset::group_multiset_axioms;

    let r = insert_by_index(s, c);
    if s.len() == 0 {
        assert(seq![c] =~= Seq::<Chunk>::empty().push(c));
        assert(Seq::<Chunk>::empty().to_multiset() =~= Multiset::<Chunk>::empty());
        assert(r.to_multiset() =~= s.to_multiset().insert(c));
    } else if s.last().index <= c.index {
        assert forall|i: int, j: int| 0 <= i < j < r.len() implies #[trigger] r[i].index
            <= #[trigger] r[j].index by {
            if j == s.len() {
                if i < s.len() - 1 {
                    assert(s[i].index <= s[s.len() - 1].index);
                }
            }
        }
    } else {
        let t = s.drop_last();
        assert(sorted_by_index(t)) by {
            assert forall|i: int, j: int| 0 <= i < j < t.len() implies #[trigger] t[i].index
                <= #[trigger] t[j].index by {
                assert(s[i].index <= s[j].index);
            }
        }
        lemma_insert_by_index_ensures(t, c);
        let q = insert_by_index(t, c);
        // multiset: r == q.push(s.last())
        assert(r.to_multiset() =~= q.to_multiset().insert(s.last()));
        assert(s =~= t.push(s.last()));
        assert(s.to_multiset() =~= t.to_multiset().insert(s.last()));
        assert(r.to_multiset() =~= s.to_multiset().insert(c)) by {
            assert(q.to_multiset() =~= t.to_multiset().insert(c));
        }
        // sortedness: every element of q is either from t or is c itself
        assert forall|i: int, j: int| 0 <= i < j < r.len() implies #[trigger] r[i].index
            <= #[trigger] r[j].index by {
            if j == r.len() - 1 {
                // r[j] is s.last(); r[i] is q[i]
                assert(q.to_multiset().count(q[i]) > 0);
                assert(q.contains(q[i]));
                if q[i] == c {
                    assert(r[i].index <= r[j].index);
                } else {
                    assert(t.to_multiset().count(q[i]) > 0) by {
                        assert(q.to_multiset() =~= t.to_multiset().insert(c));
                    }
                    assert(t.contains(q[i]));
                    let k = choose|k: int| 0 <= k < t.len() && t[k] == q[i];
                    assert(s[k].index <= s[s.len() - 1].index);
                }
            }
        }
    }
}

proof fn lemma_sort_by_index_ensures(s: Seq<Chunk>)
    ensures
        sorted_by_index(sort_by_index(s)),
        sort_by_index(s).to_multiset() == s.to_multiset(),
        sort_by_index(s).len() == s.len(),
    decreases s.len(),
{
    broadcast use vstd::seq_lib::group_to_multiset_ensures;
    broadcast use vstd::multiset::group_multiset_axioms;

    if s.len() == 0 {
        assert(sort_by_index(s).to_multiset() =~= s.to_multiset());
    } else {
        let t = s.drop_last();
        lemma_sort_by_index_ensures(t);
        lemma_insert_by_index_ensures(sort_by_index(t), s.last());
        assert(s =~= t.push(s.last()));
        assert(s.to_multiset() =~= t.to_multiset().insert(s.last()));
        assert(sort_by_index(s).to_multiset() =~= s.to_multiset());
    }
}

/// A sequence in ascending index order that is a permutation of a sequence
/// whose indices are strictly ascending is that sequence itself.
pub proof fn lemma_sorted_perm_eq(x: Seq<Chunk>, y: Seq<Chunk>)
    requires
        sorted_by_index(x),
        forall|i: int, j: int| 0 <= i < j < y.len() ==> #[trigger] y[i].index < #[trigger] y[j].index,
        x.to_multiset() == y.to_multiset(),
    ensures
        x == y,
    decreases x.len(),
{
    broadcast use vstd::seq_lib::group_to_multiset_ensures;
    broadcast use vstd::multiset::group_multiset_axioms;

    if x.len() == 0 {
        assert(y.to_multiset().len() == 0);
        assert(x =~= y);
    } else {
        assert(x.to_multiset().len() == x.len());
        assert(y.to_multiset().len() == y.len());
        assert(y.len() == x.len());
        assert(x.contains(x[0]));
        assert(y.to_multiset().count(x[0]) > 0);
        assert(y.contains(x[0]));
        let j = choose|j: int| 0 <= j < y.len() && y[j] == x[0];
        assert(y.contains(y[0]));
        assert(x.to_multiset().count(y[0]) > 0);
        assert(x.contains(y[0]));
        let i = choose|i: int| 0 <= i < x.len() && x[i] == y[0];
        assert(x[0].index <= x[i].index);
        assert(y[0].index <= y[j].index) by {
            if j > 0 {
                assert(y[0].index < y[j].index);
            }
        }
        assert(x[0].index == y[0].index);
        assert(j == 0) by {
            if j > 0 {
                assert(y[0].index < y[j].index);
            }
        }
        assert(x[0] == y[0]);
        let xt = x.drop_first();
        let yt = y.drop_first();
        assert(xt.to_multiset() == yt.to_multiset()) by {
            assert(x.remove(0) =~= xt);
            assert(y.remove(0) =~= yt);
            assert(x.remove(0).to_multiset() =~= x.to_multiset().remove(x[0]));
            assert(y.remove(0).to_multiset() =~= y.to_multiset().remove(y[0]));
        }
        assert(sorted_by_index(xt)) by {
            assert forall|a: int, b: int| 0 <= a < b < xt.len() implies #[trigger] xt[a].index
                <= #[trigger] xt[b].index by {
                assert(x[a + 1].index <= x[b + 1].index);
            }
        }
        assert forall|a: int, b: int| 0 <= a < b < yt.len() implies #[trigger] yt[a].index
            < #[trigger] yt[b].index by {
            assert(y[a + 1].index < y[b + 1].index);
        }
        lemma_sorted_perm_eq(xt, yt);
        assert(x =~= seq![x[0]] + xt);
        assert(y =~= seq![y[0]] + yt);
        assert(x =~= y);
    }
}

proof fn lemma_insert_by_index_unroll(s: Seq<Chunk>, c: Chunk, p: int)
    requires
        0 <= p <= s.len(),
        forall|m: int| p <= m < s.len() ==> #[trigger] s[m].index > c.index,
        p == 0 || s[p - 1].index <= c.index,
    ensures
        insert_by_index(s, c) == s.insert(p, c),
    decreases s.len(),
{
    if s.len() == 0 {
        assert(insert_by_index(s, c) =~= s.insert(0, c));
    } else if p == s.len() {
        assert(s.last().index <= c.index);
        assert(insert_by_index(s, c) =~= s.insert(p, c));
    } else {
        assert(s[s.len() - 1].index > c.index);
        let t = s.drop_last();
        lemma_insert_by_index_unroll(t, c, p);
        assert(insert_by_index(t, c).push(s.last()) =~= s.insert(p, c)) by {
            assert(insert_by_index(t, c) == t.insert(p, c));
        }
    }
}

/// Inserts `c` into the ascending-by-index buffer `v`, after any chunks of
/// equal index that are already there.
fn insert_sorted(v: &mut Vec<Chunk>, c: Chunk)
    ensures
        final(v)@ == insert_by_index(old(v)@, c),
{
    let mut p: usize = v.len();
    while p > 0 && v[p - 1].index > c.index
        invariant
            p <= v@.len(),
            v@ == old(v)@,
            forall|m: int| p <= m < v@.len() ==> #[trigger] v@[m].index > c.index,
        decreases p,
    {
        p = p - 1;
    }
    proof {
        lemma_insert_by_index_unroll(v@, c, p as int);
    }
    v.insert(p, c);
}

/// Rearranges the chunks into ascending order of their `index` fields;
/// chunks of equal index keep their relative order.
pub fn sort_chunks(v: Vec<Chunk>) -> (r: Vec<Chunk>)
    ensures
        r@ == sort_by_index(v@),
        r@.to_multiset() == v@.to_multiset(),
        sorted_by_index(r@),
        r@.len() == v@.len(),
{
    let ghost s = v@;
    let mut rest = v;
    let mut out: Vec<Chunk> = Vec::new();
    let ghost mut i: int = 0;
    while rest.len() > 0
        invariant
            0 <= i <= s.len(),
            rest@ == s.skip(i),
            out@ == sort_by_index(s.take(i)),
        decreases rest@.len(),
    {
        let c = rest.remove(0);
        proof {
            assert(s.skip(i).remove(0) =~= s.skip(i + 1));
            assert(s.take(i + 1).drop_last() =~= s.take(i));
            assert(s.take(i + 1).last() == s[i]);
        }
        insert_sorted(&mut out, c);
        proof {
            i = i + 1;
        }
    }
    proof {
        assert(s.take(s.len() as int) =~= s);
        lemma_sort_by_index_ensures(s);
    }
    out
}

} // verus!
