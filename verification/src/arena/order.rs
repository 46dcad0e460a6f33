//! The order rows are listed in: largest first, and by name where sizes tie,
//! so equal-sized rows do not swap places between refreshes.

use vstd::prelude::*;
use vstd::seq_lib::lemma_multiset_commutative;
use super::{Arena, ArenaView, NodeId};

verus! {

broadcast use vstd::seq_lib::group_to_multiset_ensures;

/// Byte strings in lexicographic order from position `i` on, a proper prefix
/// first, as slices compare.
pub open spec fn lex_le_from(x: Seq<u8>, y: Seq<u8>, i: int) -> bool
    decreases x.len() - i,
{
    if i >= x.len() {
        true
    } else if i >= y.len() {
        false
    } else if x[i] < y[i] {
        true
    } else if x[i] > y[i] {
        false
    } else {
        lex_le_from(x, y, i + 1)
    }
}

pub open spec fn lex_le(x: Seq<u8>, y: Seq<u8>) -> bool {
    lex_le_from(x, y, 0)
}

pub proof fn lemma_lex_total(x: Seq<u8>, y: Seq<u8>, i: int)
    requires
        0 <= i,
    ensures
        lex_le_from(x, y, i) || lex_le_from(y, x, i),
    decreases x.len() - i,
{
    if i < x.len() && i < y.len() && x[i] == y[i] {
        lemma_lex_total(x, y, i + 1);
    }
}

pub proof fn lemma_lex_trans(x: Seq<u8>, y: Seq<u8>, z: Seq<u8>, i: int)
    requires
        0 <= i,
        lex_le_from(x, y, i),
        lex_le_from(y, z, i),
    ensures
        lex_le_from(x, z, i),
    decreases x.len() - i,
{
    if i < x.len() && i < y.len() && i < z.len() && x[i] == y[i] && y[i] == z[i] {
        lemma_lex_trans(x, y, z, i + 1);
    }
}

/// Node `a` is listed no later than node `b`: larger first, ties by name.
pub open spec fn ranks_before(v: ArenaView, a: int, b: int) -> bool {
    v.nodes[a].size > v.nodes[b].size || (v.nodes[a].size == v.nodes[b].size && lex_le(
        v.nodes[a].name,
        v.nodes[b].name,
    ))
}

pub proof fn lemma_ranks_total(v: ArenaView, a: int, b: int)
    ensures
        ranks_before(v, a, b) || ranks_before(v, b, a),
{
    lemma_lex_total(v.nodes[a].name, v.nodes[b].name, 0);
}

pub proof fn lemma_ranks_trans(v: ArenaView, a: int, b: int, c: int)
    requires
        ranks_before(v, a, b),
        ranks_before(v, b, c),
    ensures
        ranks_before(v, a, c),
{
    if v.nodes[a].size == v.nodes[b].size && v.nodes[b].size == v.nodes[c].size {
        lemma_lex_trans(v.nodes[a].name, v.nodes[b].name, v.nodes[c].name, 0);
    }
}

/// Ids listed in rank order.
pub open spec fn sorted_by_rank(v: ArenaView, ids: Seq<NodeId>) -> bool {
    forall|a: int, b: int|
        0 <= a < b < ids.len() ==> ranks_before(v, #[trigger] ids[a] as int, #[trigger] ids[b] as int)
}

/// `ids` are the first `limit` members of `s` in rank order: as many as fit,
/// each once, in order, and none of the members left out ranks before any
/// that was kept.
pub open spec fn top_of(v: ArenaView, s: Set<NodeId>, limit: int, ids: Seq<NodeId>) -> bool {
    &&& ids.len() == if s.len() < limit {
        s.len() as int
    } else {
        limit
    }
    &&& ids.no_duplicates()
    &&& forall|k: int| 0 <= k < ids.len() ==> s.contains(#[trigger] ids[k])
    &&& sorted_by_rank(v, ids)
    &&& forall|k: int, c: NodeId|
        0 <= k < ids.len() && #[trigger] s.contains(c) && !ids.contains(c) ==> ranks_before(
            v,
            #[trigger] ids[k] as int,
            c as int,
        )
}

/// Lexicographic comparison of byte strings.
pub fn bytes_le(x: &[u8], y: &[u8]) -> (r: bool)
    ensures
        r == lex_le(x@, y@),
{
    let mut i: usize = 0;
    while i < x.len()
        invariant
            i <= x@.len(),
            lex_le(x@, y@) == lex_le_from(x@, y@, i as int),
        decreases x@.len() - i,
    {
        if i >= y.len() {
            return false;
        }
        if x[i] < y[i] {
            return true;
        }
        if x[i] > y[i] {
            return false;
        }
        i = i + 1;
    }
    true
}

impl Arena {
    /// Whether node `a` is listed no later than node `b`.
    pub(crate) fn rank_le(&self, a: NodeId, b: NodeId) -> (r: bool)
        requires
            (a as int) < self.nodes@.len(),
            (b as int) < self.nodes@.len(),
        ensures
            r == ranks_before(self.model(), a as int, b as int),
    {
        let x = &self.nodes[a as usize];
        let y = &self.nodes[b as usize];
        assert(self.model().nodes[a as int] == self.nodes@[a as int].view());
        assert(self.model().nodes[b as int] == self.nodes@[b as int].view());
        if x.size > y.size {
            true
        } else if x.size < y.size {
            false
        } else {
            bytes_le(x.name.as_slice(), y.name.as_slice())
        }
    }

    fn merge_ranked(&self, l: Vec<NodeId>, r: Vec<NodeId>) -> (out: Vec<NodeId>)
        requires
            forall|k: int| 0 <= k < l@.len() ==> (#[trigger] l@[k] as int) < self.nodes@.len(),
            forall|k: int| 0 <= k < r@.len() ==> (#[trigger] r@[k] as int) < self.nodes@.len(),
            sorted_by_rank(self.model(), l@),
            sorted_by_rank(self.model(), r@),
        ensures
            out@.to_multiset() == l@.to_multiset().add(r@.to_multiset()),
            sorted_by_rank(self.model(), out@),
    {
        let ghost v = self.model();
        let mut out: Vec<NodeId> = Vec::new();
        let mut i: usize = 0;
        let mut j: usize = 0;
        proof {
            assert(l@.take(0) =~= Seq::<NodeId>::empty());
            assert(r@.take(0) =~= Seq::<NodeId>::empty());
            assert(out@ =~= Seq::<NodeId>::empty());
        }
        while i < l.len() || j < r.len()
            invariant
                v == self.model(),
                i <= l@.len(),
                j <= r@.len(),
                forall|k: int| 0 <= k < l@.len() ==> (#[trigger] l@[k] as int) < self.nodes@.len(),
                forall|k: int| 0 <= k < r@.len() ==> (#[trigger] r@[k] as int) < self.nodes@.len(),
                sorted_by_rank(v, l@),
                sorted_by_rank(v, r@),
                sorted_by_rank(v, out@),
                out@.to_multiset() == l@.take(i as int).to_multiset().add(
                    r@.take(j as int).to_multiset(),
                ),
                forall|a: int, b: int|
                    0 <= a < out@.len() && i <= b < l@.len() ==> ranks_before(
                        v,
                        #[trigger] out@[a] as int,
                        #[trigger] l@[b] as int,
                    ),
                forall|a: int, b: int|
                    0 <= a < out@.len() && j <= b < r@.len() ==> ranks_before(
                        v,
                        #[trigger] out@[a] as int,
                        #[trigger] r@[b] as int,
                    ),
            decreases l@.len() + r@.len() - i - j,
        {
            let take_left = if i < l.len() && j < r.len() {
                self.rank_le(l[i], r[j])
            } else {
                i < l.len()
            };
            let ghost old_out = out@;
            if take_left {
                let x = l[i];
                proof {
                    if j < r@.len() && !(i < l@.len() && j < r@.len()) {
                    }
                    assert forall|b: int| j <= b < r@.len() implies ranks_before(
                        v,
                        x as int,
                        #[trigger] r@[b] as int,
                    ) by {
                        if b > j {
                            lemma_ranks_trans(v, x as int, r@[j as int] as int, r@[b] as int);
                        }
                    }
                }
                out.push(x);
                proof {
                    assert(l@.take(i + 1) =~= l@.take(i as int).push(x));
                }
                i = i + 1;
            } else {
                let x = r[j];
                proof {
                    if i < l@.len() {
                        lemma_ranks_total(v, l@[i as int] as int, x as int);
                    }
                    assert forall|b: int| i <= b < l@.len() implies ranks_before(
                        v,
                        x as int,
                        #[trigger] l@[b] as int,
                    ) by {
                        if b > i {
                            lemma_ranks_trans(v, x as int, l@[i as int] as int, l@[b] as int);
                        }
                    }
                }
                out.push(x);
                proof {
                    assert(r@.take(j + 1) =~= r@.take(j as int).push(x));
                }
                j = j + 1;
            }
            proof {
                assert forall|a: int, b: int|
                    0 <= a < b < out@.len() implies ranks_before(
                    v,
                    #[trigger] out@[a] as int,
                    #[trigger] out@[b] as int,
                ) by {
                    if b < out@.len() - 1 {
                        assert(out@[a] == old_out[a]);
                        assert(out@[b] == old_out[b]);
                    } else {
                        assert(out@[a] == old_out[a]);
                    }
                }
                assert forall|a: int, b: int| 0 <= a < out@.len() && i <= b < l@.len() implies ranks_before(
                    v,
                    #[trigger] out@[a] as int,
                    #[trigger] l@[b] as int,
                ) by {
                    if a < out@.len() - 1 {
                        assert(out@[a] == old_out[a]);
                    }
                }
                assert forall|a: int, b: int| 0 <= a < out@.len() && j <= b < r@.len() implies ranks_before(
                    v,
                    #[trigger] out@[a] as int,
                    #[trigger] r@[b] as int,
                ) by {
                    if a < out@.len() - 1 {
                        assert(out@[a] == old_out[a]);
                    }
                }
            }
        }
        proof {
            assert(l@.take(l@.len() as int) =~= l@);
            assert(r@.take(r@.len() as int) =~= r@);
        }
        out
    }


    /// The first `limit` of `ids` in rank order.
    pub(crate) fn top_ranked(&self, ids: Vec<NodeId>, limit: usize) -> (out: Vec<NodeId>)
        requires
            ids@.no_duplicates(),
            forall|k: int| 0 <= k < ids@.len() ==> (#[trigger] ids@[k] as int) < self.nodes@.len(),
        ensures
            top_of(self.model(), ids@.to_set(), limit as int, out@),
            forall|k: int| 0 <= k < out@.len() ==> (#[trigger] out@[k] as int) < self.nodes@.len(),
    {
        let ghost s = ids@.to_set();
        let mut sorted = self.sort_ranked(ids);
        let ghost all = sorted@;
        proof {
            ids@.lemma_multiset_has_no_duplicates();
            assert forall|x: NodeId| all.to_multiset().contains(x) implies all.to_multiset().count(x)
                == 1 by {
                assert(ids@.to_multiset().contains(x));
            }
            all.lemma_multiset_has_no_duplicates_conv();
            assert forall|x: NodeId| all.contains(x) <==> s.contains(x) by {
                assert(all.contains(x) <==> all.to_multiset().count(x) > 0);
                assert(ids@.contains(x) <==> ids@.to_multiset().count(x) > 0);
            }
            assert(all.to_set() =~= s);
            all.unique_seq_to_set();
            ids@.unique_seq_to_set();
        }
        if limit < sorted.len() {
            sorted.truncate(limit);
        }
        proof {
            let out = sorted@;
            assert(out =~= all.subrange(0, out.len() as int));
            assert forall|k: int, c: NodeId|
                0 <= k < out.len() && #[trigger] s.contains(c) && !out.contains(c) implies ranks_before(
                self.model(),
                #[trigger] out[k] as int,
                c as int,
            ) by {
                assert(all.contains(c));
                let q = choose|q: int| 0 <= q < all.len() && all[q] == c;
                if q < out.len() {
                    assert(out[q] == c);
                }
                assert(out[k] == all[k]);
            }
            assert forall|k: int| 0 <= k < out.len() implies s.contains(#[trigger] out[k]) by {
                assert(all.contains(all[k]));
            }
        }
        sorted
    }

    /// Sort ids into rank order.
    pub(crate) fn sort_ranked(&self, ids: Vec<NodeId>) -> (out: Vec<NodeId>)
        requires
            forall|k: int| 0 <= k < ids@.len() ==> (#[trigger] ids@[k] as int) < self.nodes@.len(),
        ensures
            out@.to_multiset() == ids@.to_multiset(),
            sorted_by_rank(self.model(), out@),
            forall|k: int| 0 <= k < out@.len() ==> (#[trigger] out@[k] as int) < self.nodes@.len(),
        decreases ids@.len(),
    {
        if ids.len() <= 1 {
            return ids;
        }
        let mid = ids.len() / 2;
        let mut left: Vec<NodeId> = Vec::with_capacity(mid);
        let mut right: Vec<NodeId> = Vec::with_capacity(ids.len() - mid);
        let mut k: usize = 0;
        while k < ids.len()
            invariant
                mid < ids@.len(),
                k <= ids@.len(),
                k <= mid ==> left@ == ids@.subrange(0, k as int) && right@.len() == 0,
                k > mid ==> left@ == ids@.subrange(0, mid as int) && right@ == ids@.subrange(
                    mid as int,
                    k as int,
                ),
            decreases ids@.len() - k,
        {
            if k < mid {
                left.push(ids[k]);
                assert(left@ =~= ids@.subrange(0, k + 1));
            } else {
                right.push(ids[k]);
                assert(right@ =~= ids@.subrange(mid as int, k + 1));
            }
            k = k + 1;
        }
        proof {
            assert(left@ + right@ =~= ids@);
            lemma_multiset_commutative(left@, right@);
        }
        let l = self.sort_ranked(left);
        let r = self.sort_ranked(right);
        let out = self.merge_ranked(l, r);
        proof {
            assert forall|k: int| 0 <= k < out@.len() implies (#[trigger] out@[k] as int)
                < self.nodes@.len() by {
                let x = out@[k];
                assert(out@.to_multiset().count(x) > 0);
                if l@.to_multiset().count(x) > 0 {
                    let q = choose|q: int| 0 <= q < l@.len() && l@[q] == x;
                } else {
                    let q = choose|q: int| 0 <= q < r@.len() && r@[q] == x;
                }
            }
        }
        out
    }
}

} // verus!
