//! Facts about ancestry and subtree sums in an arena view.

use vstd::prelude::*;
use super::{
    anc_in, sweep_in, entry_is_dir, entry_node, frame_bytes, frame_dirs, frame_files, index_after, join,
    path_in, ArenaView, NodeId, NodeView, NONE,
};
use crate::protocol::Entry;

verus! {

impl ArenaView {
    /// Parents come before their children.
    pub open spec fn ordered(self) -> bool {
        forall|j: int| 0 < j < self.len() ==> #[trigger] self.parent(j) < j
    }

    pub proof fn lemma_anc_le(self, a: int, j: int)
        requires
            self.is_anc(a, j),
            0 <= j < self.len(),
            self.ordered(),
        ensures
            0 <= a <= j,
        decreases j,
    {
        if j != a {
            self.lemma_anc_le(a, self.parent(j));
        }
    }

    pub proof fn lemma_anc_root(self, j: int)
        requires
            0 <= j < self.len(),
            self.ordered(),
        ensures
            self.is_anc(0, j),
        decreases j,
    {
        if j != 0 {
            self.lemma_anc_root(self.parent(j));
        }
    }

    pub proof fn lemma_anc_trans(self, a: int, b: int, c: int)
        requires
            self.is_anc(a, b),
            self.is_anc(b, c),
            0 <= c < self.len(),
            self.ordered(),
        ensures
            self.is_anc(a, c),
        decreases c,
    {
        if c != b {
            self.lemma_anc_trans(a, b, self.parent(c));
        }
    }

    /// The ancestors of a node form a chain: any two are comparable.
    pub proof fn lemma_anc_linear(self, a: int, b: int, j: int)
        requires
            self.is_anc(a, j),
            self.is_anc(b, j),
            0 <= j < self.len(),
            self.ordered(),
        ensures
            self.is_anc(a, b) || self.is_anc(b, a),
        decreases j,
    {
        if j != a && j != b {
            self.lemma_anc_linear(a, b, self.parent(j));
        }
    }

    pub proof fn lemma_sums_nonneg(self, a: int, k: int)
        ensures
            self.bytes_under(a, k) >= 0,
            self.files_under(a, k) >= 0,
            self.dirs_under(a, k) >= 0,
        decreases k,
    {
        if k > 0 {
            self.lemma_sums_nonneg(a, k - 1);
        }
    }

    /// Sums over a subtree never exceed sums over an enclosing subtree.
    pub proof fn lemma_sums_monotone(self, a: int, b: int, k: int)
        requires
            self.is_anc(a, b),
            0 <= b < self.len(),
            k <= self.len(),
            self.ordered(),
        ensures
            self.bytes_under(b, k) <= self.bytes_under(a, k),
            self.files_under(b, k) <= self.files_under(a, k),
            self.dirs_under(b, k) + (if a != b && self.live(b) && self.nodes[b].is_dir && b < k {
                1int
            } else {
                0
            }) <= self.dirs_under(a, k),
        decreases k,
    {
        if k > 0 {
            self.lemma_sums_monotone(a, b, k - 1);
            let j = k - 1;
            if self.is_anc(b, j) {
                self.lemma_anc_trans(a, b, j);
                if j == a {
                    self.lemma_anc_le(a, b);
                    self.lemma_anc_le(b, j);
                }
            }
            if j == b && a != b {
            }
        }
    }
}

/// Two views that agree on the first `k` nodes' parents, kinds, flags and
/// file sizes.
pub open spec fn agree_upto(v: ArenaView, w: ArenaView, k: int) -> bool {
    &&& 0 <= k <= v.len()
    &&& k <= w.len()
    &&& forall|j: int|
        #![trigger w.nodes[j]]
        0 <= j < k ==> {
            &&& w.nodes[j].parent == v.nodes[j].parent
            &&& w.nodes[j].removed == v.nodes[j].removed
            &&& w.nodes[j].is_dir == v.nodes[j].is_dir
            &&& (!v.nodes[j].is_dir ==> w.nodes[j].size == v.nodes[j].size)
        }
}

pub proof fn lemma_anc_agree(v: ArenaView, w: ArenaView, k: int, a: int, j: int)
    requires
        agree_upto(v, w, k),
        0 <= j < k,
    ensures
        v.is_anc(a, j) == w.is_anc(a, j),
    decreases j,
{
    assert(w.nodes[j].parent == v.nodes[j].parent);
    if j != a && 0 < j && v.parent(j) < j {
        lemma_anc_agree(v, w, k, a, v.parent(j));
    }
}

pub proof fn lemma_sums_agree(v: ArenaView, w: ArenaView, k: int, a: int, m: int)
    requires
        agree_upto(v, w, k),
        m <= k,
    ensures
        v.bytes_under(a, m) == w.bytes_under(a, m),
        v.files_under(a, m) == w.files_under(a, m),
        v.dirs_under(a, m) == w.dirs_under(a, m),
    decreases m,
{
    if m > 0 {
        lemma_sums_agree(v, w, k, a, m - 1);
        lemma_anc_agree(v, w, k, a, m - 1);
        assert(w.nodes[m - 1].parent == v.nodes[m - 1].parent);
    }
}

/// The nodes with `x` marked removed.
pub open spec fn marked(nodes: Seq<NodeView>, x: int) -> Seq<NodeView> {
    nodes.update(x, NodeView { removed: true, ..nodes[x] })
}

/// Nodes not yet removed among the first `k`.
pub open spec fn live_count(nodes: Seq<NodeView>, k: int) -> int
    decreases k,
{
    if k <= 0 {
        0
    } else {
        live_count(nodes, k - 1) + if !nodes[k - 1].removed {
            1int
        } else {
            0
        }
    }
}

pub proof fn lemma_live_count_mark(nodes: Seq<NodeView>, x: int, k: int)
    requires
        0 <= x < nodes.len(),
        !nodes[x].removed,
        k <= nodes.len(),
    ensures
        live_count(marked(nodes, x), k) == live_count(nodes, k) - if x < k {
            1int
        } else {
            0
        },
        live_count(nodes, k) >= 0,
    decreases k,
{
    if k > 0 {
        lemma_live_count_mark(nodes, x, k - 1);
    }
}

/// Ancestry depends on nothing but the parents.
pub proof fn lemma_anc_parents(a: Seq<NodeView>, b: Seq<NodeView>, x: int, j: int)
    requires
        a.len() == b.len(),
        forall|i: int| 0 <= i < a.len() ==> #[trigger] a[i].parent == b[i].parent,
    ensures
        anc_in(a, x, j) == anc_in(b, x, j),
    decreases j,
{
    if j != x && 0 < j < a.len() && a[j].parent < j {
        lemma_anc_parents(a, b, x, a[j].parent as int);
    }
}

pub proof fn lemma_live_count_nonneg(nodes: Seq<NodeView>, k: int)
    ensures
        live_count(nodes, k) >= 0,
    decreases k,
{
    if k > 0 {
        lemma_live_count_nonneg(nodes, k - 1);
    }
}

pub proof fn lemma_sweep_ge(nodes: Seq<NodeView>, a: int, j: int)
    requires
        sweep_in(nodes, a, j),
    ensures
        0 <= a <= j < nodes.len(),
        !nodes[a].removed,
    decreases j,
{
    if j != a {
        lemma_sweep_ge(nodes, a, nodes[j].parent as int);
    }
}

/// Marking a node that lies before `t` does not touch chains that end at `t`.
pub proof fn lemma_sweep_mark_far(nodes: Seq<NodeView>, x: int, t: int, j: int)
    requires
        0 <= x < t,
        x < nodes.len(),
    ensures
        sweep_in(marked(nodes, x), t, j) == sweep_in(nodes, t, j),
    decreases j,
{
    let w = marked(nodes, x);
    if sweep_in(nodes, t, j) {
        lemma_sweep_ge(nodes, t, j);
    }
    if sweep_in(w, t, j) {
        lemma_sweep_ge(w, t, j);
    }
    if 0 <= j < nodes.len() && j != t && 0 < j && nodes[j].parent < j {
        lemma_sweep_mark_far(nodes, x, t, nodes[j].parent as int);
    }
}

/// A chain that does not pass through `x` survives marking `x`.
pub proof fn lemma_sweep_mark_off(nodes: Seq<NodeView>, x: int, t: int, j: int)
    requires
        sweep_in(nodes, t, j),
        !sweep_in(nodes, x, j),
        0 <= x < nodes.len(),
    ensures
        sweep_in(marked(nodes, x), t, j),
    decreases j,
{
    if j != t {
        lemma_sweep_mark_off(nodes, x, t, nodes[j].parent as int);
    }
}

/// The node on `j`'s chain whose parent is `x`.
pub open spec fn toward(nodes: Seq<NodeView>, x: int, j: int) -> int
    decreases j,
{
    if 0 < j < nodes.len() && nodes[j].parent < j && nodes[j].parent != x {
        toward(nodes, x, nodes[j].parent as int)
    } else {
        j
    }
}

pub proof fn lemma_toward(nodes: Seq<NodeView>, x: int, j: int)
    requires
        sweep_in(nodes, x, j),
        j != x,
    ensures
        nodes[toward(nodes, x, j)].parent == x,
        x < toward(nodes, x, j) <= j,
        sweep_in(nodes, toward(nodes, x, j), j),
        !nodes[toward(nodes, x, j)].removed,
    decreases j,
{
    let p = nodes[j].parent as int;
    if p != x {
        lemma_toward(nodes, x, p);
        let c = toward(nodes, x, p);
        lemma_sweep_tail(nodes, c, p, j);
    } else {
        lemma_sweep_ge(nodes, x, j);
    }
}

/// A chain from `j` up to `p`, extended by `j`'s own step.
proof fn lemma_sweep_tail(nodes: Seq<NodeView>, c: int, p: int, j: int)
    requires
        sweep_in(nodes, c, p),
        0 < j < nodes.len(),
        nodes[j].parent == p,
        p < j,
        !nodes[j].removed,
    ensures
        sweep_in(nodes, c, j),
{
    lemma_sweep_ge(nodes, c, p);
}

pub proof fn lemma_path_agree(v: Seq<NodeView>, w: Seq<NodeView>, root: Seq<u8>, k: int, j: int)
    requires
        k <= v.len(),
        k <= w.len(),
        forall|i: int| #![trigger w[i]] 0 <= i < k ==> w[i].parent == v[i].parent && w[i].name == v[i].name,
        j < k,
    ensures
        path_in(v, root, j) == path_in(w, root, j),
    decreases j,
{
    if 0 < j && v[j].parent < j {
        lemma_path_agree(v, w, root, k, v[j].parent as int);
    }
}

pub proof fn lemma_frame_step(es: Seq<Entry>, m: int)
    requires
        0 < m <= es.len(),
    ensures
        frame_bytes(es.take(m)) == frame_bytes(es.take(m - 1)) + if entry_is_dir(es[m - 1]) {
            0
        } else {
            es[m - 1].size as int
        },
        frame_files(es.take(m)) == frame_files(es.take(m - 1)) + if entry_is_dir(es[m - 1]) {
            0int
        } else {
            1
        },
        frame_dirs(es.take(m)) == frame_dirs(es.take(m - 1)) + if entry_is_dir(es[m - 1]) {
            1int
        } else {
            0
        },
{
    assert(es.take(m).drop_last() =~= es.take(m - 1));
}

pub proof fn lemma_frame_bounds(es: Seq<Entry>, m: int)
    requires
        0 <= m <= es.len(),
    ensures
        0 <= frame_bytes(es.take(m)) <= frame_bytes(es),
        frame_files(es.take(m)) + frame_dirs(es.take(m)) == m,
        frame_files(es) + frame_dirs(es) == es.len(),
        frame_files(es) >= 0,
        frame_dirs(es) >= 0,
        frame_bytes(es) >= 0,
        frame_files(es.take(m)) >= 0,
        frame_dirs(es.take(m)) >= 0,
    decreases es.len() - m,
{
    if m == es.len() {
        assert(es.take(m) =~= es);
        lemma_frame_counts(es);
        lemma_frame_nonneg(es);
    } else {
        lemma_frame_bounds(es, m + 1);
        lemma_frame_step(es, m + 1);
        lemma_frame_nonneg(es.take(m));
        lemma_frame_counts(es.take(m));
    }
}

proof fn lemma_frame_counts(es: Seq<Entry>)
    ensures
        frame_files(es) + frame_dirs(es) == es.len(),
        frame_files(es) >= 0,
        frame_dirs(es) >= 0,
    decreases es.len(),
{
    if es.len() > 0 {
        lemma_frame_counts(es.drop_last());
    }
}

proof fn lemma_frame_nonneg(es: Seq<Entry>)
    ensures
        frame_bytes(es) >= 0,
    decreases es.len(),
{
    if es.len() > 0 {
        lemma_frame_nonneg(es.drop_last());
    }
}

impl ArenaView {
    /// A proper ancestor is a directory.
    pub proof fn lemma_anc_is_dir(self, a: int, j: int)
        requires
            self.shaped(),
            self.is_anc(a, j),
            a != j,
            0 <= j < self.len(),
        ensures
            self.nodes[a].is_dir,
        decreases j,
    {
        let p = self.parent(j);
        assert(self.nodes[p].is_dir);
        if p != a {
            self.lemma_anc_is_dir(a, p);
        }
    }

    /// What folding in a fresh frame leaves of the first `len()` nodes: the
    /// same parents, kinds, flags and file sizes.
    pub proof fn lemma_ingest_agrees(self, path: Seq<u8>, es: Seq<Entry>)
        requires
            self.shaped(),
            self.fresh(path),
        ensures
            agree_upto(self, self.ingested(path, es), self.len()),
            forall|j: int|
                0 <= j < self.len() ==> #[trigger] self.ingested(path, es).nodes[j].name
                    == self.nodes[j].name,
    {
        let w = self.ingested(path, es);
        let d = self.dir_at(path);
        assert forall|j: int| 0 <= j < self.len() implies {
            &&& #[trigger] w.nodes[j].parent == self.nodes[j].parent
            &&& w.nodes[j].removed == self.nodes[j].removed
            &&& w.nodes[j].is_dir == self.nodes[j].is_dir
            &&& (!self.nodes[j].is_dir ==> w.nodes[j].size == self.nodes[j].size)
        } by {
            if self.is_anc(j, d) && j != d {
                self.lemma_anc_is_dir(j, d);
            }
        }
    }

    /// Folding a fresh frame into a shaped arena leaves it shaped.
    pub proof fn lemma_ingest_shaped(self, path: Seq<u8>, es: Seq<Entry>)
        requires
            self.shaped(),
            self.fresh(path),
            self.can_ingest(path, es),
        ensures
            self.ingested(path, es).shaped(),
    {
        let w = self.ingested(path, es);
        let d = self.dir_at(path);
        let l = self.len();
        let k = es.len() as int;
        self.lemma_ingest_agrees(path, es);
        lemma_frame_bounds(es, 0);
        assert(self.is_anc(0, d)) by {
            self.lemma_anc_root(d);
        }
        assert(w.nodes[0].parent == NONE);
        assert forall|j: int| 0 < j < w.len() implies #[trigger] w.parent(j) < j by {
            if j < l {
                assert(self.parent(j) < j);
            }
        }
        assert forall|j: int| 0 < j < w.len() implies #[trigger] w.nodes[w.parent(j)].is_dir by {
            if j < l {
                assert(self.nodes[self.parent(j)].is_dir);
            }
        }
        assert forall|j: int| 0 <= j < w.len() implies if #[trigger] w.nodes[j].is_dir {
            w.nodes[j].files + w.nodes[j].dirs + j < w.len()
        } else {
            w.nodes[j].files == 1 && w.nodes[j].dirs == 0
        } by {
            if j < l {
                let n = self.nodes[j];
                if n.is_dir {
                    assert(n.files + n.dirs + j < l);
                    if self.is_anc(j, d) {
                        assert(n.files + frame_files(es) <= u32::MAX);
                        assert(w.nodes[j].files == n.files + frame_files(es));
                        assert(w.nodes[j].dirs == n.dirs + frame_dirs(es));
                    } else {
                        assert(w.nodes[j] == n);
                    }
                } else {
                    if self.is_anc(j, d) {
                        self.lemma_anc_is_dir(j, d);
                    }
                    assert(w.nodes[j] == n);
                }
            } else {
                assert(w.nodes[j] == entry_node(d, es[j - l]));
            }
        }
        self.lemma_ingest_index(path, es, k);
        assert(es.take(k) =~= es);
    }

    proof fn lemma_ingest_index(self, path: Seq<u8>, es: Seq<Entry>, m: int)
        requires
            self.shaped(),
            self.fresh(path),
            self.can_ingest(path, es),
            0 <= m <= es.len(),
        ensures
            forall|q: Seq<u8>| #[trigger]
                index_after(self.index, path, es.take(m), self.len()).contains_key(q)
                    ==> index_after(self.index, path, es.take(m), self.len())[q] < self.len() + m
                    && self.ingested(path, es).nodes[index_after(
                    self.index,
                    path,
                    es.take(m),
                    self.len(),
                )[q] as int].is_dir && self.ingested(path, es).path(
                    index_after(self.index, path, es.take(m), self.len())[q] as int,
                ) == q,
        decreases m,
    {
        let w = self.ingested(path, es);
        let l = self.len();
        let d = self.dir_at(path);
        self.lemma_ingest_agrees(path, es);
        if m == 0 {
            assert(es.take(0) =~= Seq::<Entry>::empty());
            assert forall|q: Seq<u8>| #[trigger] self.index.contains_key(q) implies self.index[q]
                < l && w.nodes[self.index[q] as int].is_dir && w.path(self.index[q] as int)
                == q by {
                lemma_path_agree(self.nodes, w.nodes, self.root_path, l, self.index[q] as int);
            }
        } else {
            self.lemma_ingest_index(path, es, m - 1);
            assert(es.take(m).drop_last() =~= es.take(m - 1));
            let e = es[m - 1];
            assert(es.take(m).last() == e);
            let j = l + m - 1;
            let prev = index_after(self.index, path, es.take(m - 1), l);
            let cur = index_after(self.index, path, es.take(m), l);
            assert(cur == if entry_is_dir(e) {
                prev.insert(join(path, e.name@), j as u32)
            } else {
                prev
            });
            if entry_is_dir(e) {
                assert(w.nodes[j] == entry_node(d, e));
                assert(w.parent(j) == d);
                lemma_path_agree(self.nodes, w.nodes, self.root_path, l, d);
                assert(self.path(d) == path);
                assert(w.path(j) == join(w.path(d), e.name@));
            }
            assert forall|q: Seq<u8>| #[trigger] cur.contains_key(q) implies cur[q] < l + m
                && w.nodes[cur[q] as int].is_dir && w.path(cur[q] as int) == q by {
                if entry_is_dir(e) && q == join(path, e.name@) {
                } else {
                    assert(prev.contains_key(q));
                }
            }
        }
    }

    /// Sums over the first `len() + m` nodes of the ingested arena.
    proof fn lemma_ingest_sums(self, path: Seq<u8>, es: Seq<Entry>, i: int, m: int)
        requires
            self.shaped(),
            self.fresh(path),
            self.can_ingest(path, es),
            0 <= i < self.len(),
            0 <= m <= es.len(),
        ensures
            self.ingested(path, es).bytes_under(i, self.len() + m) == self.bytes_under(
                i,
                self.len(),
            ) + if self.is_anc(i, self.dir_at(path)) {
                frame_bytes(es.take(m))
            } else {
                0
            },
            self.ingested(path, es).files_under(i, self.len() + m) == self.files_under(
                i,
                self.len(),
            ) + if self.is_anc(i, self.dir_at(path)) {
                frame_files(es.take(m))
            } else {
                0
            },
            self.ingested(path, es).dirs_under(i, self.len() + m) == self.dirs_under(
                i,
                self.len(),
            ) + if self.is_anc(i, self.dir_at(path)) {
                frame_dirs(es.take(m))
            } else {
                0
            },
        decreases m,
    {
        let w = self.ingested(path, es);
        let l = self.len();
        let d = self.dir_at(path);
        self.lemma_ingest_agrees(path, es);
        if m == 0 {
            lemma_sums_agree(self, w, l, i, l);
            assert(es.take(0) =~= Seq::<Entry>::empty());
        } else {
            self.lemma_ingest_sums(path, es, i, m - 1);
            lemma_frame_step(es, m);
            let j = l + m - 1;
            assert(w.nodes[j] == entry_node(d, es[m - 1]));
            assert(w.parent(j) == d);
            lemma_anc_agree(self, w, l, i, d);
            assert(anc_in(w.nodes, i, j) == anc_in(w.nodes, i, d));
        }
    }

    /// A node with nothing below it has empty sums.
    proof fn lemma_leaf_sums(self, i: int, k: int)
        requires
            self.ordered(),
            0 <= i < self.len(),
            k <= self.len(),
            forall|j: int| 0 <= j < self.len() && j != i ==> !#[trigger] self.is_anc(i, j),
            self.nodes[i].is_dir,
        ensures
            self.bytes_under(i, k) == 0,
            self.files_under(i, k) == 0,
            self.dirs_under(i, k) == 0,
        decreases k,
    {
        if k > 0 {
            self.lemma_leaf_sums(i, k - 1);
        }
    }

    /// Folding in a fresh frame keeps every live directory's totals exact.
    pub proof fn lemma_ingest_tallied(self, path: Seq<u8>, es: Seq<Entry>)
        requires
            self.shaped(),
            self.tallied(),
            self.fresh(path),
            self.can_ingest(path, es),
        ensures
            self.ingested(path, es).tallied(),
    {
        let w = self.ingested(path, es);
        let l = self.len();
        let k = es.len() as int;
        let d = self.dir_at(path);
        self.lemma_ingest_shaped(path, es);
        self.lemma_ingest_agrees(path, es);
        assert(es.take(k) =~= es);
        assert forall|i: int|
            #![trigger w.nodes[i]]
            w.live(i) && w.nodes[i].is_dir implies {
            &&& w.nodes[i].size == w.bytes_under(i, w.len())
            &&& w.nodes[i].files == w.files_under(i, w.len())
            &&& w.nodes[i].dirs == w.dirs_under(i, w.len())
        } by {
            if i < l {
                assert(self.live(i) && self.nodes[i].is_dir);
                self.lemma_ingest_sums(path, es, i, k);
                if self.is_anc(i, d) {
                    assert(self.nodes[i].size + frame_bytes(es) <= u64::MAX);
                    assert(self.nodes[i].files + self.nodes[i].dirs + i < l);
                    lemma_frame_bounds(es, k);
                }
            } else {
                assert forall|j: int| 0 <= j < w.len() && j != i implies !#[trigger] w.is_anc(
                    i,
                    j,
                ) by {
                    if w.is_anc(i, j) {
                        w.lemma_anc_le(i, j);
                        assert(j >= l);
                        assert(w.parent(j) == d);
                        assert(w.is_anc(i, d));
                        w.lemma_anc_le(i, d);
                    }
                }
                w.lemma_leaf_sums(i, w.len());
            }
        }
    }

    /// Where removal is closed over subtrees, what a removal of a live node
    /// sweeps is exactly its live subtree.
    pub proof fn lemma_swept_is_live_subtree(self, id: int, j: int)
        requires
            self.shaped(),
            self.closed_under_removal(),
            self.live(id),
            0 <= j < self.len(),
        ensures
            self.swept(id, j) == (self.is_anc(id, j) && self.live(j)),
        decreases j,
    {
        if j != id && 0 < j {
            self.lemma_swept_is_live_subtree(id, self.parent(j));
            if self.live(j) {
                assert(!self.nodes[self.parent(j)].removed);
            }
        }
    }

    pub proof fn lemma_prune_shaped(self, id: int)
        requires
            self.shaped(),
            0 < id < self.len(),
        ensures
            self.pruned(id).shaped(),
    {
        let w = self.pruned(id);
        assert forall|i: int| 0 <= i < self.len() implies #[trigger] w.nodes[i].parent
            == self.nodes[i].parent && w.nodes[i].name == self.nodes[i].name
            && w.nodes[i].is_dir == self.nodes[i].is_dir by {}
        assert(!self.swept(id, 0));
        assert forall|j: int| 0 < j < w.len() implies #[trigger] w.parent(j) < j by {
            assert(self.parent(j) < j);
        }
        assert forall|j: int| 0 < j < w.len() implies #[trigger] w.nodes[w.parent(j)].is_dir by {
            assert(self.nodes[self.parent(j)].is_dir);
        }
        assert forall|j: int| 0 <= j < w.len() implies if #[trigger] w.nodes[j].is_dir {
            w.nodes[j].files + w.nodes[j].dirs + j < w.len()
        } else {
            w.nodes[j].files == 1 && w.nodes[j].dirs == 0
        } by {
            if self.is_anc(j, self.parent(id)) && self.parent(id) != j {
                self.lemma_anc_is_dir(j, self.parent(id));
            }
            if self.nodes[j].is_dir {
                assert(self.nodes[j].files + self.nodes[j].dirs + j < self.len());
            }
        }
        assert forall|k: Seq<u8>| #[trigger] w.index.contains_key(k) implies w.index[k] < w.len()
            && w.nodes[w.index[k] as int].is_dir && w.path(w.index[k] as int) == k by {
            lemma_path_agree(self.nodes, w.nodes, self.root_path, self.len(), w.index[k] as int);
        }
    }

    /// How a removal changes sums over the first `k` nodes.
    pub proof fn lemma_prune_sums(self, id: int, i: int, k: int)
        requires
            self.shaped(),
            self.closed_under_removal(),
            self.live(id),
            0 < id,
            0 <= i < self.len(),
            k <= self.len(),
        ensures
            self.is_anc(i, self.parent(id)) ==> {
                &&& self.pruned(id).bytes_under(i, k) == self.bytes_under(i, k) - self.bytes_under(
                    id,
                    k,
                )
                &&& self.pruned(id).files_under(i, k) == self.files_under(i, k) - self.files_under(
                    id,
                    k,
                )
                &&& self.pruned(id).dirs_under(i, k) == self.dirs_under(i, k) - self.dirs_under(
                    id,
                    k,
                ) - if id < k && self.nodes[id].is_dir {
                    1int
                } else {
                    0
                }
            },
            !self.is_anc(i, id) && !self.is_anc(id, i) ==> {
                &&& self.pruned(id).bytes_under(i, k) == self.bytes_under(i, k)
                &&& self.pruned(id).files_under(i, k) == self.files_under(i, k)
                &&& self.pruned(id).dirs_under(i, k) == self.dirs_under(i, k)
            },
        decreases k,
    {
        let w = self.pruned(id);
        let p = self.parent(id);
        if k > 0 {
            self.lemma_prune_sums(id, i, k - 1);
            let j = k - 1;
            if j >= 0 {
                assert forall|q: int| 0 <= q < w.nodes.len() implies #[trigger] w.nodes[q].parent
                    == self.nodes[q].parent by {}
                lemma_anc_parents(w.nodes, self.nodes, i, j);
                lemma_anc_parents(w.nodes, self.nodes, id, j);
                self.lemma_swept_is_live_subtree(id, j);
                assert(self.nodes[p].is_dir);
                assert(w.nodes[j].is_dir == self.nodes[j].is_dir);
                assert(w.nodes[j].removed == (self.nodes[j].removed || self.swept(id, j)));
                if !self.nodes[j].is_dir {
                    if self.is_anc(j, p) && j != p {
                        self.lemma_anc_is_dir(j, p);
                    }
                    assert(w.nodes[j].size == self.nodes[j].size);
                }
                assert(self.parent(id) < id);
                if self.is_anc(i, p) {
                    assert(self.is_anc(p, p));
                    assert(self.is_anc(p, id));
                    self.lemma_anc_trans(i, p, id);
                    self.lemma_anc_le(i, p);
                    if self.is_anc(id, j) {
                        self.lemma_anc_trans(i, id, j);
                        self.lemma_anc_le(id, j);
                    }
                }
                if !self.is_anc(i, id) && !self.is_anc(id, i) && self.is_anc(id, j) && self.is_anc(
                    i,
                    j,
                ) {
                    self.lemma_anc_linear(i, id, j);
                }
            }
        }
    }

    /// Removing a live node from a consistent arena leaves it consistent.
    pub proof fn lemma_prune_consistent(self, id: int)
        requires
            self.shaped(),
            self.consistent(),
            self.live(id),
            0 < id,
        ensures
            self.pruned(id).consistent(),
    {
        let w = self.pruned(id);
        let p = self.parent(id);
        let n = self.len();
        assert(self.parent(id) < id);
        assert(self.is_anc(p, p));
        assert(self.is_anc(p, id));
        assert forall|i: int|
            #![trigger w.nodes[i]]
            w.live(i) && w.nodes[i].is_dir implies {
            &&& w.nodes[i].size == w.bytes_under(i, w.len())
            &&& w.nodes[i].files == w.files_under(i, w.len())
            &&& w.nodes[i].dirs == w.dirs_under(i, w.len())
        } by {
            self.lemma_swept_is_live_subtree(id, i);
            assert(self.live(i) && self.nodes[i].is_dir);
            self.lemma_prune_sums(id, i, n);
            if self.is_anc(i, p) {
                self.lemma_anc_trans(i, p, id);
                self.lemma_sums_monotone(i, id, n);
                if self.nodes[id].is_dir {
                    assert(self.nodes[id].size == self.bytes_under(id, n));
                } else {
                    assert forall|j: int| 0 <= j < n && j != id implies !#[trigger] self.is_anc(
                        id,
                        j,
                    ) by {
                        if self.is_anc(id, j) {
                            self.lemma_anc_is_dir(id, j);
                        }
                    }
                    self.lemma_file_sums(id, n);
                }
            } else {
                if self.is_anc(i, id) {
                    assert(i != id);
                    assert(self.is_anc(i, p)) by {
                        assert(id != i);
                    }
                }
                if self.is_anc(id, i) {
                    assert(self.swept(id, i));
                }
            }
        }
        assert forall|j: int|
            0 < j < w.len() && #[trigger] w.nodes[w.parent(j)].removed implies w.nodes[j].removed by {
            assert(w.parent(j) == self.parent(j));
            assert(self.parent(j) < j);
            if self.nodes[self.parent(j)].removed {
                assert(self.nodes[j].removed);
            }
        }
    }

    /// A live file with nothing below it: its sums are itself.
    proof fn lemma_file_sums(self, id: int, k: int)
        requires
            self.ordered(),
            self.live(id),
            !self.nodes[id].is_dir,
            forall|j: int| 0 <= j < self.len() && j != id ==> !#[trigger] self.is_anc(id, j),
            k <= self.len(),
        ensures
            self.bytes_under(id, k) == if id < k {
                self.nodes[id].size as int
            } else {
                0
            },
            self.files_under(id, k) == if id < k {
                1int
            } else {
                0
            },
            self.dirs_under(id, k) == 0,
        decreases k,
    {
        if k > 0 {
            self.lemma_file_sums(id, k - 1);
        }
    }

    /// Folding in a fresh frame keeps removal closed over subtrees, unless the
    /// frame lists entries for a directory already removed.
    pub proof fn lemma_ingest_closed(self, path: Seq<u8>, es: Seq<Entry>)
        requires
            self.shaped(),
            self.closed_under_removal(),
            self.fresh(path),
            !self.ingest_into_removed(path, es),
        ensures
            self.ingested(path, es).closed_under_removal(),
    {
        let w = self.ingested(path, es);
        let l = self.len();
        self.lemma_ingest_agrees(path, es);
        assert forall|j: int|
            0 < j < w.len() && #[trigger] w.nodes[w.parent(j)].removed implies w.nodes[j].removed by {
            if j < l {
                assert(self.nodes[self.parent(j)].removed);
            }
        }
    }
}


/// What a sequence holds after a push.
pub proof fn lemma_push_contains<T>(s: Seq<T>, a: T)
    ensures
        forall|x: T| #[trigger] s.push(a).contains(x) <==> s.contains(x) || x == a,
{
    assert forall|x: T| #[trigger] s.push(a).contains(x) <==> s.contains(x) || x == a by {
        if s.contains(x) {
            let q = choose|q: int| 0 <= q < s.len() && s[q] == x;
            assert(s.push(a)[q] == x);
        }
        if x == a {
            assert(s.push(a)[s.len() as int] == a);
        }
        if s.push(a).contains(x) {
            let q = choose|q: int| 0 <= q < s.len() + 1 && s.push(a)[q] == x;
            if q < s.len() {
                assert(s[q] == x);
            }
        }
    }
}

/// A strictly increasing sequence repeats nothing.
pub proof fn lemma_increasing_unique(s: Seq<NodeId>)
    requires
        forall|a: int, b: int| 0 <= a < b < s.len() ==> s[a] < s[b],
    ensures
        s.no_duplicates(),
{
    assert forall|a: int, b: int| 0 <= a < s.len() && 0 <= b < s.len() && a != b implies s[a] != s[b] by {
        if a < b {
            assert(s[a] < s[b]);
        } else {
            assert(s[b] < s[a]);
        }
    }
}

} // verus!
