//! Removing a subtree: detaching it from its parent's list, marking it, and
//! discounting it from every ancestor.

use vstd::prelude::*;
use super::{
    lemma_live_count_mark, lemma_live_count_nonneg, lemma_sweep_ge, lemma_sweep_mark_far, lemma_sweep_mark_off, lemma_toward,
    live_count, marked, sat_sub, toward, Arena, ArenaError, ArenaView, Node, NodeId, NONE, ROOT,
    lemma_anc_parents,
};

verus! {

impl Arena {
    /// Take `id` out of `parent`'s child list.
    #[verifier::rlimit(40)]
    fn unlink(&mut self, parent: NodeId, id: NodeId)
        requires
            old(self).links_ok(),
            old(self).nodes@.len() <= NONE,
            (parent as int) < old(self).nodes@.len(),
            0 < id < old(self).nodes@.len(),
            old(self).nodes@[id as int].parent == parent,
            old(self).kids@[parent as int].contains(id),
        ensures
            final(self).nodes@.len() == old(self).nodes@.len(),
            forall|i: int|
                0 <= i < old(self).nodes@.len() ==> #[trigger] final(self).nodes@[i].view() == old(
                    self,
                ).nodes@[i].view(),
            final(self).kids@.len() == old(self).kids@.len(),
            forall|p: int|
                0 <= p < old(self).kids@.len() && p != parent ==> #[trigger] final(self).kids@[p]
                    == old(self).kids@[p],
            forall|x: u32|
                #[trigger] final(self).kids@[parent as int].contains(x) <==> old(self).kids@[parent as int].contains(x)
                    && x != id,
            final(self).links_ok(),
            final(self).dir_index@ == old(self).dir_index@,
            final(self).root_path@ == old(self).root_path@,
            final(self).finished == old(self).finished,
    {
        let ghost a0 = *old(self);
        let ghost ks = self.kids@[parent as int];
        let ghost n0 = self.nodes@;
        let ghost pos = choose|m: int| 0 <= m < ks.len() && ks[m] == id;
        let ghost rest = ks.remove(pos);
        proof {
            assert(0 <= pos < ks.len() && ks[pos] == id);
            assert forall|x: u32| #[trigger] rest.contains(x) <==> ks.contains(x) && x != id by {
                if rest.contains(x) {
                    let m = choose|m: int| 0 <= m < rest.len() && rest[m] == x;
                    if m < pos {
                        assert(ks[m] == x);
                    } else {
                        assert(ks[m + 1] == x);
                    }
                }
                if ks.contains(x) && x != id {
                    let m = choose|m: int| 0 <= m < ks.len() && ks[m] == x;
                    if m < pos {
                        assert(rest[m] == x);
                    } else {
                        assert(m != pos);
                        assert(rest[m - 1] == x);
                    }
                }
            }
        }
        let mut cur = self.nodes[parent as usize].first_child;
        if cur == id {
            proof {
                assert(ks[0] == id);
                assert(pos == 0);
            }
            let next = self.nodes[id as usize].next_sibling;
            self.nodes[parent as usize].first_child = next;
            if self.nodes[parent as usize].last_child == id {
                self.nodes[parent as usize].last_child = next;
            }
            self.kids = Ghost(self.kids@.update(parent as int, rest));
            proof {
                self.lemma_unlink_links(a0, parent as int, id, pos);
            }
            return ;
        }
        proof {
            assert(ks.len() > 0);
            assert(pos > 0);
        }
        let ghost mut m: int = 0;
        let mut prev = cur;
        loop
            invariant
                self.nodes@ == n0,
                self.kids@ == old(self).kids@,
                ks == self.kids@[parent as int],
                0 <= m < pos < ks.len(),
                ks[pos] == id,
                ks.no_duplicates(),
                prev == ks[m],
                forall|q: int|
                    #![trigger ks[q]]
                    0 <= q < ks.len() ==> 0 < ks[q] < n0.len() && n0[ks[q] as int].next_sibling
                        == if q + 1 < ks.len() {
                        ks[q + 1]
                    } else {
                        NONE
                    },
            ensures
                prev == ks[pos - 1],
            decreases ks.len() - m,
        {
            let next = self.nodes[prev as usize].next_sibling;
            proof {
                assert(next == ks[m + 1]);
            }
            if next == id {
                proof {
                    assert(m + 1 == pos);
                }
                break;
            }
            proof {
                assert(m + 1 != pos);
                m = m + 1;
            }
            prev = next;
        }
        let after = self.nodes[id as usize].next_sibling;
        self.nodes[prev as usize].next_sibling = after;
        if self.nodes[parent as usize].last_child == id {
            self.nodes[parent as usize].last_child = prev;
        }
        self.kids = Ghost(self.kids@.update(parent as int, rest));
        proof {
            self.lemma_unlink_links(a0, parent as int, id, pos);
        }
    }



    /// Take a delta off `from` and every ancestor, never going below zero.
    fn sub_from_ancestry(&mut self, from: NodeId, size: u64, files: u32, dirs: u32)
        requires
            old(self).model().ordered(),
            1 <= old(self).nodes@.len() <= NONE,
            old(self).model().nodes[0].parent == NONE,
            (from as int) < old(self).nodes@.len(),
        ensures
            final(self).nodes@.len() == old(self).nodes@.len(),
            forall|i: int|
                0 <= i < old(self).nodes@.len() ==> #[trigger] final(self).nodes@[i] == if old(self).model().is_anc(i, from as int) {
                    Node {
                        size: sat_sub(old(self).nodes@[i].size as int, size as int) as u64,
                        files: sat_sub(old(self).nodes@[i].files as int, files as int) as u32,
                        dirs: sat_sub(old(self).nodes@[i].dirs as int, dirs as int) as u32,
                        ..old(self).nodes@[i]
                    }
                } else {
                    old(self).nodes@[i]
                },
            final(self).dir_index@ == old(self).dir_index@,
            final(self).root_path@ == old(self).root_path@,
            final(self).finished == old(self).finished,
            final(self).kids@ == old(self).kids@,
    {
        let ghost v = old(self).model();
        let ghost n0 = old(self).nodes@;
        let mut cur = from;
        proof {
            assert(self.nodes@ == n0);
            assert forall|i: int| 0 <= i < n0.len() && v.is_anc(i, from as int) implies i <= from by {
                v.lemma_anc_le(i, from as int);
            }
        }
        while cur != NONE
            invariant
                self.nodes@.len() == n0.len(),
                v == old(self).model(),
                n0 == old(self).nodes@,
                v.ordered(),
                v.nodes[0].parent == NONE,
                (from as int) < n0.len(),
                cur == NONE || ((cur as int) < n0.len() && v.is_anc(cur as int, from as int)),
                forall|i: int|
                    0 <= i < n0.len() ==> #[trigger] self.nodes@[i] == if v.is_anc(i, from as int)
                        && i > (if cur == NONE {
                        -1
                    } else {
                        cur as int
                    }) {
                        Node {
                            size: sat_sub(n0[i].size as int, size as int) as u64,
                            files: sat_sub(n0[i].files as int, files as int) as u32,
                            dirs: sat_sub(n0[i].dirs as int, dirs as int) as u32,
                            ..n0[i]
                        }
                    } else {
                        n0[i]
                    },
                self.dir_index@ == old(self).dir_index@,
                self.root_path@ == old(self).root_path@,
                self.finished == old(self).finished,
                self.kids@ == old(self).kids@,
            decreases (if cur == NONE {
                0
            } else {
                cur as int + 1
            }),
        {
            let c = cur as usize;
            assert(self.nodes@[c as int] == n0[c as int]);
            self.nodes[c].size = self.nodes[c].size.saturating_sub(size);
            self.nodes[c].files = self.nodes[c].files.saturating_sub(files);
            self.nodes[c].dirs = self.nodes[c].dirs.saturating_sub(dirs);
            let next = self.nodes[c].parent;
            proof {
                assert(v.nodes[c as int] == n0[c as int].view());
                assert(next == n0[c as int].parent);
                assert(v.nodes[c as int].parent == next);
                if c != 0 {
                    assert(v.parent(c as int) < c);
                }
                let next_int = if next == NONE {
                    -1
                } else {
                    next as int
                };
                assert forall|i: int|
                    0 <= i < n0.len() implies (v.is_anc(i, from as int) && i > next_int) == ((
                    v.is_anc(i, from as int) && i > c) || i == c) by {
                    if v.is_anc(i, from as int) {
                        v.lemma_anc_linear(i, c as int, from as int);
                        if v.is_anc(c as int, i) {
                            v.lemma_anc_le(c as int, i);
                        } else if i != c {
                            assert(c != 0);
                            v.lemma_anc_le(i, next as int);
                        }
                    }
                }
                if next != NONE {
                    assert(v.is_anc(next as int, from as int)) by {
                        assert(c != 0);
                        assert(v.is_anc(next as int, next as int));
                        assert(v.is_anc(next as int, c as int));
                        v.lemma_anc_trans(next as int, c as int, from as int);
                    }
                }
            }
            cur = next;
        }
    }

    /// The links survive changes that touch nothing but sizes and flags.
    proof fn lemma_links_frame(&self, a: Arena)
        requires
            a.links_ok(),
            self.kids@ == a.kids@,
            self.nodes@.len() == a.nodes@.len(),
            forall|i: int|
                0 <= i < a.nodes@.len() ==> #[trigger] self.nodes@[i].parent == a.nodes@[i].parent
                    && self.nodes@[i].first_child == a.nodes@[i].first_child
                    && self.nodes@[i].next_sibling == a.nodes@[i].next_sibling
                    && self.nodes@[i].last_child == a.nodes@[i].last_child,
        ensures
            self.links_ok(),
    {
        let n = self.nodes@.len();
        assert forall|p: int|
            #![trigger self.kids@[p]]
            0 <= p < n implies {
            let ks = self.kids@[p];
            &&& self.nodes@[p].first_child == if ks.len() > 0 {
                ks[0]
            } else {
                NONE
            }
            &&& self.nodes@[p].last_child == if ks.len() > 0 {
                ks.last()
            } else {
                NONE
            }
            &&& forall|m: int|
                #![trigger ks[m]]
                0 <= m < ks.len() ==> {
                    &&& 0 < ks[m] < n
                    &&& self.nodes@[ks[m] as int].parent == p
                    &&& self.nodes@[ks[m] as int].next_sibling == if m + 1 < ks.len() {
                        ks[m + 1]
                    } else {
                        NONE
                    }
                }
            &&& ks.no_duplicates()
        } by {
            let ks = self.kids@[p];
            assert(self.nodes@[p].parent == a.nodes@[p].parent);
            assert(ks == a.kids@[p]);
            assert forall|m: int|
                #![trigger ks[m]]
                0 <= m < ks.len() implies {
                &&& 0 < ks[m] < n
                &&& self.nodes@[ks[m] as int].parent == p
                &&& self.nodes@[ks[m] as int].next_sibling == if m + 1 < ks.len() {
                    ks[m + 1]
                } else {
                    NONE
                }
            } by {
                assert(a.nodes@[ks[m] as int].parent == p);
            }
        }
    }

    /// Detach a subtree and discount it from every ancestor.
    ///
    /// The root cannot be removed, and neither can an id the arena never
    /// issued; removing a node twice changes nothing the second time.
    pub fn remove(&mut self, id: NodeId) -> (r: Result<(), ArenaError>)
        requires
            old(self).wf(),
        ensures
            final(self).wf(),
            id == ROOT || id >= old(self).model().len() ==> r == Err::<(), ArenaError>(
                ArenaError::UnknownNode(id),
            ) && final(self).model() == old(self).model(),
            0 < id < old(self).model().len() && old(self).model().nodes[id as int].removed ==> r is Ok
                && final(self).model() == old(self).model(),
            0 < id < old(self).model().len() && !old(self).model().nodes[id as int].removed ==> r is Ok
                && final(self).model() == old(self).model().pruned(id as int),
            old(self).model().consistent() ==> final(self).model().consistent(),
    {
        if id == ROOT {
            return Err(ArenaError::UnknownNode(id));
        }
        if id as usize >= self.nodes.len() {
            return Err(ArenaError::UnknownNode(id));
        }
        let ghost v = old(self).model();
        let ghost n0 = old(self).nodes@;
        proof {
            assert(v.nodes[id as int] == n0[id as int].view());
        }
        if self.nodes[id as usize].removed {
            return Ok(());
        }
        let size = self.nodes[id as usize].size;
        let files = self.nodes[id as usize].files;
        let dirs = self.nodes[id as usize].dirs;
        let parent = self.nodes[id as usize].parent;
        let self_dir: u32 = if self.nodes[id as usize].is_dir {
            1
        } else {
            0
        };
        proof {
            assert(v.parent(id as int) < id);
            if v.nodes[id as int].is_dir {
                assert(v.nodes[id as int].files + v.nodes[id as int].dirs + id < v.len());
            }
            assert(self.kids@[parent as int].contains(id));
        }
        self.unlink(parent, id);
        let ghost after_unlink = self.nodes@;
        let ghost a_u = *self;
        proof {
            assert forall|j: int|
                0 < j < self.nodes@.len() && j != id && !self.nodes@[j].removed implies #[trigger] self.kids@[self.nodes@[j].parent as int].contains(
                j as u32,
            ) by {
                assert(self.nodes@[j].view() == n0[j].view());
                assert(old(self).kids@[n0[j].parent as int].contains(j as u32));
                assert(v.nodes[j] == n0[j].view());
                assert(v.parent(j) < j);
                assert(n0[j].parent < j);
            }
            assert(self.model().nodes =~= v.nodes) by {
                assert forall|i: int| 0 <= i < n0.len() implies self.model().nodes[i] == v.nodes[i] by {
                    assert(self.nodes@[i].view() == n0[i].view());
                }
            }
        }
        let ghost vu = self.model();
        self.mark_removed(id);
        let ghost vm = self.model();
        let ghost nm = self.nodes@;
        proof {
            assert(vm.ordered()) by {
                assert forall|j: int| 0 < j < vm.len() implies #[trigger] vm.parent(j) < j by {
                    assert(nm[j] == (Node { removed: after_unlink[j].removed || vu.swept(id as int, j), ..after_unlink[j] }));
                    assert(v.parent(j) < j);
                }
            }
            assert(vm.nodes[0].parent == NONE) by {
                assert(nm[0] == (Node { removed: after_unlink[0].removed || vu.swept(id as int, 0), ..after_unlink[0] }));
            }
        }
        self.sub_from_ancestry(parent, size, files, dirs + self_dir);
        proof {
            let w = v.pruned(id as int);
            assert forall|i: int| 0 <= i < n0.len() implies #[trigger] self.model().nodes[i] == w.nodes[i] by {
                assert(nm[i] == (Node { removed: after_unlink[i].removed || vu.swept(id as int, i), ..after_unlink[i] }));
                assert(after_unlink[i].view() == n0[i].view());
                lemma_anc_parents(vm.nodes, v.nodes, i, parent as int);
            }
            assert(self.model().nodes =~= w.nodes);
            assert(self.model() == w);
            v.lemma_prune_shaped(id as int);
            if v.consistent() {
                v.lemma_prune_consistent(id as int);
            }
            assert(self.links_ok()) by {
                assert forall|i: int| 0 <= i < n0.len() implies #[trigger] self.nodes@[i].parent
                    == a_u.nodes@[i].parent && self.nodes@[i].first_child
                    == a_u.nodes@[i].first_child && self.nodes@[i].next_sibling
                    == a_u.nodes@[i].next_sibling && self.nodes@[i].last_child
                    == a_u.nodes@[i].last_child by {
                    assert(nm[i] == (Node { removed: after_unlink[i].removed || vu.swept(id as int, i), ..after_unlink[i] }));
                }
                self.lemma_links_frame(a_u);
            }
            assert forall|j: int|
                0 < j < self.nodes@.len() && j != -1 && !self.nodes@[j].removed implies #[trigger] self.kids@[self.nodes@[j].parent as int].contains(
                j as u32,
            ) by {
                assert(nm[j] == (Node { removed: after_unlink[j].removed || vu.swept(id as int, j), ..after_unlink[j] }));
                assert(j != id);
                assert(a_u.kids@[a_u.nodes@[j].parent as int].contains(j as u32));
            }
        }
        Ok(())
    }

    /// Mark `root` and everything that hangs under it through live nodes.
    #[verifier::rlimit(60)]
    fn mark_removed(&mut self, root: NodeId)
        requires
            old(self).links_ok(),
            old(self).attached_except(root as int),
            old(self).model().ordered(),
            old(self).nodes@.len() <= NONE,
            0 < root < old(self).nodes@.len(),
            !old(self).nodes@[root as int].removed,
        ensures
            final(self).nodes@.len() == old(self).nodes@.len(),
            forall|i: int|
                0 <= i < old(self).nodes@.len() ==> #[trigger] final(self).nodes@[i] == (Node {
                    removed: old(self).nodes@[i].removed || old(self).model().swept(root as int, i),
                    ..old(self).nodes@[i]
                }),
            final(self).kids@ == old(self).kids@,
            final(self).dir_index@ == old(self).dir_index@,
            final(self).root_path@ == old(self).root_path@,
            final(self).finished == old(self).finished,
    {
        let ghost v0 = old(self).model();
        let ghost n0 = old(self).nodes@;
        let ghost nn = n0.len() as int;
        let mut stack: Vec<NodeId> = Vec::new();
        stack.push(root);
        proof {
            assert forall|j: int|
                0 <= j < nn && v0.swept(root as int, j) && !self.nodes@[j].removed implies exists|
                q: int,
            |
                0 <= q < stack@.len() && #[trigger] self.model().swept(stack@[q] as int, j) by {
                assert(self.model().nodes == v0.nodes);
                assert(stack@[0] == root);
            }
        }
        loop
            invariant
                v0 == old(self).model(),
                n0 == old(self).nodes@,
                nn == n0.len(),
                nn <= NONE,
                v0.ordered(),
                old(self).links_ok(),
                old(self).attached_except(root as int),
                0 < root < nn,
                self.nodes@.len() == nn,
                forall|i: int|
                    0 <= i < nn ==> #[trigger] self.nodes@[i] == (Node {
                        removed: self.nodes@[i].removed,
                        ..n0[i]
                    }),
                forall|i: int| 0 <= i < nn && n0[i].removed ==> #[trigger] self.nodes@[i].removed,
                forall|i: int|
                    0 <= i < nn && #[trigger] self.nodes@[i].removed ==> n0[i].removed || v0.swept(
                        root as int,
                        i,
                    ),
                forall|q: int|
                    #![trigger stack@[q]]
                    0 <= q < stack@.len() ==> stack@[q] < nn && (self.nodes@[stack@[q] as int].removed
                        || v0.swept(root as int, stack@[q] as int)),
                forall|j: int|
                    0 <= j < nn && v0.swept(root as int, j) && !self.nodes@[j].removed ==> exists|
                        q: int,
                    |
                        0 <= q < stack@.len() && #[trigger] self.model().swept(stack@[q] as int, j),
                self.kids@ == old(self).kids@,
                self.dir_index@ == old(self).dir_index@,
                self.root_path@ == old(self).root_path@,
                self.finished == old(self).finished,
            ensures
                self.nodes@.len() == nn,
                forall|i: int|
                    0 <= i < nn ==> #[trigger] self.nodes@[i] == (Node {
                        removed: n0[i].removed || v0.swept(root as int, i),
                        ..n0[i]
                    }),
                self.kids@ == old(self).kids@,
                self.dir_index@ == old(self).dir_index@,
                self.root_path@ == old(self).root_path@,
                self.finished == old(self).finished,
            decreases live_count(self.model().nodes, nn), stack@.len(),
        {
            let ghost s0 = stack@;
            let ghost mid = self.model();
            let ghost midn = self.nodes@;
            match stack.pop() {
                None => {
                    proof {
                        assert forall|i: int| 0 <= i < nn implies #[trigger] self.nodes@[i] == (Node {
                            removed: n0[i].removed || v0.swept(root as int, i),
                            ..n0[i]
                        }) by {
                            if v0.swept(root as int, i) && !self.nodes@[i].removed {
                                let q = choose|q: int|
                                    0 <= q < stack@.len() && #[trigger] self.model().swept(
                                        stack@[q] as int,
                                        i,
                                    );
                            }
                        }
                    }
                    break;
                },
                Some(x) => {
                    proof {
                        assert(x == s0[s0.len() - 1]);
                        assert(stack@ == s0.subrange(0, s0.len() - 1));
                    }
                    if self.nodes[x as usize].removed {
                        proof {
                            assert forall|j: int|
                                0 <= j < nn && v0.swept(root as int, j) && !self.nodes@[j].removed
                                    implies exists|q: int|
                                0 <= q < stack@.len() && #[trigger] self.model().swept(
                                    stack@[q] as int,
                                    j,
                                ) by {
                                let q = choose|q: int|
                                    0 <= q < s0.len() && #[trigger] mid.swept(s0[q] as int, j);
                                if q == s0.len() - 1 {
                                    lemma_sweep_ge(mid.nodes, x as int, j);
                                    assert(mid.nodes[x as int].removed);
                                }
                                assert(stack@[q] == s0[q]);
                            }
                            assert(self.model() == mid);
                            lemma_live_count_nonneg(self.model().nodes, nn);
                        }
                        continue;
                    }
                    proof {
                        assert(v0.swept(root as int, x as int));
                        lemma_sweep_ge(v0.nodes, root as int, x as int);
                    }
                    self.nodes[x as usize].removed = true;
                    let ghost after_mark = self.nodes@;
                    proof {
                        assert(mid.nodes[x as int] == midn[x as int].view());
                        assert(self.model().nodes =~= marked(mid.nodes, x as int));
                        lemma_live_count_mark(mid.nodes, x as int, nn);
                    }
                    let ghost ks = self.kids@[x as int];
                    let ghost base = stack@;
                    let mut child = self.nodes[x as usize].first_child;
                    let ghost mut m: int = 0;
                    proof {
                        assert(n0[x as int].first_child == if ks.len() > 0 {
                            ks[0]
                        } else {
                            NONE
                        });
                        assert(stack@ =~= base + ks.take(0));
                    }
                    while child != NONE
                        invariant
                            self.nodes@ == after_mark,
                            after_mark.len() == nn,
                            self.kids@ == old(self).kids@,
                            ks == old(self).kids@[x as int],
                            0 <= m <= ks.len(),
                            stack@ == base + ks.take(m),
                            child == if m < ks.len() {
                                ks[m]
                            } else {
                                NONE
                            },
                            forall|q: int|
                                #![trigger ks[q]]
                                0 <= q < ks.len() ==> 0 < ks[q] < nn && n0[ks[q] as int].next_sibling
                                    == if q + 1 < ks.len() {
                                    ks[q + 1]
                                } else {
                                    NONE
                                },
                            nn <= NONE,
                            forall|i: int|
                                0 <= i < nn ==> #[trigger] after_mark[i] == (Node {
                                    removed: after_mark[i].removed,
                                    ..n0[i]
                                }),
                        decreases ks.len() - m,
                    {
                        stack.push(child);
                        proof {
                            assert(stack@ =~= base + ks.take(m + 1));
                        }
                        child = self.nodes[child as usize].next_sibling;
                        proof {
                            m = m + 1;
                        }
                    }
                    proof {
                        assert(self.nodes@ == after_mark);
                        assert(self.model().nodes =~= marked(mid.nodes, x as int));
                        assert(live_count(self.model().nodes, nn) < live_count(mid.nodes, nn));
                        lemma_live_count_nonneg(self.model().nodes, nn);
                        assert(ks.take(ks.len() as int) =~= ks);
                        self.lemma_mark_step(v0, n0, mid, midn, s0, x, root, ks, old(self).kids@);
                    }
                },
            }
        }
    }

    proof fn lemma_mark_step(
        &self,
        v0: ArenaView,
        n0: Seq<Node>,
        mid: ArenaView,
        midn: Seq<Node>,
        s0: Seq<NodeId>,
        x: NodeId,
        root: NodeId,
        ks: Seq<NodeId>,
        k0: Seq<Seq<NodeId>>,
    )
        requires
            v0.ordered(),
            n0.len() == v0.nodes.len(),
            forall|i: int| 0 <= i < n0.len() ==> #[trigger] v0.nodes[i] == n0[i].view(),
            mid.nodes.len() == n0.len(),
            midn.len() == n0.len(),
            forall|i: int| 0 <= i < n0.len() ==> #[trigger] mid.nodes[i] == midn[i].view(),
            forall|i: int|
                0 <= i < n0.len() ==> #[trigger] midn[i] == (Node { removed: midn[i].removed, ..n0[i] }),
            forall|i: int| 0 <= i < n0.len() && n0[i].removed ==> #[trigger] midn[i].removed,
            forall|i: int|
                0 <= i < n0.len() && #[trigger] midn[i].removed ==> n0[i].removed || v0.swept(
                    root as int,
                    i,
                ),
            forall|j: int|
                0 <= j < n0.len() && v0.swept(root as int, j) && !midn[j].removed ==> exists|q: int|
                    0 <= q < s0.len() && #[trigger] mid.swept(s0[q] as int, j),
            forall|q: int|
                #![trigger s0[q]]
                0 <= q < s0.len() ==> s0[q] < n0.len() && (midn[s0[q] as int].removed || v0.swept(
                    root as int,
                    s0[q] as int,
                )),
            s0.len() > 0,
            n0.len() <= NONE,
            x == s0[s0.len() - 1],
            !midn[x as int].removed,
            v0.swept(root as int, x as int),
            0 < root < n0.len(),
            self.nodes@.len() == n0.len(),
            self.model().nodes == marked(mid.nodes, x as int),
            forall|i: int|
                0 <= i < n0.len() ==> #[trigger] self.nodes@[i] == (Node {
                    removed: if i == x { true } else { midn[i].removed },
                    ..n0[i]
                }),
            ks == k0[x as int],
            k0.len() == n0.len(),
            forall|q: int|
                #![trigger ks[q]]
                0 <= q < ks.len() ==> 0 < ks[q] < n0.len() && n0[ks[q] as int].parent == x,
            forall|j: int|
                0 < j < n0.len() && j != root && !n0[j].removed ==> #[trigger] k0[n0[j].parent as int].contains(
                    j as u32,
                ),
            self.kids@ == k0,
        ensures
            forall|i: int|
                0 <= i < n0.len() ==> #[trigger] self.nodes@[i] == (Node {
                    removed: self.nodes@[i].removed,
                    ..n0[i]
                }),
            forall|i: int| 0 <= i < n0.len() && n0[i].removed ==> #[trigger] self.nodes@[i].removed,
            forall|i: int|
                0 <= i < n0.len() && #[trigger] self.nodes@[i].removed ==> n0[i].removed
                    || v0.swept(root as int, i),
            ({
                let st = s0.subrange(0, s0.len() - 1) + ks;
                &&& forall|q: int|
                    #![trigger st[q]]
                    0 <= q < st.len() ==> st[q] < n0.len() && (self.nodes@[st[q] as int].removed
                        || v0.swept(root as int, st[q] as int))
                &&& forall|j: int|
                    0 <= j < n0.len() && v0.swept(root as int, j) && !self.nodes@[j].removed
                        ==> exists|q: int| 0 <= q < st.len() && #[trigger] self.model().swept(st[q] as int, j)
            }),
    {
        let st = s0.subrange(0, s0.len() - 1) + ks;
        let top = s0.len() - 1;
        lemma_sweep_ge(v0.nodes, root as int, x as int);
        assert forall|q: int|
            #![trigger st[q]]
            0 <= q < st.len() implies st[q] < n0.len() && (self.nodes@[st[q] as int].removed
            || v0.swept(root as int, st[q] as int)) by {
            if q < top {
                assert(st[q] == s0[q]);
            } else {
                let c = st[q] as int;
                assert(st[q] == ks[q - top]);
                assert(n0[c].parent == x);
                assert(v0.nodes[c] == n0[c].view());
                if !self.nodes@[c].removed {
                    assert(c != x);
                    assert(!midn[c].removed);
                    assert(!n0[c].removed);
                    assert(v0.parent(c) < c);
                }
            }
        }
        assert forall|j: int|
            0 <= j < n0.len() && v0.swept(root as int, j) && !self.nodes@[j].removed implies exists|
            q: int,
        | 0 <= q < st.len() && #[trigger] self.model().swept(st[q] as int, j) by {
            assert(j != x);
            assert(!midn[j].removed);
            let q = choose|q: int| 0 <= q < s0.len() && #[trigger] mid.swept(s0[q] as int, j);
            if mid.swept(x as int, j) {
                lemma_toward(mid.nodes, x as int, j);
                let c = toward(mid.nodes, x as int, j);
                lemma_sweep_mark_far(mid.nodes, x as int, c, j);
                assert(mid.nodes[c] == midn[c].view());
                assert(n0[c].parent == x);
                assert(0 < c);
                lemma_sweep_ge(v0.nodes, root as int, x as int);
                assert(c != root);
                assert(!n0[c].removed);
                assert(k0[x as int].contains(c as u32));
                let pos = choose|pos: int| 0 <= pos < ks.len() && ks[pos] == c as u32;
                assert(st[top + pos] == c as u32);
                assert(self.model().swept(st[top + pos] as int, j));
            } else {
                if q == top {
                    assert(s0[q] == x);
                }
                lemma_sweep_mark_off(mid.nodes, x as int, s0[q] as int, j);
                assert(st[q] == s0[q]);
                assert(self.model().swept(st[q] as int, j));
            }
        }
    }

    /// After splicing `id` out at position `pos` of `parent`'s list, the links
    /// agree with the shortened list.
    #[verifier::rlimit(60)]
    proof fn lemma_unlink_links(&self, a0: Arena, parent: int, id: NodeId, pos: int)
        requires
            a0.links_ok(),
            0 <= parent < a0.nodes@.len(),
            self.nodes@.len() == a0.nodes@.len(),
            0 <= pos < a0.kids@[parent].len(),
            a0.kids@[parent][pos] == id,
            self.kids@ == a0.kids@.update(parent, a0.kids@[parent].remove(pos)),
            forall|i: int|
                #![trigger self.nodes@[i]]
                0 <= i < a0.nodes@.len() ==> self.nodes@[i].parent == a0.nodes@[i].parent
                    && (i != parent ==> self.nodes@[i].first_child == a0.nodes@[i].first_child
                    && self.nodes@[i].last_child == a0.nodes@[i].last_child)
                    && (i != (if pos > 0 { a0.kids@[parent][pos - 1] as int } else { -1 })
                    ==> self.nodes@[i].next_sibling == a0.nodes@[i].next_sibling),
            pos > 0 ==> self.nodes@[a0.kids@[parent][pos - 1] as int].next_sibling == a0.nodes@[id as int].next_sibling,
            self.nodes@[parent].first_child == if pos == 0 {
                a0.nodes@[id as int].next_sibling
            } else {
                a0.nodes@[parent].first_child
            },
            self.nodes@[parent].last_child == if a0.nodes@[parent].last_child == id {
                if pos == 0 { a0.nodes@[id as int].next_sibling } else { a0.kids@[parent][pos - 1] }
            } else {
                a0.nodes@[parent].last_child
            },
        ensures
            self.links_ok(),
    {
        let n0 = a0.nodes@;
        let k0 = a0.kids@;
        let ks = k0[parent];
        let rest = ks.remove(pos);
        let n = n0.len();
        assert(ks == a0.kids@[parent]);
        assert(ks.no_duplicates());
        assert(self.kids@[parent] == rest);
        assert forall|p: int|
            #![trigger self.kids@[p]]
            0 <= p < n implies {
            let ks2 = self.kids@[p];
            &&& self.nodes@[p].first_child == if ks2.len() > 0 {
                ks2[0]
            } else {
                NONE
            }
            &&& self.nodes@[p].last_child == if ks2.len() > 0 {
                ks2.last()
            } else {
                NONE
            }
            &&& forall|m: int|
                #![trigger ks2[m]]
                0 <= m < ks2.len() ==> {
                    &&& 0 < ks2[m] < n
                    &&& self.nodes@[ks2[m] as int].parent == p
                    &&& self.nodes@[ks2[m] as int].next_sibling == if m + 1 < ks2.len() {
                        ks2[m + 1]
                    } else {
                        NONE
                    }
                }
            &&& ks2.no_duplicates()
        } by {
            let ks2 = self.kids@[p];
            assert(self.nodes@[p].parent == n0[p].parent);
            if p == parent {
                assert(ks.no_duplicates());
                assert forall|m: int|
                    #![trigger ks2[m]]
                    0 <= m < ks2.len() implies {
                    &&& 0 < ks2[m] < n
                    &&& self.nodes@[ks2[m] as int].parent == p
                    &&& self.nodes@[ks2[m] as int].next_sibling == if m + 1 < ks2.len() {
                        ks2[m + 1]
                    } else {
                        NONE
                    }
                } by {
                    let q = if m < pos { m } else { m + 1 };
                    assert(ks2[m] == ks[q]);
                    assert(ks[q] != id);
                    if m + 1 < ks2.len() {
                        let q2 = if m + 1 < pos { m + 1 } else { m + 2 };
                        assert(ks2[m + 1] == ks[q2]);
                    }
                    if pos > 0 && ks[q] == ks[pos - 1] {
                        assert(q == pos - 1);
                    }
                    assert(self.nodes@[ks[q] as int].parent == n0[ks[q] as int].parent);
                }
                assert forall|a: int, b: int|
                    0 <= a < ks2.len() && 0 <= b < ks2.len() && a != b implies ks2[a] != ks2[b] by {
                    let qa = if a < pos { a } else { a + 1 };
                    let qb = if b < pos { b } else { b + 1 };
                    assert(ks2[a] == ks[qa]);
                    assert(ks2[b] == ks[qb]);
                }
                if ks2.len() > 0 {
                    if pos == 0 {
                        assert(ks2[0] == ks[1]);
                    } else {
                        assert(ks2[0] == ks[0]);
                    }
                    if pos == ks.len() - 1 {
                        assert(ks.last() == id);
                        assert(ks2.last() == ks[pos - 1]);
                    } else {
                        assert(ks2.last() == ks.last());
                        assert(ks.last() != id);
                    }
                } else {
                    assert(ks.len() == 1);
                    assert(ks.last() == id);
                }
            } else {
                let ks0 = k0[p];
                assert(ks2 == ks0);
                assert forall|m: int|
                    #![trigger ks2[m]]
                    0 <= m < ks2.len() implies {
                    &&& 0 < ks2[m] < n
                    &&& self.nodes@[ks2[m] as int].parent == p
                    &&& self.nodes@[ks2[m] as int].next_sibling == if m + 1 < ks2.len() {
                        ks2[m + 1]
                    } else {
                        NONE
                    }
                } by {
                    assert(ks0[m] == ks2[m]);
                    assert(n0[ks0[m] as int].parent == p);
                    if pos > 0 {
                        assert(n0[ks[pos - 1] as int].parent == parent);
                    }
                    assert(self.nodes@[ks0[m] as int].parent == n0[ks0[m] as int].parent);
                }
            }
        }
    }
}

} // verus!
