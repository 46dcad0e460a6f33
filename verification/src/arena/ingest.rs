//! Building the arena: the constructor, the directory index, and folding in
//! directory frames as they stream in.

use vstd::prelude::*;
use crate::guard::SLASH;
use crate::protocol::{Entry, EntryKind};
use crate::text::{lossy, utf8_lossy};
use super::{
    agree_upto, entry_node, frame_bytes, frame_dirs, frame_files, index_after, lemma_anc_agree,
    lemma_frame_bounds, lemma_frame_step, ArenaError,
    after_last_slash, basename, key_map, keys_distinct, trim_slashes, Arena, ArenaView, DirKey,
    Node, NodeId, NodeView, NONE, ROOT,
};

verus! {

proof fn lemma_key_map_found(keys: Seq<DirKey>, i: int)
    requires
        keys_distinct(keys),
        0 <= i < keys.len(),
    ensures
        key_map(keys).contains_key(keys[i].path@),
        key_map(keys)[keys[i].path@] == keys[i].id,
{
    let k = keys[i].path@;
    assert(exists|j: int| 0 <= j < keys.len() && #[trigger] keys[j].path@ == k);
    let j = choose|j: int| 0 <= j < keys.len() && #[trigger] keys[j].path@ == k;
    assert(j == i);
}

proof fn lemma_shaped_frame(v: ArenaView, w: ArenaView)
    requires
        v.shaped(),
        w.nodes == v.nodes,
        w.index == v.index,
        w.root_path == v.root_path,
    ensures
        w.shaped(),
{
    assert forall|k: Seq<u8>| #[trigger] w.index.contains_key(k) implies w.index[k] < w.len()
        && w.nodes[w.index[k] as int].is_dir && w.path(w.index[k] as int) == k by {
        assert(v.index.contains_key(k));
    }
    assert forall|j: int| 0 < j < w.len() implies #[trigger] w.parent(j) < j by {
        assert(v.parent(j) < j);
    }
    assert forall|j: int| 0 < j < w.len() implies #[trigger] w.nodes[w.parent(j)].is_dir by {
        assert(v.nodes[v.parent(j)].is_dir);
    }
}

fn basename_of(path: &[u8]) -> (r: Vec<u8>)
    ensures
        r@ == basename(path@),
{
    let mut end = path.len();
    proof {
        assert(path@.subrange(0, end as int) =~= path@);
    }
    while end > 0 && path[end - 1] == crate::guard::SLASH
        invariant
            end <= path@.len(),
            trim_slashes(path@) == trim_slashes(path@.subrange(0, end as int)),
        decreases end,
    {
        assert(path@.subrange(0, end as int).drop_last() =~= path@.subrange(0, end - 1));
        end = end - 1;
    }
    let ghost t = path@.subrange(0, end as int);
    assert(trim_slashes(t) == t);
    if end == 0 {
        return vstd::slice::slice_to_vec(path);
    }
    let mut start = end;
    assert(t.subrange(end as int, end as int) =~= Seq::<u8>::empty());
    assert(t.subrange(0, end as int) =~= t);
    while start > 0 && path[start - 1] != crate::guard::SLASH
        invariant
            start <= end <= path@.len(),
            t == path@.subrange(0, end as int),
            after_last_slash(t) == after_last_slash(t.subrange(0, start as int)) + t.subrange(
                start as int,
                end as int,
            ),
        decreases start,
    {
        let ghost ts = t.subrange(0, start as int);
        assert(ts.drop_last() =~= t.subrange(0, start - 1));
        assert(ts.last() == path@[start - 1]);
        assert(t.subrange(start - 1, end as int) =~= seq![ts.last()] + t.subrange(
            start as int,
            end as int,
        ));
        assert(after_last_slash(ts) == after_last_slash(ts.drop_last()).push(ts.last()));
        assert(after_last_slash(t.subrange(0, start - 1)).push(ts.last()) + t.subrange(
            start as int,
            end as int,
        ) =~= after_last_slash(t.subrange(0, start - 1)) + t.subrange(start - 1, end as int));
        start = start - 1;
    }
    assert(after_last_slash(t.subrange(0, start as int)) =~= Seq::<u8>::empty());
    let mut out: Vec<u8> = Vec::new();
    let mut i = start;
    while i < end
        invariant
            start <= i <= end <= path@.len(),
            out@ == path@.subrange(start as int, i as int),
        decreases end - i,
    {
        out.push(path[i]);
        i = i + 1;
        assert(out@ =~= path@.subrange(start as int, i as int));
    }
    assert(t.subrange(start as int, end as int) =~= path@.subrange(start as int, end as int));
    assert(after_last_slash(t) =~= out@);
    out
}

/// The arena before any frame: the root directory alone, named by the last
/// component of the root path, indexed under that path.
pub open spec fn started(root_path: Seq<u8>) -> ArenaView {
    ArenaView {
        nodes: seq![
            NodeView {
                name: basename(root_path),
                parent: NONE,
                is_dir: true,
                size: 0,
                files: 0,
                dirs: 0,
                listed: false,
                removed: false,
            },
        ],
        index: map![root_path => ROOT],
        root_path: root_path,
        finished: false,
    }
}

impl Arena {
    /// An arena holding only the root directory, indexed under `root_path`.
    pub fn new(root_path: &[u8]) -> (a: Arena)
        ensures
            a.wf(),
            a.model() == started(root_path@),
            a.model().consistent(),
    {
        let name = basename_of(root_path);
        let root = Node {
            name,
            parent: NONE,
            first_child: NONE,
            next_sibling: NONE,
            last_child: NONE,
            size: 0,
            files: 0,
            dirs: 0,
            is_dir: true,
            listed: false,
            removed: false,
        };
        let mut nodes: Vec<Node> = Vec::new();
        nodes.push(root);
        let mut dir_index: Vec<DirKey> = Vec::new();
        dir_index.push(DirKey { path: vstd::slice::slice_to_vec(root_path), id: ROOT });
        let a = Arena {
            nodes,
            dir_index,
            root_path: vstd::slice::slice_to_vec(root_path),
            finished: false,
            kids: Ghost(Seq::<Seq<u32>>::empty().push(Seq::<u32>::empty())),
        };
        proof {
            lemma_key_map_found(a.dir_index@, 0);
            assert(key_map(a.dir_index@) =~= map![root_path@ => ROOT]);
            assert(a.model().nodes =~= seq![
                NodeView {
                    name: basename(root_path@),
                    parent: NONE,
                    is_dir: true,
                    size: 0,
                    files: 0,
                    dirs: 0,
                    listed: false,
                    removed: false,
                },
            ]);
            assert(a.model().nodes[0].is_dir);
            assert(a.model().bytes_under(0, 0) == 0);
            assert(a.model().files_under(0, 0) == 0);
            assert(a.model().dirs_under(0, 0) == 0);
            assert(a.model().bytes_under(0, 1) == 0);
            assert(a.model().files_under(0, 1) == 0);
            assert(a.model().dirs_under(0, 1) == 0);
        }
        a
    }

    /// Record that the daemon reported the end of the scan.
    ///
    /// Completion is reported, not inferred: a directory at the walker's depth
    /// limit is announced by its parent and then never read.
    pub fn finish(&mut self)
        requires
            old(self).wf(),
        ensures
            final(self).wf(),
            final(self).model() == (ArenaView { finished: true, ..old(self).model() }),
    {
        assert(self.model().shaped());
        self.finished = true;
        assert(self.model().nodes == old(self).model().nodes);
        assert(self.model().root_path == old(self).model().root_path);
        assert(self.model().index == old(self).model().index);
        proof {
            lemma_shaped_frame(old(self).model(), self.model());
        }
    }

    /// Whether the scan is still running.
    pub fn scanning(&self) -> (r: bool)
        ensures
            r == !self.model().finished,
    {
        !self.finished
    }


    /// Append a node under `parent`, at the end of its child list.
    fn push_node(&mut self, parent: NodeId, name: &[u8], is_dir: bool, size: u64) -> (id: NodeId)
        requires
            old(self).links_ok(),
            old(self).attached_except(-1),
            old(self).model().ordered(),
            (parent as int) < old(self).nodes@.len(),
            old(self).nodes@.len() < NONE,
        ensures
            id == old(self).nodes@.len(),
            final(self).nodes@.len() == old(self).nodes@.len() + 1,
            forall|i: int|
                0 <= i < old(self).nodes@.len() ==> #[trigger] final(self).nodes@[i].view() == old(
                    self,
                ).nodes@[i].view(),
            final(self).nodes@[id as int].view() == (NodeView {
                name: name@,
                parent,
                is_dir,
                size: if is_dir {
                    0
                } else {
                    size
                },
                files: if is_dir {
                    0
                } else {
                    1
                },
                dirs: 0,
                listed: false,
                removed: false,
            }),
            final(self).kids@ == old(self).kids@.update(
                parent as int,
                old(self).kids@[parent as int].push(id),
            ).push(Seq::<u32>::empty()),
            final(self).links_ok(),
            final(self).attached_except(-1),
            final(self).dir_index@ == old(self).dir_index@,
            final(self).root_path@ == old(self).root_path@,
            final(self).finished == old(self).finished,
    {
        let id = self.nodes.len() as NodeId;
        let ghost old_nodes = self.nodes@;
        let ghost ks = self.kids@[parent as int];
        self.nodes.push(
            Node {
                name: vstd::slice::slice_to_vec(name),
                parent,
                first_child: NONE,
                next_sibling: NONE,
                last_child: NONE,
                size: if is_dir {
                    0
                } else {
                    size
                },
                files: if is_dir {
                    0
                } else {
                    1
                },
                dirs: 0,
                is_dir,
                listed: false,
                removed: false,
            },
        );
        let first = self.nodes[parent as usize].first_child;
        if first == NONE {
            self.nodes[parent as usize].first_child = id;
        } else {
            let last = self.nodes[parent as usize].last_child;
            assert(ks.len() > 0);
            assert(0 < last < id);
            self.nodes[last as usize].next_sibling = id;
        }
        self.nodes[parent as usize].last_child = id;
        self.kids = Ghost(
            self.kids@.update(parent as int, self.kids@[parent as int].push(id)).push(
                Seq::<u32>::empty(),
            ),
        );
        proof {
            let n = self.nodes@.len();
            let kids = self.kids@;
            assert forall|i: int| 0 <= i < old_nodes.len() implies #[trigger] self.nodes@[i].view()
                == old_nodes[i].view() by {}
            assert forall|p: int|
                #![trigger kids[p]]
                0 <= p < n implies {
                let ks2 = kids[p];
                &&& self.nodes@[p].first_child == if ks2.len() > 0 {
                    ks2[0]
                } else {
                    NONE
                }
                &&& self.nodes@[p].last_child == if ks2.len() > 0 {
                    ks2.last()
                } else {
                    NONE
                }
                &&& forall|m: int|
                    #![trigger ks2[m]]
                    0 <= m < ks2.len() ==> {
                        &&& 0 < ks2[m] < n
                        &&& self.nodes@[ks2[m] as int].parent == p
                        &&& self.nodes@[ks2[m] as int].next_sibling == if m + 1 < ks2.len() {
                            ks2[m + 1]
                        } else {
                            NONE
                        }
                    }
                &&& ks2.no_duplicates()
            } by {
                let ks2 = kids[p];
                if p == id as int {
                    assert(ks2.len() == 0);
                } else if p == parent as int {
                    assert(ks2 == ks.push(id));
                    assert forall|m: int|
                        #![trigger ks2[m]]
                        0 <= m < ks2.len() implies {
                        &&& 0 < ks2[m] < n
                        &&& self.nodes@[ks2[m] as int].parent == p
                        &&& self.nodes@[ks2[m] as int].next_sibling == if m + 1 < ks2.len() {
                            ks2[m + 1]
                        } else {
                            NONE
                        }
                    } by {
                        if m < ks.len() {
                            assert(ks[m] == ks2[m]);
                        }
                    }
                    assert forall|a: int, b: int|
                        0 <= a < ks2.len() && 0 <= b < ks2.len() && a != b implies ks2[a]
                        != ks2[b] by {
                        if a < ks.len() {
                            assert(ks[a] < id);
                        }
                        if b < ks.len() {
                            assert(ks[b] < id);
                        }
                    }
                } else {
                    let ks0 = old(self).kids@[p];
                    assert(ks2 == ks0);
                    assert forall|m: int|
                        #![trigger ks2[m]]
                        0 <= m < ks2.len() implies {
                        &&& 0 < ks2[m] < n
                        &&& self.nodes@[ks2[m] as int].parent == p
                        &&& self.nodes@[ks2[m] as int].next_sibling == if m + 1 < ks2.len() {
                            ks2[m + 1]
                        } else {
                            NONE
                        }
                    } by {
                        assert(ks0[m] == ks2[m]);
                        assert(old_nodes[ks0[m] as int].parent == p);
                    }
                }
            }
            assert forall|j: int|
                0 < j < n && j != -1 && !self.nodes@[j].removed implies #[trigger] kids[self.nodes@[j].parent as int].contains(
                j as u32,
            ) by {
                if j < id {
                    let q = self.nodes@[j].parent as int;
                    assert(old(self).kids@[q].contains(j as u32));
                    let m = choose|m: int| 0 <= m < old(self).kids@[q].len() && old(self).kids@[q][m] == j as u32;
                    assert(old(self).model().nodes[j] == old_nodes[j].view());
                    assert(old(self).model().nodes[j].parent < j);
                    assert(q < j);
                    if q == parent as int {
                        assert(kids[q] == old(self).kids@[q].push(id));
                        assert(kids[q][m] == j as u32);
                    } else {
                        assert(kids[q][m] == j as u32);
                    }
                } else {
                    assert(kids[parent as int].last() == id);
                }
            }
        }
        id
    }


    /// Add a delta to `from` and every ancestor.
    fn add_to_ancestry(&mut self, from: NodeId, size: u64, files: u32, dirs: u32)
        requires
            old(self).model().ordered(),
            1 <= old(self).nodes@.len() <= NONE,
            old(self).model().nodes[0].parent == NONE,
            (from as int) < old(self).nodes@.len(),
            forall|a: int|
                0 <= a < old(self).nodes@.len() && #[trigger] old(self).model().is_anc(a, from as int)
                    ==> old(self).nodes@[a].size + size <= u64::MAX && old(self).nodes@[a].files
                    + files <= u32::MAX && old(self).nodes@[a].dirs + dirs <= u32::MAX,
        ensures
            final(self).nodes@.len() == old(self).nodes@.len(),
            forall|i: int|
                0 <= i < old(self).nodes@.len() ==> #[trigger] final(self).nodes@[i] == if old(self).model().is_anc(i, from as int) {
                    Node {
                        size: (old(self).nodes@[i].size + size) as u64,
                        files: (old(self).nodes@[i].files + files) as u32,
                        dirs: (old(self).nodes@[i].dirs + dirs) as u32,
                        ..old(self).nodes@[i]
                    }
                } else {
                    old(self).nodes@[i]
                },
            final(self).dir_index@ == old(self).dir_index@,
            final(self).root_path@ == old(self).root_path@,
            final(self).finished == old(self).finished,
            final(self).kids@ == old(self).kids@,
    {
        let ghost v = old(self).model();
        let ghost n0 = old(self).nodes@;
        let mut cur = from;
        proof {
            assert(self.nodes@ == n0);
            assert forall|i: int| 0 <= i < n0.len() && v.is_anc(i, from as int) implies i <= from by {
                v.lemma_anc_le(i, from as int);
            }
        }
        while cur != NONE
            invariant
                self.nodes@.len() == n0.len(),
                v == old(self).model(),
                n0 == old(self).nodes@,
                v.ordered(),
                v.nodes[0].parent == NONE,
                (from as int) < n0.len(),
                cur == NONE || ((cur as int) < n0.len() && v.is_anc(cur as int, from as int)),
                forall|a: int|
                    0 <= a < n0.len() && #[trigger] v.is_anc(a, from as int) ==> n0[a].size + size
                        <= u64::MAX && n0[a].files + files <= u32::MAX && n0[a].dirs + dirs
                        <= u32::MAX,
                forall|i: int|
                    0 <= i < n0.len() ==> #[trigger] self.nodes@[i] == if v.is_anc(i, from as int)
                        && i > (if cur == NONE {
                        -1
                    } else {
                        cur as int
                    }) {
                        Node {
                            size: (n0[i].size + size) as u64,
                            files: (n0[i].files + files) as u32,
                            dirs: (n0[i].dirs + dirs) as u32,
                            ..n0[i]
                        }
                    } else {
                        n0[i]
                    },
                self.dir_index@ == old(self).dir_index@,
                self.root_path@ == old(self).root_path@,
                self.finished == old(self).finished,
                self.kids@ == old(self).kids@,
            decreases (if cur == NONE {
                0
            } else {
                cur as int + 1
            }),
        {
            let c = cur as usize;
            assert(self.nodes@[c as int] == n0[c as int]);
            self.nodes[c].size = self.nodes[c].size + size;
            self.nodes[c].files = self.nodes[c].files + files;
            self.nodes[c].dirs = self.nodes[c].dirs + dirs;
            let next = self.nodes[c].parent;
            proof {
                assert(v.nodes[c as int] == n0[c as int].view());
                assert(next == n0[c as int].parent);
                assert(v.nodes[c as int].parent == next);
                if c != 0 {
                    assert(v.parent(c as int) < c);
                }
                let next_int = if next == NONE {
                    -1
                } else {
                    next as int
                };
                if c == 0 {
                    assert(next == NONE);
                } else {
                    assert(next < c);
                }
                assert forall|i: int|
                    0 <= i < n0.len() implies (v.is_anc(i, from as int) && i > next_int) == ((
                    v.is_anc(i, from as int) && i > c) || i == c) by {
                    if v.is_anc(i, from as int) {
                        v.lemma_anc_linear(i, c as int, from as int);
                        if v.is_anc(c as int, i) {
                            v.lemma_anc_le(c as int, i);
                        } else if i != c {
                            assert(c != 0);
                            v.lemma_anc_le(i, next as int);
                        }
                    }
                    if i == c && c != 0 {
                        assert(next < c);
                    }
                }
                if next != NONE {
                    assert(v.is_anc(next as int, from as int)) by {
                        assert(c != 0);
                        assert(v.is_anc(next as int, next as int));
                        assert(v.is_anc(next as int, c as int));
                        v.lemma_anc_trans(next as int, c as int, from as int);
                    }
                }
            }
            cur = next;
        }
    }


    /// Fold one directory frame into the tree.
    ///
    /// Relies on the daemon's ordering guarantee: a directory is discovered
    /// while reading its parent, so by the time its own frame arrives a node
    /// is indexed for it. A frame for a path nobody announced is refused, and a
    /// second frame for a directory already listed is ignored, since it would
    /// count every byte in it twice.
    pub fn apply_dir(&mut self, path: &[u8], entries: &[Entry]) -> (r: Result<(), ArenaError>)
        requires
            old(self).wf(),
            old(self).model().can_ingest(path@, entries@),
        ensures
            final(self).wf(),
            !old(self).model().index.contains_key(path@) ==> final(self).model() == old(self).model() && (
            r matches Err(ArenaError::OrphanFrame(m)) && m@ == utf8_lossy(path@)),
            old(self).model().index.contains_key(path@) && !old(self).model().fresh(path@) ==> final(self).model()
                == old(self).model() && r is Ok,
            old(self).model().fresh(path@) ==> final(self).model() == old(self).model().ingested(path@, entries@)
                && r is Ok,
            old(self).model().tallied() ==> final(self).model().tallied(),
            old(self).model().closed_under_removal() && !old(self).model().ingest_into_removed(path@, entries@)
                ==> final(self).model().closed_under_removal(),
    {
        let dir_id = match self.find_dir(path) {
            Some(id) => id,
            None => {
                return Err(ArenaError::OrphanFrame(lossy(path)));
            },
        };
        let ghost v = old(self).model();
        let ghost n0 = old(self).nodes@;
        let ghost l = n0.len() as int;
        let ghost d = dir_id as int;
        let ghost es = entries@;
        proof {
            assert(v.nodes[d] == n0[d].view());
        }
        if self.nodes[dir_id as usize].listed {
            return Ok(());
        }
        proof {
            assert(v.is_anc(d, d));
            assert(v.dir_at(path@) == d);
            assert(!v.nodes[d].listed);
            assert(v.fresh(path@));
            assert(v.nodes[d].size + frame_bytes(es) <= u64::MAX);
            assert(n0[d].size + frame_bytes(es) <= u64::MAX);
            lemma_frame_bounds(es, 0);
        }
        let mut added_size: u64 = 0;
        let mut added_files: u32 = 0;
        let mut added_dirs: u32 = 0;
        let mut i: usize = 0;
        while i < entries.len()
            invariant
                v == old(self).model(),
                n0 == old(self).nodes@,
                l == n0.len(),
                v.shaped(),
                d == dir_id,
                d < l,
                v.fresh(path@),
                v.dir_at(path@) == d,
                es == entries@,
                l + es.len() <= NONE,
                frame_bytes(es) <= u64::MAX,
                i <= es.len(),
                self.nodes@.len() == l + i,
                forall|j: int| 0 <= j < l ==> #[trigger] self.nodes@[j].view() == n0[j].view(),
                forall|m: int|
                    0 <= m < i ==> #[trigger] self.nodes@[l + m].view() == entry_node(d, es[m]),
                self.model().index == index_after(v.index, path@, es.take(i as int), l),
                added_size == frame_bytes(es.take(i as int)),
                added_files == frame_files(es.take(i as int)),
                added_dirs == frame_dirs(es.take(i as int)),
                self.links_ok(),
                self.attached_except(-1),
                keys_distinct(self.dir_index@),
                self.model().ordered(),
                self.root_path@ == v.root_path,
                self.finished == v.finished,
            decreases es.len() - i,
        {
            let entry = &entries[i];
            let is_dir = entry.kind == EntryKind::Dir;
            proof {
                lemma_frame_step(es, i + 1);
                lemma_frame_bounds(es, i + 1);
                assert(es.take(i + 1).drop_last() =~= es.take(i as int));
                assert(es.take(i + 1).last() == es[i as int]);
            }
            let ghost before = self.nodes@;
            let ghost before_v = self.model();
            let child = self.push_node(dir_id, entry.name.as_slice(), is_dir, entry.size);
            let ghost after_push = self.nodes@;
            proof {
                assert(self.nodes@[child as int].view() == entry_node(d, es[i as int]));
            }
            if is_dir {
                added_dirs = added_dirs + 1;
                let mut child_path = vstd::slice::slice_to_vec(path);
                if child_path.len() == 0 || child_path[child_path.len() - 1] != SLASH {
                    child_path.push(SLASH);
                }
                child_path.extend_from_slice(entry.name.as_slice());
                proof {
                    assert(child_path@ =~= super::join(path@, entry.name@));
                }
                let ghost nodes_before = self.nodes@;
                self.index_put(child_path, child);
                proof {
                    assert(self.model().nodes == nodes_before.map_values(|n: Node| n.view()));
                }
            } else {
                added_files = added_files + 1;
                added_size = added_size + entry.size;
            }
            i = i + 1;
            proof {
                assert forall|m: int| 0 <= m < i implies #[trigger] self.nodes@[l + m].view()
                    == entry_node(d, es[m]) by {
                    if m < i - 1 {
                        assert(self.nodes@[l + m].view() == before[l + m].view());
                    }
                }
                assert(self.nodes@ == after_push);
                assert forall|j: int| 0 < j < self.model().len() implies #[trigger] self.model().parent(j) < j by {
                    assert(self.model().nodes[j] == after_push[j].view());
                    if j < child {
                        assert(after_push[j].view() == before[j].view());
                        assert(before_v.parent(j) < j);
                    }
                }
            }
        }
        proof {
            assert(es.take(es.len() as int) =~= es);
        }
        let ghost before_listed = self.nodes@;
        let ghost bl_v = self.model();
        self.nodes[dir_id as usize].listed = true;
        let ghost pre = self.model();
        let ghost pren = self.nodes@;
        proof {
            let k = es.len() as int;
            lemma_frame_bounds(es, k);
            assert(agree_upto(v, pre, l)) by {
                assert forall|j: int| #![trigger pre.nodes[j]] 0 <= j < l implies {
                    &&& pre.nodes[j].parent == v.nodes[j].parent
                    &&& pre.nodes[j].removed == v.nodes[j].removed
                    &&& pre.nodes[j].is_dir == v.nodes[j].is_dir
                    &&& (!v.nodes[j].is_dir ==> pre.nodes[j].size == v.nodes[j].size)
                } by {
                    assert(before_listed[j].view() == n0[j].view());
                }
            }
            assert(pre.ordered()) by {
                assert forall|j: int| 0 < j < pre.len() implies #[trigger] pre.parent(j) < j by {
                    assert(pren[j].parent == before_listed[j].parent);
                    assert(bl_v.parent(j) < j);
                }
            }
            assert forall|a: int|
                0 <= a < pren.len() && #[trigger] pre.is_anc(a, d) implies pren[a].size
                + added_size <= u64::MAX && pren[a].files + added_files <= u32::MAX
                && pren[a].dirs + added_dirs <= u32::MAX by {
                pre.lemma_anc_le(a, d);
                lemma_anc_agree(v, pre, l, a, d);
                assert(v.is_anc(a, d));
                if a != d {
                    v.lemma_anc_is_dir(a, d);
                }
                assert(v.nodes[a].files + v.nodes[a].dirs + a < l);
                assert(before_listed[a].view() == n0[a].view());
            }
            assert(pre.nodes[0].parent == NONE) by {
                assert(before_listed[0].view() == n0[0].view());
            }
        }
        self.add_to_ancestry(dir_id, added_size, added_files, added_dirs);
        proof {
            let w = v.ingested(path@, es);
            let k = es.len() as int;
            assert forall|j: int| 0 <= j < l + k implies #[trigger] self.model().nodes[j] == w.nodes[j] by {
                if j < l {
                    lemma_anc_agree(v, pre, l, j, d);
                    assert(before_listed[j].view() == n0[j].view());
                } else {
                    if pre.is_anc(j, d) {
                        pre.lemma_anc_le(j, d);
                    }
                    assert(self.nodes@[l + (j - l)].view() == before_listed[l + (j - l)].view());
                }
            }
            assert(self.model().nodes =~= w.nodes);
            assert(self.model() == w);
            v.lemma_ingest_shaped(path@, es);
            if v.tallied() {
                v.lemma_ingest_tallied(path@, es);
            }
            if v.closed_under_removal() && !v.ingest_into_removed(path@, es) {
                v.lemma_ingest_closed(path@, es);
            }
        }
        Ok(())
    }

    /// Where a directory path is recorded in the index.
    fn find_key(&self, path: &[u8]) -> (r: Option<usize>)
        ensures
            match r {
                Some(i) => i < self.dir_index@.len() && self.dir_index@[i as int].path@ == path@,
                None => forall|i: int|
                    0 <= i < self.dir_index@.len() ==> #[trigger] self.dir_index@[i].path@
                        != path@,
            },
    {
        let mut i: usize = 0;
        while i < self.dir_index.len()
            invariant
                i <= self.dir_index@.len(),
                forall|j: int| 0 <= j < i ==> #[trigger] self.dir_index@[j].path@ != path@,
            decreases self.dir_index@.len() - i,
        {
            if crate::text::bytes_equal(self.dir_index[i].path.as_slice(), path) {
                return Some(i);
            }
            i = i + 1;
        }
        None
    }

    /// The directory indexed under `path`.
    pub(crate) fn find_dir(&self, path: &[u8]) -> (r: Option<u32>)
        requires
            keys_distinct(self.dir_index@),
        ensures
            match r {
                Some(id) => self.model().index.contains_key(path@) && self.model().index[path@] == id,
                None => !self.model().index.contains_key(path@),
            },
    {
        match self.find_key(path) {
            Some(i) => {
                proof {
                    lemma_key_map_found(self.dir_index@, i as int);
                }
                Some(self.dir_index[i].id)
            },
            None => None,
        }
    }

    /// Record `key` as naming `id`, replacing what it named before.
    fn index_put(&mut self, key: Vec<u8>, id: u32)
        requires
            keys_distinct(old(self).dir_index@),
        ensures
            keys_distinct(final(self).dir_index@),
            final(self).model().index == old(self).model().index.insert(key@, id),
            final(self).nodes@ == old(self).nodes@,
            final(self).root_path@ == old(self).root_path@,
            final(self).finished == old(self).finished,
            final(self).kids@ == old(self).kids@,
    {
        let ghost old_keys = self.dir_index@;
        let ghost k = key@;
        match self.find_key(key.as_slice()) {
            Some(i) => {
                self.dir_index.set(i, DirKey { path: key, id });
                proof {
                    let keys = self.dir_index@;
                    assert(keys_distinct(keys));
                    assert forall|q: Seq<u8>|
                        #![trigger key_map(keys).contains_key(q)]
                        key_map(keys).contains_key(q) == key_map(old_keys).insert(
                            k,
                            id,
                        ).contains_key(q) && (key_map(keys).contains_key(q) ==> key_map(keys)[q]
                            == key_map(old_keys).insert(k, id)[q]) by {
                        if q == k {
                            lemma_key_map_found(keys, i as int);
                        } else {
                            if key_map(keys).contains_key(q) {
                                let j = choose|j: int|
                                    0 <= j < keys.len() && #[trigger] keys[j].path@ == q;
                                lemma_key_map_found(keys, j);
                                lemma_key_map_found(old_keys, j);
                            }
                            if key_map(old_keys).contains_key(q) {
                                let j = choose|j: int|
                                    0 <= j < old_keys.len() && #[trigger] old_keys[j].path@ == q;
                                assert(keys[j].path@ == q);
                            }
                        }
                    }
                    assert(key_map(keys) =~= key_map(old_keys).insert(k, id));
                }
            },
            None => {
                self.dir_index.push(DirKey { path: key, id });
                proof {
                    let keys = self.dir_index@;
                    let n = old_keys.len() as int;
                    assert(keys_distinct(keys));
                    assert forall|q: Seq<u8>|
                        #![trigger key_map(keys).contains_key(q)]
                        key_map(keys).contains_key(q) == key_map(old_keys).insert(
                            k,
                            id,
                        ).contains_key(q) && (key_map(keys).contains_key(q) ==> key_map(keys)[q]
                            == key_map(old_keys).insert(k, id)[q]) by {
                        if q == k {
                            lemma_key_map_found(keys, n);
                        } else {
                            if key_map(keys).contains_key(q) {
                                let j = choose|j: int|
                                    0 <= j < keys.len() && #[trigger] keys[j].path@ == q;
                                lemma_key_map_found(keys, j);
                                lemma_key_map_found(old_keys, j);
                            }
                            if key_map(old_keys).contains_key(q) {
                                let j = choose|j: int|
                                    0 <= j < old_keys.len() && #[trigger] old_keys[j].path@ == q;
                                assert(keys[j].path@ == q);
                            }
                        }
                    }
                    assert(key_map(keys) =~= key_map(old_keys).insert(k, id));
                }
            },
        }
    }
}


impl Arena {
    /// Whether a frame for `path` with these entries can be folded in without
    /// a total or an id running out of range.
    pub fn can_apply(&self, path: &[u8], entries: &[Entry]) -> (r: bool)
        requires
            self.wf(),
        ensures
            r == self.model().can_ingest(path@, entries@),
    {
        let ghost v = self.model();
        let ghost es = entries@;
        let d = match self.find_dir(path) {
            Some(d) => d,
            None => {
                return true;
            },
        };
        proof {
            assert(v.nodes[d as int] == self.nodes@[d as int].view());
        }
        if self.nodes[d as usize].listed {
            return true;
        }
        if entries.len() > (NONE as usize) - self.nodes.len() {
            return false;
        }
        let mut bytes: u64 = 0;
        let mut i: usize = 0;
        while i < entries.len()
            invariant
                es == entries@,
                v == self.model(),
                v.fresh(path@),
                v.dir_at(path@) == d,
                (d as int) < v.len(),
                i <= es.len(),
                bytes == frame_bytes(es.take(i as int)),
            decreases es.len() - i,
        {
            proof {
                lemma_frame_step(es, i + 1);
            }
            if entries[i].kind == EntryKind::File {
                if entries[i].size > u64::MAX - bytes {
                    proof {
                        lemma_frame_bounds(es, i + 1);
                        assert(v.is_anc(d as int, v.dir_at(path@)));
                        assert(v.nodes[d as int].size >= 0);
                    }
                    return false;
                }
                bytes = bytes + entries[i].size;
            }
            i += 1;
        }
        proof {
            assert(es.take(es.len() as int) =~= es);
        }
        let mut cur = d;
        while cur != NONE
            invariant
                v == self.model(),
                self.wf(),
                v.shaped(),
                v.fresh(path@),
                v.dir_at(path@) == d,
                es == entries@,
                (d as int) < v.len(),
                bytes == frame_bytes(es),
                cur == NONE || ((cur as int) < v.len() && v.is_anc(cur as int, d as int)),
                forall|a: int|
                    0 <= a < v.len() && #[trigger] v.is_anc(a, d as int) && !v.is_anc(a, cur as int)
                        ==> v.nodes[a].size + frame_bytes(es) <= u64::MAX,
            decreases if cur == NONE {
                0
            } else {
                cur + 1
            },
        {
            proof {
                assert(v.nodes[cur as int] == self.nodes@[cur as int].view());
            }
            if self.nodes[cur as usize].size > u64::MAX - bytes {
                proof {
                    assert(v.is_anc(cur as int, v.dir_at(path@)));
                }
                return false;
            }
            let p = self.nodes[cur as usize].parent;
            proof {
                if cur != 0 {
                    assert(v.parent(cur as int) < cur);
                    assert(v.is_anc(p as int, p as int));
                    assert(v.is_anc(p as int, cur as int));
                    v.lemma_anc_trans(p as int, cur as int, d as int);
                } else {
                    assert(p == NONE);
                }
                assert forall|a: int|
                    0 <= a < v.len() && #[trigger] v.is_anc(a, d as int) && !v.is_anc(a, p as int) implies v.nodes[a].size
                        + frame_bytes(es) <= u64::MAX by {
                    if a != cur && v.is_anc(a, cur as int) {
                        assert(cur != 0);
                        assert(v.is_anc(a, p as int));
                    }
                }
            }
            cur = p;
        }
        true
    }
}

} // verus!
