//! What the frontend asks of the arena: totals, listings, paths and
//! breadcrumbs. Every answer is computed on request from the flat node vector.

use vstd::prelude::*;
use vstd::view::View as _;
use crate::guard::SLASH;
use crate::text::{chars_of, contains_chars, has_infix, lossy, lowercase, lowercased, utf8_lossy};
use super::{join, top_of, Arena, ArenaError, ArenaView, NodeId, NONE, ROOT};
use super::lemmas::{lemma_increasing_unique, lemma_push_contains};

verus! {

/// One listed node, as the frontend draws it.
#[derive(Debug, Clone)]
pub struct Row {
    pub id: NodeId,
    /// Lossy UTF-8 for display only. Deletes travel by id, so a name that is
    /// not valid UTF-8 is still displayable without becoming unsafe to act on.
    pub name: String,
    pub size: u64,
    pub is_dir: bool,
    pub files: u32,
    /// False while this subtree is still being walked.
    pub complete: bool,
    /// Containing directory, for views that cross the tree.
    pub parent: Option<String>,
    /// Id of that directory.
    pub parent_id: Option<NodeId>,
}

/// One directory's listing.
#[derive(Debug, Clone)]
pub struct View {
    pub id: NodeId,
    pub path: String,
    pub size: u64,
    pub rows: Vec<Row>,
    /// Rows beyond the requested limit.
    pub hidden: usize,
    pub complete: bool,
}

#[derive(Debug, Clone)]
pub struct Crumb {
    pub id: NodeId,
    pub name: String,
}

#[derive(Debug, Clone, Copy)]
pub struct Stats {
    pub size: u64,
    pub files: u32,
    pub dirs: u32,
    pub scanning: bool,
}

impl Default for Stats {
    fn default() -> (s: Self)
        ensures
            s.size == 0 && s.files == 0 && s.dirs == 0 && !s.scanning,
    {
        Stats { size: 0, files: 0, dirs: 0, scanning: false }
    }
}

pub open spec fn opt_text(o: Option<String>) -> Option<Seq<char>> {
    match o {
        Some(s) => Some(s@),
        None => None,
    }
}

impl ArenaView {
    /// A file is complete; a directory is once the scan is over, or once it
    /// is listed and has no directories below it.
    pub open spec fn complete(self, i: int) -> bool {
        !self.nodes[i].is_dir || self.finished || (self.nodes[i].listed && self.nodes[i].dirs == 0)
    }

    /// The live children of `id`.
    pub open spec fn children(self, id: int) -> Set<NodeId> {
        Set::new(
            |j: NodeId| 0 < j < self.len() && self.parent(j as int) == id && !self.nodes[j as int].removed,
        )
    }

    /// `r` describes node `id`; with `with_parent`, it also names the
    /// directory the node sits in.
    pub open spec fn row_is(self, r: Row, id: int, with_parent: bool) -> bool {
        &&& r.id == id
        &&& r.name@ == utf8_lossy(self.nodes[id].name)
        &&& r.size == self.nodes[id].size
        &&& r.is_dir == self.nodes[id].is_dir
        &&& r.files == self.nodes[id].files
        &&& r.complete == self.complete(id)
        &&& if with_parent && self.nodes[id].parent != NONE {
            &&& opt_text(r.parent) == Some(utf8_lossy(self.path(self.parent(id))))
            &&& r.parent_id == Some(self.nodes[id].parent)
        } else {
            &&& r.parent is None
            &&& r.parent_id is None
        }
    }

    /// `rows` list the first `limit` members of `s` in rank order.
    pub open spec fn rows_are_top(self, rows: Seq<Row>, s: Set<NodeId>, limit: int, with_parent: bool) -> bool {
        &&& top_of(self, s, limit, rows.map_values(|r: Row| r.id))
        &&& forall|k: int| 0 <= k < rows.len() ==> self.row_is(#[trigger] rows[k], rows[k].id as int, with_parent)
    }

    /// `v` is the listing of directory `id` capped at `limit` rows.
    pub open spec fn view_is(self, v: View, id: int, limit: int) -> bool {
        &&& v.id == id
        &&& v.path@ == utf8_lossy(self.path(id))
        &&& v.size == self.nodes[id].size
        &&& v.complete == self.complete(id)
        &&& self.rows_are_top(v.rows@, self.children(id), limit, false)
        &&& v.hidden + v.rows@.len() == self.children(id).len()
    }

    /// The ids from the root down to `j`.
    pub open spec fn lineage(self, j: int) -> Seq<int>
        decreases j,
    {
        if 0 < j < self.len() && self.parent(j) < j {
            self.lineage(self.parent(j)).push(j)
        } else {
            seq![j]
        }
    }

    /// `path_in` rebuilt from a base by joining the names of `ids` in order.
    pub open spec fn join_all(self, base: Seq<u8>, ids: Seq<NodeId>) -> Seq<u8>
        decreases ids.len(),
    {
        if ids.len() == 0 {
            base
        } else {
            self.join_all(join(base, self.nodes[ids[0] as int].name), ids.drop_first())
        }
    }
}

impl Arena {
    /// Totals for the whole tree. The directory count includes the root.
    pub fn stats(&self) -> (s: Stats)
        requires
            self.wf(),
        ensures
            s.size == self.model().nodes[0].size,
            s.files == self.model().nodes[0].files,
            s.dirs == self.model().nodes[0].dirs + 1,
            s.scanning == !self.model().finished,
    {
        let root = &self.nodes[ROOT as usize];
        assert(self.model().nodes[0] == root.view());
        assert(self.model().nodes[0].files + self.model().nodes[0].dirs + 0 < self.model().len());
        Stats { size: root.size, files: root.files, dirs: root.dirs + 1, scanning: !self.finished }
    }

    pub fn is_live(&self, id: NodeId) -> (r: bool)
        requires
            self.wf(),
        ensures
            r == self.model().live(id as int),
    {
        if (id as usize) < self.nodes.len() {
            assert(self.model().nodes[id as int] == self.nodes@[id as int].view());
            !self.nodes[id as usize].removed
        } else {
            false
        }
    }

    pub fn is_dir(&self, id: NodeId) -> (r: bool)
        requires
            self.wf(),
        ensures
            r == (id < self.model().len() && self.model().nodes[id as int].is_dir),
    {
        if (id as usize) < self.nodes.len() {
            assert(self.model().nodes[id as int] == self.nodes@[id as int].view());
            self.nodes[id as usize].is_dir
        } else {
            false
        }
    }

    /// Rebuild an absolute path by walking to the root. Byte-exact, so the
    /// result is safe to hand to the daemon as a delete target.
    pub fn path_of(&self, id: NodeId) -> (r: Result<Vec<u8>, ArenaError>)
        requires
            self.wf(),
        ensures
            id >= self.model().len() ==> r == Err::<Vec<u8>, ArenaError>(ArenaError::UnknownNode(id)),
            id < self.model().len() ==> r is Ok && r->Ok_0@ == self.model().path(id as int),
    {
        if id as usize >= self.nodes.len() {
            return Err(ArenaError::UnknownNode(id));
        }
        let ghost v = self.model();
        let mut parts: Vec<NodeId> = Vec::new();
        let mut cur = id;
        proof {
            assert(parts@.reverse() =~= Seq::<NodeId>::empty());
        }
        while cur != ROOT
            invariant
                v == self.model(),
                v.shaped(),
                (cur as int) < v.len(),
                v.path(id as int) == v.join_all(v.path(cur as int), parts@.reverse()),
                forall|k: int| 0 <= k < parts@.len() ==> (#[trigger] parts@[k] as int) < v.len(),
            decreases cur,
        {
            let p = self.nodes[cur as usize].parent;
            proof {
                assert(v.nodes[cur as int] == self.nodes@[cur as int].view());
                assert(v.parent(cur as int) < cur);
                assert(parts@.push(cur).reverse() =~= seq![cur] + parts@.reverse());
                assert((seq![cur] + parts@.reverse()).drop_first() =~= parts@.reverse());
            }
            parts.push(cur);
            cur = p;
        }
        let mut out = vstd::slice::slice_to_vec(self.root_path.as_slice());
        let mut k = parts.len();
        proof {
            assert(parts@.take(k as int) =~= parts@);
        }
        while k > 0
            invariant
                v == self.model(),
                k <= parts@.len(),
                forall|q: int| 0 <= q < parts@.len() ==> (#[trigger] parts@[q] as int) < v.len(),
                v.path(id as int) == v.join_all(out@, parts@.take(k as int).reverse()),
            decreases k,
        {
            let x = parts[k - 1];
            let ghost before = out@;
            if out.len() == 0 || out[out.len() - 1] != SLASH {
                out.push(SLASH);
            }
            out.extend_from_slice(self.nodes[x as usize].name.as_slice());
            proof {
                assert(v.nodes[x as int] == self.nodes@[x as int].view());
                assert(out@ =~= join(before, v.nodes[x as int].name));
                let rev = parts@.take(k as int).reverse();
                assert(rev[0] == x);
                assert(rev.drop_first() =~= parts@.take(k - 1).reverse());
            }
            k = k - 1;
        }
        Ok(out)
    }

    /// A file is always complete; a directory is complete once it and
    /// everything under it has been listed.
    fn subtree_complete(&self, id: NodeId) -> (r: bool)
        requires
            self.wf(),
            (id as int) < self.model().len(),
        ensures
            r == self.model().complete(id as int),
    {
        let n = &self.nodes[id as usize];
        assert(self.model().nodes[id as int] == n.view());
        if !n.is_dir {
            return true;
        }
        !self.scanning() || (n.listed && n.dirs == 0)
    }

    pub(crate) fn row(&self, id: NodeId) -> (r: Row)
        requires
            self.wf(),
            (id as int) < self.model().len(),
        ensures
            self.model().row_is(r, id as int, false),
    {
        let n = &self.nodes[id as usize];
        assert(self.model().nodes[id as int] == n.view());
        Row {
            id,
            name: lossy(n.name.as_slice()),
            size: n.size,
            is_dir: n.is_dir,
            files: n.files,
            complete: self.subtree_complete(id),
            parent: None,
            parent_id: None,
        }
    }

    /// A row carrying its containing directory, for results that span the tree.
    pub(crate) fn row_with_parent(&self, id: NodeId) -> (r: Row)
        requires
            self.wf(),
            (id as int) < self.model().len(),
        ensures
            self.model().row_is(r, id as int, true),
    {
        let mut row = self.row(id);
        let parent = self.nodes[id as usize].parent;
        assert(self.model().nodes[id as int] == self.nodes@[id as int].view());
        if parent != NONE {
            proof {
                if id == 0 {
                    assert(false);
                }
                assert(self.model().parent(id as int) < id);
            }
            row.parent = match self.path_of(parent) {
                Ok(p) => Some(lossy(p.as_slice())),
                Err(_) => None,
            };
            row.parent_id = Some(parent);
        }
        row
    }

    /// The live children of `id`, in list order.
    pub(crate) fn children_of(&self, id: NodeId) -> (out: Vec<NodeId>)
        requires
            self.wf(),
            (id as int) < self.model().len(),
        ensures
            out@.no_duplicates(),
            forall|k: int| 0 <= k < out@.len() ==> (#[trigger] out@[k] as int) < self.model().len(),
            out@.to_set() == self.model().children(id as int),
    {
        let ghost ks = self.kids@[id as int];
        let ghost v = self.model();
        let mut out: Vec<NodeId> = Vec::new();
        let mut cur = self.nodes[id as usize].first_child;
        let ghost mut m: int = 0;
        while cur != NONE
            invariant
                v == self.model(),
                self.wf(),
                ks == self.kids@[id as int],
                (id as int) < v.len(),
                0 <= m <= ks.len(),
                cur == if m < ks.len() {
                    ks[m]
                } else {
                    NONE
                },
                out@.no_duplicates(),
                forall|k: int| 0 <= k < out@.len() ==> (#[trigger] out@[k] as int) < v.len(),
                forall|x: NodeId|
                    #[trigger] out@.contains(x) <==> ks.take(m).contains(x) && !v.nodes[x as int].removed,
            decreases ks.len() - m,
        {
            proof {
                assert(ks[m] == cur);
                assert(0 < cur < v.len());
                assert(v.nodes[cur as int] == self.nodes@[cur as int].view());
                assert(ks.take(m + 1) =~= ks.take(m).push(cur));
                assert(!ks.take(m).contains(cur)) by {
                    if ks.take(m).contains(cur) {
                        let q = choose|q: int| 0 <= q < m && ks.take(m)[q] == cur;
                        assert(ks[q] == ks[m]);
                    }
                }
            }
            let ghost prev = out@;
            proof {
                assert(!prev.contains(cur));
            }
            if !self.nodes[cur as usize].removed {
                out.push(cur);
            }
            proof {
                assert forall|x: NodeId|
                    #[trigger] out@.contains(x) <==> ks.take(m + 1).contains(x) && !v.nodes[x as int].removed by {
                    if x == cur {
                        assert(ks.take(m + 1)[m] == cur);
                        if !v.nodes[cur as int].removed {
                            assert(out@[out@.len() - 1] == cur);
                        }
                    } else {
                        if out@.contains(x) {
                            let q = choose|q: int| 0 <= q < out@.len() && out@[q] == x;
                            assert(prev[q] == x);
                        }
                        if prev.contains(x) {
                            let q = choose|q: int| 0 <= q < prev.len() && prev[q] == x;
                            assert(out@[q] == x);
                        }
                    }
                }
            }
            cur = self.nodes[cur as usize].next_sibling;
            proof {
                m = m + 1;
            }
        }
        proof {
            assert(ks.take(ks.len() as int) =~= ks);
            assert forall|x: NodeId| #[trigger] out@.to_set().contains(x) <==> v.children(id as int).contains(x) by {
                if out@.contains(x) {
                    let q = choose|q: int| 0 <= q < ks.len() && ks[q] == x;
                    assert(0 < ks[q] < v.len());
                    assert(self.nodes@[x as int].parent == id);
                    assert(v.nodes[x as int] == self.nodes@[x as int].view());
                }
                if v.children(id as int).contains(x) {
                    assert(v.nodes[x as int] == self.nodes@[x as int].view());
                    assert(self.kids@[self.nodes@[x as int].parent as int].contains((x as int) as u32));
                }
            }
            assert(out@.to_set() =~= v.children(id as int));
        }
        out
    }

    /// Build the rows for `ids`, in order.
    fn rows_for(&self, ids: &Vec<NodeId>, with_parent: bool) -> (rows: Vec<Row>)
        requires
            self.wf(),
            forall|k: int| 0 <= k < ids@.len() ==> (#[trigger] ids@[k] as int) < self.model().len(),
        ensures
            rows@.map_values(|r: Row| r.id) == ids@,
            forall|k: int| 0 <= k < rows@.len() ==> self.model().row_is(#[trigger] rows@[k], rows@[k].id as int, with_parent),
    {
        let mut rows: Vec<Row> = Vec::new();
        let mut k: usize = 0;
        while k < ids.len()
            invariant
                self.wf(),
                k <= ids@.len(),
                forall|q: int| 0 <= q < ids@.len() ==> (#[trigger] ids@[q] as int) < self.model().len(),
                rows@.map_values(|r: Row| r.id) == ids@.take(k as int),
                forall|q: int| 0 <= q < rows@.len() ==> self.model().row_is(#[trigger] rows@[q], rows@[q].id as int, with_parent),
            decreases ids@.len() - k,
        {
            let r = if with_parent {
                self.row_with_parent(ids[k])
            } else {
                self.row(ids[k])
            };
            let ghost prev = rows@;
            rows.push(r);
            proof {
                assert(rows@.map_values(|r: Row| r.id) =~= prev.map_values(|r: Row| r.id).push(ids@[k as int]));
                assert(ids@.take(k + 1) =~= ids@.take(k as int).push(ids@[k as int]));
            }
            k = k + 1;
        }
        assert(ids@.take(ids@.len() as int) =~= ids@);
        rows
    }

    /// The rows for one directory, largest first, capped at `limit`.
    pub fn view(&self, id: NodeId, limit: usize) -> (r: Result<View, ArenaError>)
        requires
            self.wf(),
        ensures
            !self.model().live(id as int) ==> r == Err::<View, ArenaError>(ArenaError::UnknownNode(id)),
            self.model().live(id as int) ==> r is Ok && self.model().view_is(r->Ok_0, id as int, limit as int),
    {
        if !self.is_live(id) {
            return Err(ArenaError::UnknownNode(id));
        }
        let kids = self.children_of(id);
        let count = kids.len();
        proof {
            kids@.unique_seq_to_set();
        }
        let ids = self.top_ranked(kids, limit);
        let hidden = if count > limit {
            count - limit
        } else {
            0
        };
        let rows = self.rows_for(&ids, false);
        let path = match self.path_of(id) {
            Ok(p) => p,
            Err(_) => Vec::new(),
        };
        assert(self.model().nodes[id as int] == self.nodes@[id as int].view());
        Ok(
            View {
                id,
                path: lossy(path.as_slice()),
                size: self.nodes[id as usize].size,
                rows,
                hidden,
                complete: self.subtree_complete(id),
            },
        )
    }

    /// The names from the root down to `id`.
    pub fn breadcrumbs(&self, id: NodeId) -> (r: Result<Vec<Crumb>, ArenaError>)
        requires
            self.wf(),
        ensures
            id >= self.model().len() ==> r == Err::<Vec<Crumb>, ArenaError>(ArenaError::UnknownNode(id)),
            id < self.model().len() ==> r is Ok && r->Ok_0@.len() == self.model().lineage(id as int).len()
                && forall|k: int|
                0 <= k < r->Ok_0@.len() ==> #[trigger] r->Ok_0@[k].id == self.model().lineage(id as int)[k]
                    && r->Ok_0@[k].name@ == utf8_lossy(
                    self.model().nodes[self.model().lineage(id as int)[k]].name,
                ),
    {
        if id as usize >= self.nodes.len() {
            return Err(ArenaError::UnknownNode(id));
        }
        let ghost v = self.model();
        let mut up: Vec<NodeId> = Vec::new();
        let mut cur = id;
        proof {
            assert(v.lineage(id as int) + up@.reverse().map_values(|x: NodeId| x as int) =~= v.lineage(id as int));
        }
        loop
            invariant_except_break
                v == self.model(),
                v.shaped(),
                (cur as int) < v.len(),
                v.lineage(id as int) == v.lineage(cur as int) + up@.reverse().map_values(|x: NodeId| x as int),
                forall|k: int| 0 <= k < up@.len() ==> (#[trigger] up@[k] as int) < v.len(),
            ensures
                v == self.model(),
                v.lineage(id as int) == up@.reverse().map_values(|x: NodeId| x as int),
                forall|k: int| 0 <= k < up@.len() ==> (#[trigger] up@[k] as int) < v.len(),
            decreases cur,
        {
            let ghost before = up@;
            up.push(cur);
            proof {
                assert forall|k: int| 0 <= k < up@.len() implies (#[trigger] up@[k] as int) < v.len() by {
                    if k < before.len() {
                        assert(up@[k] == before[k]);
                    }
                }
            }
            if cur == ROOT {
                proof {
                    assert(v.lineage(0) == seq![0int]);
                    assert(up@.reverse() =~= seq![0u32] + before.reverse());
                    assert(up@.reverse().map_values(|x: NodeId| x as int) =~= v.lineage(0) + before.reverse().map_values(|x: NodeId| x as int));
                    assert(v.lineage(id as int) == up@.reverse().map_values(|x: NodeId| x as int));
                }
                break;
            }
            let p = self.nodes[cur as usize].parent;
            proof {
                assert(v.nodes[cur as int] == self.nodes@[cur as int].view());
                assert(v.parent(cur as int) < cur);
                assert(up@.reverse() =~= seq![cur] + before.reverse());
                assert(up@.reverse().map_values(|x: NodeId| x as int) =~= seq![cur as int] + before.reverse().map_values(|x: NodeId| x as int));
                assert(v.lineage(cur as int) == v.lineage(p as int).push(cur as int));
                assert(v.lineage(p as int) + up@.reverse().map_values(|x: NodeId| x as int) =~= v.lineage(cur as int) + before.reverse().map_values(|x: NodeId| x as int));
            }
            cur = p;
        }
        let mut out: Vec<Crumb> = Vec::new();
        let mut k = up.len();
        while k > 0
            invariant
                v == self.model(),
                k <= up@.len(),
                forall|q: int| 0 <= q < up@.len() ==> (#[trigger] up@[q] as int) < v.len(),
                out@.len() == up@.len() - k,
                forall|q: int|
                    0 <= q < out@.len() ==> #[trigger] out@[q].id == up@[up@.len() - 1 - q]
                        && out@[q].name@ == utf8_lossy(v.nodes[up@[up@.len() - 1 - q] as int].name),
            decreases k,
        {
            let x = up[k - 1];
            assert(v.nodes[x as int] == self.nodes@[x as int].view());
            out.push(Crumb { id: x, name: lossy(self.nodes[x as usize].name.as_slice()) });
            k = k - 1;
        }
        proof {
            assert forall|q: int| 0 <= q < out@.len() implies #[trigger] out@[q].id == v.lineage(id as int)[q]
                && out@[q].name@ == utf8_lossy(v.nodes[v.lineage(id as int)[q]].name) by {
                assert(up@.reverse()[q] == up@[up@.len() - 1 - q]);
                assert(v.lineage(id as int)[q] == up@[up@.len() - 1 - q] as int);
            }
        }
        Ok(out)
    }
}


impl ArenaView {
    /// The live files anywhere in the tree.
    pub open spec fn live_files(self) -> Set<NodeId> {
        Set::new(|j: NodeId| self.live(j as int) && !self.nodes[j as int].is_dir)
    }

    /// The display name of `j`, lowercased, holds the lowercased needle.
    pub open spec fn name_matches(self, j: int, needle: Seq<char>) -> bool {
        has_infix(lowercased(utf8_lossy(self.nodes[j].name)), lowercased(needle))
    }

    /// The live nodes, files or directories, whose names match `needle`.
    pub open spec fn hits(self, needle: Seq<char>) -> Set<NodeId> {
        Set::new(|j: NodeId| self.live(j as int) && self.name_matches(j as int, needle))
    }
}

impl Arena {
    /// The largest files anywhere in the tree, each with its containing
    /// directory.
    pub fn largest_files(&self, limit: usize) -> (rows: Vec<Row>)
        requires
            self.wf(),
        ensures
            self.model().rows_are_top(rows@, self.model().live_files(), limit as int, true),
    {
        let ghost v = self.model();
        let mut files: Vec<NodeId> = Vec::new();
        let mut i: usize = 0;
        while i < self.nodes.len()
            invariant
                v == self.model(),
                self.wf(),
                v.shaped(),
                i <= v.len(),
                forall|a: int, b: int| 0 <= a < b < files@.len() ==> files@[a] < files@[b],
                forall|a: int| 0 <= a < files@.len() ==> (#[trigger] files@[a] as int) < i,
                forall|x: NodeId| #[trigger] files@.contains(x) <==> (x as int) < i && v.live_files().contains(x),
            decreases v.len() - i,
        {
            let n = &self.nodes[i];
            proof {
                assert(v.nodes[i as int] == self.nodes@[i as int].view());
            }
            if !n.is_dir && !n.removed {
                let ghost prev = files@;
                files.push(i as NodeId);
                proof {
                    lemma_push_contains(prev, i as NodeId);
                }
            }
            i += 1;
        }
        proof {
            lemma_increasing_unique(files@);
            assert(files@.to_set() =~= v.live_files());
        }
        let ids = self.top_ranked(files, limit);
        self.rows_for(&ids, true)
    }

    /// Case-insensitive substring match on names, largest first. An empty
    /// needle matches nothing.
    pub fn search(&self, needle: &str, limit: usize) -> (rows: Vec<Row>)
        requires
            self.wf(),
        ensures
            needle@.len() == 0 ==> rows@.len() == 0,
            needle@.len() > 0 ==> self.model().rows_are_top(rows@, self.model().hits(needle@), limit as int, true),
    {
        if needle.is_empty() {
            return Vec::new();
        }
        let lowered = lowercase(needle);
        let pattern = chars_of(lowered.as_str());
        let ghost v = self.model();
        let mut hits: Vec<NodeId> = Vec::new();
        let mut i: usize = 0;
        while i < self.nodes.len()
            invariant
                v == self.model(),
                self.wf(),
                v.shaped(),
                i <= v.len(),
                pattern@ == lowercased(needle@),
                forall|a: int, b: int| 0 <= a < b < hits@.len() ==> hits@[a] < hits@[b],
                forall|a: int| 0 <= a < hits@.len() ==> (#[trigger] hits@[a] as int) < i,
                forall|x: NodeId| #[trigger] hits@.contains(x) <==> (x as int) < i && v.hits(needle@).contains(x),
            decreases v.len() - i,
        {
            let n = &self.nodes[i];
            proof {
                assert(v.nodes[i as int] == self.nodes@[i as int].view());
            }
            if !n.removed {
                let shown = lossy(n.name.as_slice());
                let folded = lowercase(shown.as_str());
                let hay = chars_of(folded.as_str());
                if contains_chars(&hay, &pattern) {
                    let ghost prev = hits@;
                    hits.push(i as NodeId);
                    proof {
                        lemma_push_contains(prev, i as NodeId);
                    }
                }
            }
            i += 1;
        }
        proof {
            lemma_increasing_unique(hits@);
            assert(hits@.to_set() =~= v.hits(needle@));
        }
        let ids = self.top_ranked(hits, limit);
        self.rows_for(&ids, true)
    }
}

} // verus!
