//! The scanned tree, owned by the host process.
//!
//! A flat vector of nodes with child links held as indices. Children are a
//! singly linked list threaded through `first_child`, `next_sibling` and
//! `last_child`, so appending during a streaming scan never reallocates a
//! per-directory vector. Only each node's own name is stored; full paths are
//! rebuilt by walking parents.
//!
//! The model a caller reasons about is `ArenaView`: the nodes in id order with
//! their names, parents, kinds, stored subtree totals and flags, the index of
//! directory paths, the root path, and whether the scan was reported finished.

use vstd::prelude::*;
use vstd::view::View as _;
use crate::guard::SLASH;
use crate::protocol::{Entry, EntryKind};

verus! {

pub type NodeId = u32;

/// Sentinel for "no node". The root is always id 0, so 0 cannot mean absent.
pub const NONE: NodeId = 0xffff_ffff;

pub const ROOT: NodeId = 0;

/// One node as callers see it.
pub struct NodeView {
    pub name: Seq<u8>,
    pub parent: u32,
    pub is_dir: bool,
    /// Subtree total in bytes; a file's own length.
    pub size: u64,
    /// Files in the subtree; 1 for a file.
    pub files: u32,
    /// Directories strictly below; 0 for a file.
    pub dirs: u32,
    /// This directory's own frame has arrived.
    pub listed: bool,
    pub removed: bool,
}

pub struct ArenaView {
    pub nodes: Seq<NodeView>,
    /// Directory path to node id. Only directories are indexed.
    pub index: Map<Seq<u8>, u32>,
    pub root_path: Seq<u8>,
    /// The daemon has reported the end of the scan.
    pub finished: bool,
}

/// `p` joined with `name` by a single separator.
pub open spec fn join(p: Seq<u8>, name: Seq<u8>) -> Seq<u8> {
    if p.len() > 0 && p.last() == SLASH {
        p + name
    } else {
        p.push(SLASH) + name
    }
}

pub open spec fn trim_slashes(p: Seq<u8>) -> Seq<u8>
    decreases p.len(),
{
    if p.len() > 0 && p.last() == SLASH {
        trim_slashes(p.drop_last())
    } else {
        p
    }
}

pub open spec fn after_last_slash(p: Seq<u8>) -> Seq<u8>
    decreases p.len(),
{
    if p.len() == 0 {
        p
    } else if p.last() == SLASH {
        Seq::<u8>::empty()
    } else {
        after_last_slash(p.drop_last()).push(p.last())
    }
}

/// The last component of a path: trailing separators are ignored, and a path
/// made only of separators (or nothing) is its own name.
pub open spec fn basename(p: Seq<u8>) -> Seq<u8> {
    let t = trim_slashes(p);
    if t.len() == 0 {
        p
    } else {
        after_last_slash(t)
    }
}

pub open spec fn anc_in(nodes: Seq<NodeView>, a: int, j: int) -> bool
    decreases j,
{
    if j == a {
        true
    } else if 0 < j < nodes.len() && nodes[j].parent < j {
        anc_in(nodes, a, nodes[j].parent as int)
    } else {
        false
    }
}

pub open spec fn path_in(nodes: Seq<NodeView>, root: Seq<u8>, j: int) -> Seq<u8>
    decreases j,
{
    if 0 < j < nodes.len() && nodes[j].parent < j {
        join(path_in(nodes, root, nodes[j].parent as int), nodes[j].name)
    } else {
        root
    }
}

pub open spec fn counted_file(nodes: Seq<NodeView>, a: int, j: int) -> bool {
    anc_in(nodes, a, j) && 0 <= j < nodes.len() && !nodes[j].removed && !nodes[j].is_dir
}

pub open spec fn bytes_in(nodes: Seq<NodeView>, a: int, k: int) -> int
    decreases k,
{
    if k <= 0 {
        0
    } else {
        bytes_in(nodes, a, k - 1) + if counted_file(nodes, a, k - 1) {
            nodes[k - 1].size as int
        } else {
            0
        }
    }
}

pub open spec fn files_in(nodes: Seq<NodeView>, a: int, k: int) -> int
    decreases k,
{
    if k <= 0 {
        0
    } else {
        files_in(nodes, a, k - 1) + if counted_file(nodes, a, k - 1) {
            1int
        } else {
            0
        }
    }
}

pub open spec fn dirs_in(nodes: Seq<NodeView>, a: int, k: int) -> int
    decreases k,
{
    if k <= 0 {
        0
    } else {
        dirs_in(nodes, a, k - 1) + if k - 1 != a && anc_in(nodes, a, k - 1) && 0 <= k - 1
            < nodes.len() && !nodes[k - 1].removed && nodes[k - 1].is_dir {
            1int
        } else {
            0
        }
    }
}

impl ArenaView {
    #[verifier::inline]
    pub open spec fn len(self) -> int {
        self.nodes.len() as int
    }

    #[verifier::inline]
    pub open spec fn parent(self, j: int) -> int {
        self.nodes[j].parent as int
    }

    /// A node that exists and has not been removed.
    #[verifier::inline]
    pub open spec fn live(self, j: int) -> bool {
        0 <= j < self.len() && !self.nodes[j].removed
    }

    /// `a` is `j` or one of its ancestors.
    #[verifier::inline]
    pub open spec fn is_anc(self, a: int, j: int) -> bool {
        anc_in(self.nodes, a, j)
    }

    /// The absolute path of node `j`, rebuilt from the root path and names.
    #[verifier::inline]
    pub open spec fn path(self, j: int) -> Seq<u8> {
        path_in(self.nodes, self.root_path, j)
    }

    /// Bytes of the live files among the first `k` nodes that lie under `a`.
    #[verifier::inline]
    pub open spec fn bytes_under(self, a: int, k: int) -> int {
        bytes_in(self.nodes, a, k)
    }

    /// Live files among the first `k` nodes that lie under `a`.
    #[verifier::inline]
    pub open spec fn files_under(self, a: int, k: int) -> int {
        files_in(self.nodes, a, k)
    }

    /// Live directories among the first `k` nodes that lie strictly under `a`.
    #[verifier::inline]
    pub open spec fn dirs_under(self, a: int, k: int) -> int {
        dirs_in(self.nodes, a, k)
    }

    /// The shape every arena has: a root directory at id 0, parents before
    /// children and always directories, ids that fit beside the `NONE`
    /// sentinel, counts bounded by the nodes after them, and an index whose
    /// every key is the rebuilt path of the directory it names.
    pub open spec fn shaped(self) -> bool {
        &&& 1 <= self.len() <= NONE
        &&& self.nodes[0].parent == NONE
        &&& self.nodes[0].is_dir
        &&& !self.nodes[0].removed
        &&& self.ordered()
        &&& forall|j: int| 0 < j < self.len() ==> #[trigger] self.nodes[self.parent(j)].is_dir
        &&& forall|j: int|
            0 <= j < self.len() ==> if #[trigger] self.nodes[j].is_dir {
                self.nodes[j].files + self.nodes[j].dirs + j < self.len()
            } else {
                self.nodes[j].files == 1 && self.nodes[j].dirs == 0
            }
        &&& forall|k: Seq<u8>| #[trigger]
            self.index.contains_key(k) ==> self.index[k] < self.len() && self.nodes[self.index[k] as int].is_dir
                && self.path(self.index[k] as int) == k
    }

    /// Every live directory's stored totals are those of its live subtree.
    pub open spec fn tallied(self) -> bool {
        forall|i: int|
            #![trigger self.nodes[i]]
            self.live(i) && self.nodes[i].is_dir ==> {
                &&& self.nodes[i].size == self.bytes_under(i, self.len())
                &&& self.nodes[i].files == self.files_under(i, self.len())
                &&& self.nodes[i].dirs == self.dirs_under(i, self.len())
            }
    }

    /// Removal reaches whole subtrees: the children of a removed node are
    /// removed too.
    pub open spec fn closed_under_removal(self) -> bool {
        forall|j: int|
            0 < j < self.len() && #[trigger] self.nodes[self.parent(j)].removed
                ==> self.nodes[j].removed
    }

    pub open spec fn consistent(self) -> bool {
        self.tallied() && self.closed_under_removal()
    }
}


pub open spec fn entry_is_dir(e: Entry) -> bool {
    e.kind == EntryKind::Dir
}

/// The node a directory frame's entry becomes.
pub open spec fn entry_node(dir: int, e: Entry) -> NodeView {
    let d = entry_is_dir(e);
    NodeView {
        name: e.name@,
        parent: dir as u32,
        is_dir: d,
        size: if d {
            0
        } else {
            e.size
        },
        files: if d {
            0
        } else {
            1
        },
        dirs: 0,
        listed: false,
        removed: false,
    }
}

/// Bytes of the files a frame lists.
pub open spec fn frame_bytes(es: Seq<Entry>) -> int
    decreases es.len(),
{
    if es.len() == 0 {
        0
    } else {
        frame_bytes(es.drop_last()) + if entry_is_dir(es.last()) {
            0
        } else {
            es.last().size as int
        }
    }
}

/// Files a frame lists.
pub open spec fn frame_files(es: Seq<Entry>) -> int
    decreases es.len(),
{
    if es.len() == 0 {
        0
    } else {
        frame_files(es.drop_last()) + if entry_is_dir(es.last()) {
            0int
        } else {
            1
        }
    }
}

/// Directories a frame lists.
pub open spec fn frame_dirs(es: Seq<Entry>) -> int
    decreases es.len(),
{
    if es.len() == 0 {
        0
    } else {
        frame_dirs(es.drop_last()) + if entry_is_dir(es.last()) {
            1int
        } else {
            0
        }
    }
}

/// The index after the directories of a frame listed at `path` are recorded,
/// the entry at position `m` becoming node `base + m`; a later entry with the
/// same path replaces an earlier one.
pub open spec fn index_after(idx: Map<Seq<u8>, u32>, path: Seq<u8>, es: Seq<Entry>, base: int) -> Map<
    Seq<u8>,
    u32,
>
    decreases es.len(),
{
    if es.len() == 0 {
        idx
    } else {
        let m = index_after(idx, path, es.drop_last(), base);
        if entry_is_dir(es.last()) {
            m.insert(join(path, es.last().name@), (base + es.len() - 1) as u32)
        } else {
            m
        }
    }
}

impl ArenaView {
    /// The directory a frame path names.
    pub open spec fn dir_at(self, path: Seq<u8>) -> int {
        self.index[path] as int
    }

    /// A frame for `path` would be folded in: the path is indexed and its
    /// directory not yet listed.
    pub open spec fn fresh(self, path: Seq<u8>) -> bool {
        self.index.contains_key(path) && !self.nodes[self.dir_at(path)].listed
    }

    /// The nodes after a frame for directory `d` is folded in: one new node
    /// per entry, `d` marked listed, and the frame's totals added to `d` and
    /// every ancestor.
    pub open spec fn grown(self, d: int, es: Seq<Entry>) -> Seq<NodeView> {
        Seq::new(
            (self.len() + es.len()) as nat,
            |i: int|
                if i < self.len() {
                    let n = self.nodes[i];
                    if self.is_anc(i, d) {
                        NodeView {
                            size: (n.size + frame_bytes(es)) as u64,
                            files: (n.files + frame_files(es)) as u32,
                            dirs: (n.dirs + frame_dirs(es)) as u32,
                            listed: n.listed || i == d,
                            ..n
                        }
                    } else {
                        n
                    }
                } else {
                    entry_node(d, es[i - self.len()])
                },
        )
    }

    /// The arena after a fresh frame for `path` listing `es` is folded in.
    pub open spec fn ingested(self, path: Seq<u8>, es: Seq<Entry>) -> ArenaView {
        ArenaView {
            nodes: self.grown(self.dir_at(path), es),
            index: index_after(self.index, path, es, self.len()),
            root_path: self.root_path,
            finished: self.finished,
        }
    }

    /// Folding in a fresh frame keeps every id clear of `NONE` and every
    /// running total along the directory's ancestry within `u64`.
    pub open spec fn can_ingest(self, path: Seq<u8>, es: Seq<Entry>) -> bool {
        self.fresh(path) ==> {
            &&& self.len() + es.len() <= NONE
            &&& forall|a: int|
                0 <= a < self.len() && #[trigger] self.is_anc(a, self.dir_at(path))
                    ==> self.nodes[a].size + frame_bytes(es) <= u64::MAX
        }
    }

    /// A fresh, non-empty frame for a directory that was removed before it was
    /// listed: the one case in which ingest leaves live nodes under a removed
    /// one.
    pub open spec fn ingest_into_removed(self, path: Seq<u8>, es: Seq<Entry>) -> bool {
        self.fresh(path) && self.nodes[self.dir_at(path)].removed && es.len() > 0
    }
}


/// `j` is reached from `id` by a chain of parents none of which, `j` and `id`
/// included, is removed.
pub open spec fn sweep_in(nodes: Seq<NodeView>, id: int, j: int) -> bool
    decreases j,
{
    0 <= j < nodes.len() && !nodes[j].removed && (j == id || (0 < j && nodes[j].parent < j
        && sweep_in(nodes, id, nodes[j].parent as int)))
}

pub open spec fn sat_sub(a: int, b: int) -> int {
    if a >= b {
        a - b
    } else {
        0
    }
}

impl ArenaView {
    /// The nodes a removal of `id` marks: `id` and whatever hangs under it
    /// through nodes that were still live.
    #[verifier::inline]
    pub open spec fn swept(self, id: int, j: int) -> bool {
        sweep_in(self.nodes, id, j)
    }

    /// The arena after the live, non-root node `id` is removed: its subtree is
    /// marked removed, and its stored totals (with itself counted as a
    /// directory where it is one) are taken off every proper ancestor, never
    /// going below zero.
    pub open spec fn pruned(self, id: int) -> ArenaView {
        let gone = self.nodes[id];
        let gone_dirs = gone.dirs + if gone.is_dir {
            1int
        } else {
            0
        };
        ArenaView {
            nodes: Seq::new(
                self.nodes.len(),
                |i: int|
                    {
                        let n = self.nodes[i];
                        let m = if self.is_anc(i, self.parent(id)) {
                            NodeView {
                                size: sat_sub(n.size as int, gone.size as int) as u64,
                                files: sat_sub(n.files as int, gone.files as int) as u32,
                                dirs: sat_sub(n.dirs as int, gone_dirs) as u32,
                                ..n
                            }
                        } else {
                            n
                        };
                        if self.swept(id, i) {
                            NodeView { removed: true, ..m }
                        } else {
                            m
                        }
                    },
            ),
            ..self
        }
    }
}

/// What the arena refuses.
#[derive(Debug, PartialEq, Eq)]
pub enum ArenaError {
    UnknownNode(NodeId),
    /// A directory frame arrived for a path no parent had announced.
    OrphanFrame(String),
}

pub struct Node {
    pub(crate) name: Vec<u8>,
    pub(crate) parent: NodeId,
    pub(crate) first_child: NodeId,
    pub(crate) next_sibling: NodeId,
    pub(crate) last_child: NodeId,
    pub(crate) size: u64,
    pub(crate) files: u32,
    pub(crate) dirs: u32,
    pub(crate) is_dir: bool,
    pub(crate) listed: bool,
    pub(crate) removed: bool,
}

impl Node {
    pub closed spec fn view(&self) -> NodeView {
        NodeView {
            name: self.name@,
            parent: self.parent,
            is_dir: self.is_dir,
            size: self.size,
            files: self.files,
            dirs: self.dirs,
            listed: self.listed,
            removed: self.removed,
        }
    }
}

pub(crate) struct DirKey {
    pub(crate) path: Vec<u8>,
    pub(crate) id: NodeId,
}

pub struct Arena {
    pub(crate) nodes: Vec<Node>,
    /// Directory path to id, one entry per distinct path.
    pub(crate) dir_index: Vec<DirKey>,
    pub(crate) root_path: Vec<u8>,
    pub(crate) finished: bool,
    /// Each node's children in list order.
    pub(crate) kids: Ghost<Seq<Seq<NodeId>>>,
}

pub(crate) open spec fn key_map(keys: Seq<DirKey>) -> Map<Seq<u8>, u32> {
    Map::new(
        |k: Seq<u8>| exists|i: int| 0 <= i < keys.len() && #[trigger] keys[i].path@ == k,
        |k: Seq<u8>| keys[choose|i: int| 0 <= i < keys.len() && #[trigger] keys[i].path@ == k].id,
    )
}

pub(crate) open spec fn keys_distinct(keys: Seq<DirKey>) -> bool {
    forall|i: int, j: int|
        0 <= i < keys.len() && 0 <= j < keys.len() && i != j ==> #[trigger] keys[i].path@
            != #[trigger] keys[j].path@
}

impl Arena {
    /// The arena as a caller reasons about it.
    pub closed spec fn model(&self) -> ArenaView {
        ArenaView {
            nodes: self.nodes@.map_values(|n: Node| n.view()),
            index: key_map(self.dir_index@),
            root_path: self.root_path@,
            finished: self.finished,
        }
    }
}

impl Arena {
    /// The linked child lists agree with `kids`.
    pub(crate) open spec fn links_ok(&self) -> bool {
        let n = self.nodes@.len();
        &&& self.kids@.len() == n
        &&& forall|p: int|
            #![trigger self.kids@[p]]
            0 <= p < n ==> {
                let ks = self.kids@[p];
                &&& self.nodes@[p].first_child == if ks.len() > 0 {
                    ks[0]
                } else {
                    NONE
                }
                &&& self.nodes@[p].last_child == if ks.len() > 0 {
                    ks.last()
                } else {
                    NONE
                }
                &&& forall|m: int|
                    #![trigger ks[m]]
                    0 <= m < ks.len() ==> {
                        &&& 0 < ks[m] < n
                        &&& self.nodes@[ks[m] as int].parent == p
                        &&& self.nodes@[ks[m] as int].next_sibling == if m + 1 < ks.len() {
                            ks[m + 1]
                        } else {
                            NONE
                        }
                    }
                &&& ks.no_duplicates()
            }
    }

    /// Every live node other than `except` hangs in its parent's list.
    pub(crate) open spec fn attached_except(&self, except: int) -> bool {
        forall|j: int|
            0 < j < self.nodes@.len() && j != except && !self.nodes@[j].removed ==> #[trigger] self.kids@[self.nodes@[j].parent as int].contains(
                j as u32,
            )
    }

    /// The arena's internal invariant.
    pub closed spec fn wf(&self) -> bool {
        &&& self.model().shaped()
        &&& self.links_ok()
        &&& self.attached_except(-1)
        &&& keys_distinct(self.dir_index@)
        &&& self.model().nodes[0].name == basename(self.model().root_path)
    }

    pub proof fn lemma_wf_shaped(&self)
        requires
            self.wf(),
        ensures
            self.model().shaped(),
    {
    }

    /// Every arena that `new`, `apply_dir`, `remove` and `finish` reach keeps
    /// the root named by the last component of the root path.
    pub proof fn law_root_keeps_its_name(&self)
        requires
            self.wf(),
        ensures
            self.model().nodes[0].name == basename(self.model().root_path),
    {
    }

    /// Every directory the index names has, as its rebuilt path, exactly the
    /// key it is indexed under, so `apply_dir(&path_of(d), ..)` addresses `d`.
    pub proof fn law_indexed_paths_are_keys(&self)
        requires
            self.wf(),
        ensures
            forall|k: Seq<u8>| #[trigger]
                self.model().index.contains_key(k) ==> self.model().path(self.model().index[k] as int) == k,
    {
    }
}

} // verus!

mod lemmas;
mod ingest;
mod removal;
mod order;
mod queries;
mod treemap;
mod category;
mod laws;
mod promises;
pub use ingest::started;
pub use promises::{
    law_completeness, law_each_drawn_level_shows_its_largest_child, law_largest_files_are_the_live_files,
    law_search_matches_every_live_node_by_name, law_treemap_caps, law_listings_run_largest_first, law_a_listing_draws_on_every_live_child,
    law_a_listing_stops_only_at_its_limit,
};
pub use laws::{
    law_a_frame_adds_its_totals, law_a_frame_is_folded_in_once, law_new_nodes_take_their_frame_path,
    law_removal_discounts_its_subtree, law_removing_twice_changes_nothing, law_listed_directories_are_announced,
    law_breadcrumbs_run_root_first,
};
pub use queries::{opt_text, Crumb, Row, Stats, View};
pub use category::{
    cat_bytes, cat_files, category, category_label, category_of, ext_table, extension, file_bytes, group_before,
    kind_from, label_of, label_rank, last_dot, law_breakdown_covers_every_file, law_breakdown_matches_scan_total,
    law_breakdown_counts_every_file, sum_files, file_count,
    law_scan_total_is_every_live_file, law_extensions_decide_the_category, folded_extension, law_breakdown_runs_largest_first, lemma_cat_bounds, lemma_category_range, lemma_file_bytes_mono,
    lemma_label_order, lemma_text_before_irreflexive, listed_before, live_file, sum_sizes, text_before, TypeGroup,
    APPS, ARCHIVES, AUDIO, CATEGORY_COUNT, DOCUMENTS, OTHER, PHOTOS, VIDEO,
};
pub use treemap::{cap_at, law_treemap_depth_is_capped, levels_for, TreemapNode, TREEMAP_LEVELS};
pub use order::{lex_le, ranks_before, sorted_by_rank, top_of};
pub use lemmas::{
    agree_upto, lemma_anc_parents, lemma_live_count_mark, lemma_live_count_nonneg, lemma_sweep_ge, lemma_sweep_mark_far, lemma_sweep_mark_off,
    lemma_toward, live_count, marked, toward, lemma_anc_agree, lemma_frame_bounds, lemma_frame_step, lemma_path_agree,
    lemma_sums_agree,
};
