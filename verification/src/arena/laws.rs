//! What holds of the tree across operations: the promises the streaming
//! ingest and the deletes are built on, stated over the model that
//! `apply_dir`, `remove`, `path_of` and `stats` are specified by.

use vstd::prelude::*;
use crate::protocol::Entry;
use super::{
    entry_is_dir, frame_bytes, frame_dirs, frame_files, index_after, join, lemma_frame_bounds, lemma_path_agree,
    ArenaView,
};

verus! {

/// Paths rebuild exactly: every node a fresh frame adds has, as its path,
/// the frame's path joined with the node's own name. This is what makes an
/// id a safe delete target for a name that is not valid UTF-8.
pub proof fn law_new_nodes_take_their_frame_path(v: ArenaView, path: Seq<u8>, es: Seq<Entry>)
    requires
        v.shaped(),
        v.fresh(path),
        v.can_ingest(path, es),
    ensures
        forall|k: int|
            0 <= k < es.len() ==> #[trigger] v.ingested(path, es).path(v.len() + k) == join(path, es[k].name@),
{
    let w = v.ingested(path, es);
    let d = v.dir_at(path);
    v.lemma_ingest_agrees(path, es);
    assert(v.path(d) == path);
    assert forall|i: int| #![trigger w.nodes[i]] 0 <= i < v.len() implies w.nodes[i].parent == v.nodes[i].parent
        && w.nodes[i].name == v.nodes[i].name by {}
    lemma_path_agree(v.nodes, w.nodes, v.root_path, v.len(), d);
    assert forall|k: int| 0 <= k < es.len() implies #[trigger] w.path(v.len() + k) == join(path, es[k].name@) by {
        let j = v.len() + k;
        assert(w.nodes[j].parent == d as u32);
        assert(w.nodes[j].name == es[k].name@);
    }
}

proof fn lemma_index_keeps(idx: Map<Seq<u8>, u32>, path: Seq<u8>, es: Seq<Entry>, base: int, q: Seq<u8>)
    requires
        forall|k: int| 0 <= k < es.len() && entry_is_dir(#[trigger] es[k]) ==> join(path, es[k].name@) != q,
    ensures
        index_after(idx, path, es, base).contains_key(q) == idx.contains_key(q),
        idx.contains_key(q) ==> index_after(idx, path, es, base)[q] == idx[q],
    decreases es.len(),
{
    if es.len() > 0 {
        let rest = es.drop_last();
        assert forall|k: int| 0 <= k < rest.len() && entry_is_dir(#[trigger] rest[k]) implies join(
            path,
            rest[k].name@,
        ) != q by {
            assert(rest[k] == es[k]);
        }
        lemma_index_keeps(idx, path, rest, base, q);
        assert(es.last() == es[es.len() - 1]);
    }
}

/// A directory's frame is folded in once: after it the directory is listed,
/// so a repeated frame for the same path changes nothing and no byte is
/// counted twice. (A directory entry whose joined path is the frame's own
/// path, possible only for an empty name under a path ending in a slash,
/// would take the path over, and is left out.)
pub proof fn law_a_frame_is_folded_in_once(v: ArenaView, path: Seq<u8>, es: Seq<Entry>)
    requires
        v.shaped(),
        v.fresh(path),
        v.can_ingest(path, es),
        forall|k: int| 0 <= k < es.len() && entry_is_dir(#[trigger] es[k]) ==> join(path, es[k].name@) != path,
    ensures
        v.ingested(path, es).index.contains_key(path),
        !v.ingested(path, es).fresh(path),
{
    let w = v.ingested(path, es);
    let d = v.dir_at(path);
    lemma_index_keeps(v.index, path, es, v.len(), path);
    assert(w.dir_at(path) == d);
    assert(v.is_anc(d, d));
    assert(w.nodes[d].listed);
}

/// Totals climb as frames arrive: folding in a fresh frame adds exactly its
/// file bytes, its files and its directories to the scan's totals.
pub proof fn law_a_frame_adds_its_totals(v: ArenaView, path: Seq<u8>, es: Seq<Entry>)
    requires
        v.shaped(),
        v.fresh(path),
        v.can_ingest(path, es),
    ensures
        v.ingested(path, es).nodes[0].size == v.nodes[0].size + frame_bytes(es),
        v.ingested(path, es).nodes[0].files == v.nodes[0].files + frame_files(es),
        v.ingested(path, es).nodes[0].dirs == v.nodes[0].dirs + frame_dirs(es),
{
    let d = v.dir_at(path);
    v.lemma_anc_root(d);
    lemma_frame_bounds(es, 0);
    assert(v.nodes[0].files + v.nodes[0].dirs + 0 < v.len());
}

/// Removing is idempotent: the node removed is marked, so removing it again
/// changes nothing.
pub proof fn law_removing_twice_changes_nothing(v: ArenaView, id: int)
    requires
        v.shaped(),
        v.live(id),
        0 < id,
    ensures
        v.pruned(id).len() == v.len(),
        v.pruned(id).nodes[id].removed,
{
}

/// Removing a node takes exactly its subtree's bytes, files and
/// directories (itself included) off the scan's totals, in a tree whose
/// totals are consistent.
pub proof fn law_removal_discounts_its_subtree(v: ArenaView, id: int)
    requires
        v.shaped(),
        v.consistent(),
        v.live(id),
        0 < id,
    ensures
        v.pruned(id).nodes[0].size == v.nodes[0].size - v.bytes_under(id, v.len()),
        v.pruned(id).nodes[0].files == v.nodes[0].files - v.files_under(id, v.len()),
        v.pruned(id).nodes[0].dirs == v.nodes[0].dirs - v.dirs_under(id, v.len()) - if v.nodes[id].is_dir {
            1int
        } else {
            0
        },
{
    let w = v.pruned(id);
    v.lemma_prune_consistent(id);
    assert(v.parent(id) < id);
    v.lemma_anc_root(v.parent(id));
    v.lemma_prune_sums(id, 0, v.len());
    assert(!v.swept(id, 0));
    assert(w.live(0) && w.nodes[0].is_dir);
    assert(v.live(0) && v.nodes[0].is_dir);
}


proof fn lemma_index_takes_entries(idx: Map<Seq<u8>, u32>, path: Seq<u8>, es: Seq<Entry>, base: int, k: int)
    requires
        0 <= k < es.len(),
        entry_is_dir(es[k]),
        0 <= base,
        base + es.len() <= u32::MAX,
    ensures
        index_after(idx, path, es, base).contains_key(join(path, es[k].name@)),
        base <= index_after(idx, path, es, base)[join(path, es[k].name@)] < base + es.len(),
    decreases es.len(),
{
    let rest = es.drop_last();
    let key = join(path, es[k].name@);
    if k < es.len() - 1 {
        assert(rest[k] == es[k]);
        lemma_index_takes_entries(idx, path, rest, base, k);
    }
}

/// A directory a frame lists is indexed under the frame's path joined with
/// its name, and indexed as a directory whose own frame has not arrived: so
/// that frame, which arrives keyed by that path, is folded in rather than
/// refused as one that no parent announced.
pub proof fn law_listed_directories_are_announced(v: ArenaView, path: Seq<u8>, es: Seq<Entry>)
    requires
        v.shaped(),
        v.fresh(path),
        v.can_ingest(path, es),
    ensures
        forall|k: int|
            0 <= k < es.len() && entry_is_dir(es[k]) ==> #[trigger] v.ingested(path, es).fresh(
                join(path, es[k].name@),
            ),
{
    assert forall|k: int| 0 <= k < es.len() && entry_is_dir(es[k]) implies #[trigger] v.ingested(
        path,
        es,
    ).fresh(join(path, es[k].name@)) by {
        lemma_index_takes_entries(v.index, path, es, v.len(), k);
        let w = v.ingested(path, es);
        let x = w.dir_at(join(path, es[k].name@));
        assert(v.len() <= x < v.len() + es.len());
        assert(w.nodes[x] == super::entry_node(v.dir_at(path), es[x - v.len()]));
    }
}

/// Breadcrumbs run root first: the ids from the root down to a node start at
/// the root, end at the node, and each is the parent of the next.
pub proof fn law_breadcrumbs_run_root_first(v: ArenaView, j: int)
    requires
        v.shaped(),
        0 <= j < v.len(),
    ensures
        v.lineage(j).len() >= 1,
        v.lineage(j)[0] == 0,
        v.lineage(j).last() == j,
        forall|i: int| 0 <= i < v.lineage(j).len() - 1 ==> v.parent(#[trigger] v.lineage(j)[i + 1]) == v.lineage(j)[i],
    decreases j,
{
    if j > 0 {
        let p = v.parent(j);
        assert(p < j);
        law_breadcrumbs_run_root_first(v, p);
        let l = v.lineage(p);
        assert(v.lineage(j) == l.push(j));
        assert forall|i: int| 0 <= i < v.lineage(j).len() - 1 implies v.parent(#[trigger] v.lineage(j)[i + 1])
            == v.lineage(j)[i] by {
            if i + 1 < l.len() {
                assert(v.lineage(j)[i + 1] == l[i + 1]);
                assert(v.parent(l[i + 1]) == l[i]);
            } else {
                assert(l.last() == p);
            }
        }
    }
}

} // verus!
