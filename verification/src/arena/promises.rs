//! What the queries are for, stated over the nodes themselves rather than
//! over the sets and predicates the queries are specified by.

use vstd::prelude::*;
use vstd::set_lib::{lemma_int_range, lemma_len_subset, lemma_subset_equality, set_int_range};
use crate::text::{has_infix, lowercased, utf8_lossy};
use super::{cap_at, lex_le, top_of, ArenaView, NodeId, TreemapNode, TREEMAP_LEVELS};

verus! {

/// Search finds nodes by name, files and directories alike: a node is a
/// hit exactly when it is live and its display name, lowercased, contains
/// the lowercased needle.
pub proof fn law_search_matches_every_live_node_by_name(v: ArenaView, needle: Seq<char>)
    ensures
        forall|j: NodeId|
            #[trigger] v.hits(needle).contains(j) <==> (j < v.len() && !v.nodes[j as int].removed && has_infix(
                lowercased(utf8_lossy(v.nodes[j as int].name)),
                lowercased(needle),
            )),
{
}

/// Largest files lists every live file and nothing else.
pub proof fn law_largest_files_are_the_live_files(v: ArenaView)
    ensures
        forall|j: NodeId|
            #[trigger] v.live_files().contains(j) <==> (j < v.len() && !v.nodes[j as int].removed
                && !v.nodes[j as int].is_dir),
{
}

/// Once the scan is reported finished every node is complete; before that,
/// a file always is, and so is a listed directory with no directory below
/// it. An unlisted directory of an unfinished scan is still settling.
pub proof fn law_completeness(v: ArenaView, i: int)
    ensures
        v.finished ==> v.complete(i),
        !v.nodes[i].is_dir ==> v.complete(i),
        v.nodes[i].listed && v.nodes[i].dirs == 0 ==> v.complete(i),
        v.nodes[i].is_dir && !v.finished && !v.nodes[i].listed ==> !v.complete(i),
{
}

/// The treemap keeps up to 48 children at the top level, 12 at the next and
/// 6 at the third, and none below.
pub proof fn law_treemap_caps()
    ensures
        cap_at(0) == 48,
        cap_at(1) == 12,
        cap_at(2) == 6,
        forall|l: int| l >= TREEMAP_LEVELS ==> cap_at(l) == 0,
{
}

proof fn lemma_children_finite(v: ArenaView, id: int)
    ensures
        v.children(id).finite(),
{
    let n = if v.len() > 0 { v.len() } else { 0 };
    lemma_int_range(0, n);
    let ids = set_int_range(0, n).map(|i: int| i as NodeId);
    set_int_range(0, n).lemma_map_finite(|i: int| i as NodeId);
    assert forall|j: NodeId| v.children(id).contains(j) implies ids.contains(j) by {
        assert(set_int_range(0, n).contains(j as int));
        assert(((j as int) as NodeId) == j);
    }
    lemma_len_subset(v.children(id), ids);
}

/// Every level the treemap draws shows something whenever there is
/// something to show: a directory drawn with levels left below it, at one of
/// the levels the treemap draws, has at least one tile as soon as one of its
/// live children has bytes.
pub proof fn law_each_drawn_level_shows_its_largest_child(
    v: ArenaView,
    t: TreemapNode,
    id: int,
    remaining: nat,
    level: int,
    c: NodeId,
)
    requires
        0 <= level < TREEMAP_LEVELS,
        remaining > 0,
        0 <= id < v.len(),
        v.nodes[id].is_dir,
        v.treemap_is(t, id, remaining, level),
        v.children(id).contains(c),
        v.nodes[c as int].size > 0,
    ensures
        t.children@.len() > 0,
{
    let s = v.children(id);
    let kept = choose|kept: Seq<NodeId>|
        top_of(v, s, cap_at(level), kept) && #[trigger] kept.filter(v.sized()) == t.children@.map_values(
            |x: TreemapNode| x.id,
        );
    lemma_children_finite(v, id);
    assert(s.len() >= 1) by {
        if s.len() == 0 {
            assert(s =~= Set::<NodeId>::empty());
        }
    }
    assert(kept.len() >= 1);
    let sized = v.sized();
    let q: int = if kept.contains(c) {
        choose|q: int| 0 <= q < kept.len() && kept[q] == c
    } else {
        assert(super::ranks_before(v, kept[0] as int, c as int));
        0
    };
    assert(sized(kept[q]));
    kept.lemma_filter_contains(sized, q);
    assert(kept.filter(sized).len() > 0);
    assert(t.children@.map_values(|x: TreemapNode| x.id).len() == t.children@.len());
}

/// Listings run largest first: of the rows a listing keeps, an earlier one is
/// never smaller than a later one, rows of equal size run in byte order of
/// their names, and nothing left out is larger than anything kept.
pub proof fn law_listings_run_largest_first(v: ArenaView, s: Set<NodeId>, limit: int, ids: Seq<NodeId>)
    requires
        top_of(v, s, limit, ids),
    ensures
        forall|a: int, b: int|
            0 <= a < b < ids.len() ==> v.nodes[#[trigger] ids[a] as int].size >= v.nodes[#[trigger] ids[b] as int].size,
        forall|a: int, b: int|
            0 <= a < b < ids.len() && v.nodes[#[trigger] ids[a] as int].size == v.nodes[#[trigger] ids[b] as int].size
                ==> lex_le(v.nodes[ids[a] as int].name, v.nodes[ids[b] as int].name),
        forall|k: int, c: NodeId|
            0 <= k < ids.len() && #[trigger] s.contains(c) && !ids.contains(c) ==> v.nodes[c as int].size
                <= v.nodes[#[trigger] ids[k] as int].size,
{
}

/// A directory's listing draws on every live node whose parent it is, files
/// and directories alike, and on nothing else.
pub proof fn law_a_listing_draws_on_every_live_child(v: ArenaView, id: int)
    ensures
        forall|j: NodeId|
            #[trigger] v.children(id).contains(j) <==> (0 < j < v.len() && v.nodes[j as int].parent == id
                && !v.nodes[j as int].removed),
{
}

/// A listing stops only at its limit: it never holds more rows than the
/// limit, and one that holds fewer leaves nothing out.
pub proof fn law_a_listing_stops_only_at_its_limit(v: ArenaView, s: Set<NodeId>, limit: int, ids: Seq<NodeId>)
    requires
        top_of(v, s, limit, ids),
        s.finite(),
        0 <= limit,
    ensures
        ids.len() <= limit,
        ids.len() < limit ==> forall|c: NodeId| #[trigger] s.contains(c) ==> ids.contains(c),
{
    if ids.len() < limit {
        ids.unique_seq_to_set();
        assert(ids.to_set().subset_of(s)) by {
            assert forall|c: NodeId| ids.to_set().contains(c) implies s.contains(c) by {
                let k = choose|k: int| 0 <= k < ids.len() && ids[k] == c;
                assert(s.contains(ids[k]));
            }
        }
        lemma_len_subset(ids.to_set(), s);
        lemma_subset_equality(ids.to_set(), s);
        assert forall|c: NodeId| #[trigger] s.contains(c) implies ids.contains(c) by {
            assert(ids.to_set().contains(c));
        }
    }
}

} // verus!
