//! The nested slice of the tree that the treemap draws: more than one level,
//! but never the whole tree. Each level keeps only its largest children, and
//! tiles of zero bytes are dropped since nothing could be drawn for them.

use vstd::prelude::*;
use vstd::view::View as _;
use crate::text::{lossy, utf8_lossy};
use super::{top_of, Arena, ArenaError, ArenaView, NodeId};

verus! {

broadcast use vstd::seq_lib::group_seq_properties;

/// A node plus a bounded slice of its descendants.
#[derive(Debug)]
pub struct TreemapNode {
    pub id: NodeId,
    pub name: String,
    pub size: u64,
    pub is_dir: bool,
    pub children: Vec<TreemapNode>,
}

/// How many levels below the requested node the treemap descends at most.
pub const TREEMAP_LEVELS: usize = 3;

/// Children kept at each level. Deeper tiles are smaller, so fewer of them
/// are readable; past the last level nothing is kept.
pub open spec fn cap_at(level: int) -> int {
    if level == 0 {
        48
    } else if level == 1 {
        12
    } else if level == 2 {
        6
    } else {
        0
    }
}

fn cap_of(level: usize) -> (c: usize)
    ensures
        c == cap_at(level as int),
{
    if level == 0 {
        48
    } else if level == 1 {
        12
    } else if level == 2 {
        6
    } else {
        0
    }
}

/// The levels a request for `depth` levels gets.
pub open spec fn levels_for(depth: int) -> int {
    if depth < TREEMAP_LEVELS {
        depth
    } else {
        TREEMAP_LEVELS as int
    }
}

impl ArenaView {
    /// Nodes that would make a tile of some area.
    pub open spec fn sized(self) -> spec_fn(NodeId) -> bool {
        |k: NodeId| self.nodes[k as int].size > 0
    }

    /// `t` is node `id` with `remaining` levels below it, drawn at `level`:
    /// a file, or a node with no levels left, has no children; otherwise the
    /// children are the largest `cap_at(level)` live children in rank order,
    /// less those of zero bytes, each drawn one level deeper.
    pub open spec fn treemap_is(self, t: TreemapNode, id: int, remaining: nat, level: int) -> bool
        decreases remaining,
    {
        &&& t.id == id
        &&& t.name@ == utf8_lossy(self.nodes[id].name)
        &&& t.size == self.nodes[id].size
        &&& t.is_dir == self.nodes[id].is_dir
        &&& if remaining == 0 || !self.nodes[id].is_dir {
            t.children@.len() == 0
        } else {
            &&& exists|kept: Seq<NodeId>|
                top_of(self, self.children(id), cap_at(level), kept) && #[trigger] kept.filter(self.sized())
                    == t.children@.map_values(|c: TreemapNode| c.id)
            &&& forall|k: int|
                0 <= k < t.children@.len() ==> self.treemap_is(
                    #[trigger] t.children@[k],
                    t.children@[k].id as int,
                    (remaining - 1) as nat,
                    level + 1,
                )
        }
    }
}

impl Arena {
    /// A depth-limited slice of the tree below `id`, at most
    /// `TREEMAP_LEVELS` levels deep.
    pub fn treemap(&self, id: NodeId, depth: usize) -> (r: Result<TreemapNode, ArenaError>)
        requires
            self.wf(),
        ensures
            !self.model().live(id as int) ==> r == Err::<TreemapNode, ArenaError>(ArenaError::UnknownNode(id)),
            self.model().live(id as int) ==> r is Ok && self.model().treemap_is(
                r->Ok_0,
                id as int,
                levels_for(depth as int) as nat,
                0,
            ),
    {
        if !self.is_live(id) {
            return Err(ArenaError::UnknownNode(id));
        }
        let levels = if depth < TREEMAP_LEVELS {
            depth
        } else {
            TREEMAP_LEVELS
        };
        Ok(self.treemap_at(id, levels, 0))
    }

    fn treemap_at(&self, id: NodeId, remaining: usize, level: usize) -> (t: TreemapNode)
        requires
            self.wf(),
            (id as int) < self.model().len(),
            level + remaining <= TREEMAP_LEVELS,
        ensures
            self.model().treemap_is(t, id as int, remaining as nat, level as int),
        decreases remaining,
    {
        let ghost v = self.model();
        let n = &self.nodes[id as usize];
        proof {
            assert(v.nodes[id as int] == n.view());
        }
        let name = lossy(n.name.as_slice());
        if remaining == 0 || !n.is_dir {
            return TreemapNode { id, name, size: n.size, is_dir: n.is_dir, children: Vec::new() };
        }
        let kids = self.children_of(id);
        proof {
            kids@.unique_seq_to_set();
        }
        let kept = self.top_ranked(kids, cap_of(level));
        let mut children: Vec<TreemapNode> = Vec::new();
        let mut j: usize = 0;
        proof {
            assert(kept@.take(0).filter(v.sized()) =~= Seq::<NodeId>::empty()) by {
                reveal(Seq::filter);
            }
        }
        while j < kept.len()
            invariant
                v == self.model(),
                self.wf(),
                j <= kept@.len(),
                0 < remaining,
                level + remaining <= TREEMAP_LEVELS,
                forall|k: int| 0 <= k < kept@.len() ==> (#[trigger] kept@[k] as int) < v.len(),
                children@.map_values(|c: TreemapNode| c.id) == kept@.take(j as int).filter(v.sized()),
                forall|k: int|
                    0 <= k < children@.len() ==> v.treemap_is(
                        #[trigger] children@[k],
                        children@[k].id as int,
                        (remaining - 1) as nat,
                        level + 1,
                    ),
            decreases kept@.len() - j,
        {
            let k = kept[j];
            proof {
                assert(v.nodes[k as int] == self.nodes@[k as int].view());
                assert(kept@.take(j + 1) =~= kept@.take(j as int).push(k));
                kept@.take(j as int).lemma_filter_push(k, v.sized());
            }
            if self.nodes[k as usize].size > 0 {
                let c = self.treemap_at(k, remaining - 1, level + 1);
                let ghost prev = children@;
                children.push(c);
                proof {
                    assert(children@.map_values(|c: TreemapNode| c.id) =~= prev.map_values(
                        |c: TreemapNode| c.id,
                    ).push(k));
                }
            }
            j += 1;
        }
        proof {
            assert(kept@.take(kept@.len() as int) =~= kept@);
            assert(top_of(v, v.children(id as int), cap_at(level as int), kept@));
        }
        TreemapNode { id, name, size: n.size, is_dir: n.is_dir, children }
    }
}


/// Asking for more levels than the treemap draws is asking for as many as it
/// draws: `treemap(id, d)` is specified exactly as `treemap(id, e)` with `e`
/// the smaller of `d` and `TREEMAP_LEVELS`.
pub proof fn law_treemap_depth_is_capped(depth: int)
    requires
        depth >= 0,
    ensures
        levels_for(depth) <= TREEMAP_LEVELS,
        levels_for(levels_for(depth)) == levels_for(depth),
        depth >= TREEMAP_LEVELS ==> levels_for(depth) == TREEMAP_LEVELS,
{
}

} // verus!
