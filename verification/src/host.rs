//! The desktop host's decisions around the tree: folding a scan's frames in
//! as they stream, and deleting a node once the phone confirms it.
//!
//! The frontend never receives the tree. It asks for the rows it is about to
//! draw and refers to nodes by id; a byte-exact path is rebuilt here only
//! when one has to travel to the phone as a delete target.

use vstd::prelude::*;
use vstd::view::View as _;
use crate::arena::{opt_text, Arena, ArenaError, ArenaView, NodeId, Stats, View, ROOT};
use crate::protocol::Frame;
use crate::text::{decimal, decimal_text, utf8_lossy};

verus! {

/// Rows per view response. Enough to fill any screen; the frontend
/// virtualises and asks for more if it needs them.
pub const DEFAULT_VIEW_LIMIT: usize = 500;

impl ArenaError {
    /// The text shown to the user.
    pub fn message(&self) -> (m: String)
        ensures
            m@ == match self {
                ArenaError::UnknownNode(id) => "no node with id "@ + decimal_text(*id as nat),
                ArenaError::OrphanFrame(p) => "received a directory frame for "@ + p@
                    + ", which no parent announced"@,
            },
    {
        match self {
            ArenaError::UnknownNode(id) => String::from_str("no node with id ").concat(
                decimal(*id as u64).as_str(),
            ),
            ArenaError::OrphanFrame(p) => String::from_str("received a directory frame for ").concat(
                p.as_str(),
            ).concat(", which no parent announced"),
        }
    }
}

/// The tree after a directory frame: folded in if it is the first frame
/// for an announced directory, else unchanged.
pub open spec fn applied(v: ArenaView, path: Seq<u8>, es: Seq<crate::protocol::Entry>) -> ArenaView {
    if v.fresh(path) {
        v.ingested(path, es)
    } else {
        v
    }
}

/// The first problem of a scan is kept; later ones add nothing.
pub open spec fn first_problem(kept: Option<Seq<char>>, new: Option<Seq<char>>) -> Option<Seq<char>> {
    if kept is Some {
        kept
    } else {
        new
    }
}

/// The host's side of one scan: the tree its frames build, and the first
/// problem met on the way.
pub struct ScanFold {
    pub tree: Arena,
    pub error: Option<String>,
}

/// Connection details the frontend shows.
pub struct Connected {
    pub serial: String,
    pub model: String,
    pub root: String,
}

/// The answer to a delete: what went, and the tree as it now stands.
pub struct Deleted {
    pub items: u64,
    pub stats: Stats,
    pub view: Option<View>,
}

impl ScanFold {
    /// A scan of `root` about to start.
    pub fn new(root: &[u8]) -> (f: Self)
        ensures
            f.tree.wf(),
            f.tree.model() == crate::arena::started(root@),
            f.error is None,
    {
        ScanFold { tree: Arena::new(root), error: None }
    }

    /// Fold one frame of the stream in. A directory frame that no parent
    /// announced means the tree is already inconsistent, so it is kept as the
    /// scan's problem rather than drawn; so is an error the daemon reports.
    /// The opening frame roots the tree at the path the daemon resolved the
    /// request to, which directory frames are keyed on; the summary frame
    /// marks the scan finished.
    pub fn on_frame(&mut self, frame: Frame)
        requires
            old(self).tree.wf(),
            frame matches Frame::Dir { path, entries } ==> old(self).tree.model().can_ingest(path@, entries@),
        ensures
            final(self).tree.wf(),
            old(self).tree.model().tallied() ==> final(self).tree.model().tallied(),
            old(self).error is Some ==> final(self).error == old(self).error,
            match frame {
                Frame::Dir { path, entries } => {
                    &&& final(self).tree.model() == applied(old(self).tree.model(), path@, entries@)
                    &&& opt_text(final(self).error) == first_problem(
                        opt_text(old(self).error),
                        if old(self).tree.model().index.contains_key(path@) {
                            None
                        } else {
                            Some(
                                "received a directory frame for "@ + utf8_lossy(path@)
                                    + ", which no parent announced"@,
                            )
                        },
                    )
                },
                Frame::Error { message } => {
                    &&& final(self).tree.model() == old(self).tree.model()
                    &&& opt_text(final(self).error) == first_problem(opt_text(old(self).error), Some(message@))
                },
                Frame::ScanStarted { root } => {
                    &&& final(self).tree.model() == crate::arena::started(root@)
                    &&& opt_text(final(self).error) == opt_text(old(self).error)
                },
                Frame::ScanDone(_) => {
                    &&& final(self).tree.model() == (ArenaView { finished: true, ..old(self).tree.model() })
                    &&& opt_text(final(self).error) == opt_text(old(self).error)
                },
                _ => {
                    &&& final(self).tree.model() == old(self).tree.model()
                    &&& opt_text(final(self).error) == opt_text(old(self).error)
                },
            },
    {
        match frame {
            Frame::Dir { path, entries } => {
                match self.tree.apply_dir(path.as_slice(), entries.as_slice()) {
                    Ok(()) => {},
                    Err(e) => {
                        if self.error.is_none() {
                            self.error = Some(e.message());
                        }
                    },
                }
            },
            Frame::Error { message } => {
                if self.error.is_none() {
                    self.error = Some(message);
                }
            },
            Frame::ScanStarted { root } => {
                self.tree = Arena::new(root.as_slice());
            },
            Frame::ScanDone(_) => {
                self.tree.finish();
            },
            _ => {},
        }
    }

    /// How the scan ended: the first problem met, or the totals.
    pub fn outcome(&self) -> (r: Result<Stats, String>)
        requires
            self.tree.wf(),
        ensures
            match r {
                Ok(s) => self.error is None && s.size == self.tree.model().nodes[0].size
                    && s.files == self.tree.model().nodes[0].files && s.dirs == self.tree.model().nodes[0].dirs
                    + 1 && s.scanning == !self.tree.model().finished,
                Err(e) => self.error == Some(e),
            },
    {
        match &self.error {
            Some(e) => Err(e.clone()),
            None => Ok(self.tree.stats()),
        }
    }
}

/// The byte-exact path to send to the phone for deleting node `id`. The root
/// of the scan is never a delete target.
pub fn delete_target(tree: &Arena, id: NodeId) -> (r: Result<Vec<u8>, String>)
    requires
        tree.wf(),
    ensures
        id == ROOT ==> (r matches Err(e) && e@ == "the scan root cannot be deleted"@),
        id != ROOT && id >= tree.model().len() ==> (r matches Err(e) && e@ == "no node with id "@
            + decimal_text(id as nat)),
        id != ROOT && id < tree.model().len() ==> (r matches Ok(p) && p@ == tree.model().path(id as int)),
{
    if id == ROOT {
        return Err(String::from_str("the scan root cannot be deleted"));
    }
    match tree.path_of(id) {
        Ok(p) => Ok(p),
        Err(e) => Err(e.message()),
    }
}

/// The tree once node `id` is confirmed gone: pruned if it was live.
pub open spec fn after_delete(v: ArenaView, id: int) -> ArenaView {
    if v.live(id) {
        v.pruned(id)
    } else {
        v
    }
}

/// `d` reports the totals of `v` and, if the watched node is live, its
/// listing.
pub open spec fn reports(v: ArenaView, d: Deleted, watching: int) -> bool {
    &&& d.stats.size == v.nodes[0].size
    &&& d.stats.files == v.nodes[0].files
    &&& d.stats.dirs == v.nodes[0].dirs + 1
    &&& d.stats.scanning == !v.finished
    &&& (v.live(watching) <==> d.view is Some)
    &&& (d.view matches Some(w) ==> v.view_is(w, watching, DEFAULT_VIEW_LIMIT as int))
}

/// The phone confirmed that node `id` and `items` entries with it are gone:
/// discount it locally and answer with the new totals and the listing the
/// frontend is watching.
pub fn confirm_delete(tree: &mut Arena, id: NodeId, items: u64, watching: NodeId) -> (r: Result<Deleted, String>)
    requires
        old(tree).wf(),
    ensures
        final(tree).wf(),
        id == ROOT || id >= old(tree).model().len() ==> (final(tree).model() == old(tree).model() && (r matches Err(e)
            && e@ == "no node with id "@ + decimal_text(id as nat))),
        id != ROOT && id < old(tree).model().len() ==> (r matches Ok(d) && d.items == items && final(tree).model()
            == after_delete(old(tree).model(), id as int) && reports(final(tree).model(), d, watching as int)),
{
    match tree.remove(id) {
        Ok(()) => {},
        Err(e) => {
            return Err(e.message());
        },
    }
    let stats = tree.stats();
    let view = match tree.view(watching, DEFAULT_VIEW_LIMIT) {
        Ok(v) => Some(v),
        Err(_) => None,
    };
    Ok(Deleted { items, stats, view })
}

} // verus!
