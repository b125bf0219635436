//! The publisher of successive generations.
//!
//! An [`Updater`] owns the current generation and hands out shared,
//! read-only handles to it. It never changes a tree once that tree may have
//! been handed out: each new generation is a tree of its own.

use std::sync::Arc;

use vstd::prelude::*;

use crate::geometry::Point;
use crate::qtree::QTree;

verus! {

/// Owner of the current generation of the world.
pub struct Updater {
    current: Arc<QTree>,
}

impl Updater {
    /// The current generation.
    pub closed spec fn tree(&self) -> QTree {
        *self.current
    }

    /// Builds an updater that starts from `data`.
    pub fn new(data: Arc<QTree>) -> (r: Updater)
        requires
            data.wf(),
        ensures
            r.tree() == *data,
    {
        Updater { current: data }
    }

    /// A shared handle to the current generation, to be published.
    pub fn current(&self) -> (r: &Arc<QTree>)
        ensures
            **r == self.tree(),
    {
        &self.current
    }

    /// One round of the publishing loop, given whether the handle to the
    /// current generation reached the consumer: if it did, the next
    /// generation becomes current and the loop goes on (`true`); if the
    /// consumer is gone, nothing changes and the loop stops (`false`).
    pub fn run(&mut self, delivered: bool) -> (go_on: bool)
        requires
            old(self).tree().wf(),
        ensures
            go_on == delivered,
            final(self).tree().wf(),
            final(self).tree()@ == old(self).tree()@,
            final(self).tree().boundary == old(self).tree().boundary,
            !delivered ==> final(self).tree() == old(self).tree(),
    {
        if !delivered {
            return false;
        }
        let next = Self::build_next(&self.current);
        self.current = Arc::new(next);
        true
    }

    /// The next generation: a fresh tree over the same region holding the
    /// points of `current`.
    pub fn build_next(current: &QTree) -> (r: QTree)
        requires
            current.wf(),
        ensures
            r.wf(),
            r@ == current@,
            r.boundary == current.boundary,
    {
        let pts = current.points();
        let mut next = QTree::new(current.boundary(), &Vec::new());
        proof {
            current.lemma_points_in_region();
        }
        let mut i: usize = 0;
        while i < pts.len()
            invariant
                i <= pts.len(),
                pts@ == current.items(),
                next.wf(),
                next.boundary == current.boundary,
                next@ == pts@.take(i as int).to_set(),
                forall|p: Point| #[trigger] pts@.contains(p) ==> current.boundary.contains_spec(p),
            decreases pts.len() - i,
        {
            proof {
                assert(pts@.contains(pts@[i as int]));
                assert(pts@.take(i + 1) =~= pts@.take(i as int).push(pts@[i as int]));
                pts@.take(i as int).lemma_push_to_set_commute(pts@[i as int]);
            }
            next.insert(pts[i]);
            i = i + 1;
        }
        assert(pts@.take(pts.len() as int) =~= pts@);
        next
    }
}

} // verus!
