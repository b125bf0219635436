//! Properties that relate several operations on a quadtree.
//!
//! Each operation's contract speaks of the tree's point set (`t@`): `insert`
//! adds its point, `remove` takes its point away, `points` lists the stored
//! points and `query` filters that list by the area. The lemmas here state
//! what follows for sequences of operations.

use vstd::prelude::*;

use crate::geometry::{Point, AABB};
use crate::qtree::{in_area, QTree};

verus! {

/// The point set of a tree that held `s`, after the points of `ps` have been
/// inserted in order.
pub open spec fn insert_all(s: Set<Point>, ps: Seq<Point>) -> Set<Point>
    decreases ps.len(),
{
    if ps.len() == 0 {
        s
    } else {
        insert_all(s, ps.drop_last()).insert(ps.last())
    }
}

/// The point set of a tree that held `s`, after the edits of `es` in order:
/// `(true, p)` inserts `p`, `(false, p)` removes it.
pub open spec fn apply_edits(s: Set<Point>, es: Seq<(bool, Point)>) -> Set<Point>
    decreases es.len(),
{
    if es.len() == 0 {
        s
    } else {
        let prev = apply_edits(s, es.drop_last());
        let e = es.last();
        if e.0 {
            prev.insert(e.1)
        } else {
            prev.remove(e.1)
        }
    }
}

/// Whether the last edit of `q` in `es` inserts it.
pub open spec fn inserted_last(es: Seq<(bool, Point)>, q: Point) -> bool {
    exists|i: int|
        0 <= i < es.len() && #[trigger] es[i] == (true, q) && forall|j: int|
            i < j < es.len() ==> (#[trigger] es[j]).1 != q
}

/// Inserting the points of `ps` one by one into an empty tree and then
/// asking whether a point is stored answers yes exactly for the points of
/// `ps`: the tree holds `ps`'s set of points.
pub proof fn lemma_containment_round_trip(ps: Seq<Point>, q: Point)
    ensures
        insert_all(Set::empty(), ps).contains(q) == ps.contains(q),
        insert_all(Set::empty(), ps) == ps.to_set(),
    decreases ps.len(),
{
    if ps.len() > 0 {
        let init = ps.drop_last();
        lemma_containment_round_trip(init, q);
        assert(ps =~= init.push(ps.last()));
        init.lemma_push_to_set_commute(ps.last());
        assert(ps.to_set().contains(q) == ps.contains(q));
    } else {
        assert(ps.to_set() =~= Set::<Point>::empty());
    }
}

/// Removing a point right after inserting it gives back the point set from
/// before the insert, whatever subdivision or merging happened on the way,
/// provided the point was not stored before.
pub proof fn lemma_insert_remove_inverse(t: QTree, p: Point)
    requires
        t.wf(),
        !t@.contains(p),
    ensures
        t@.insert(p).remove(p) == t@,
{
    assert(t@.insert(p).remove(p) =~= t@);
}

/// After any interleaving of inserts and removes on an empty tree, the
/// enumeration of the tree holds exactly the points that were inserted and
/// not removed since.
pub proof fn lemma_enumeration_complete(t: QTree, es: Seq<(bool, Point)>, q: Point)
    requires
        t.wf(),
        t@ == apply_edits(Set::empty(), es),
    ensures
        t.items().contains(q) <==> inserted_last(es, q),
{
    lemma_edits(es, q);
    assert(t@.contains(q) == t.items().contains(q));
}

/// A point is in the result of a sequence of edits on the empty set exactly
/// when its last edit inserts it.
proof fn lemma_edits(es: Seq<(bool, Point)>, q: Point)
    ensures
        apply_edits(Set::empty(), es).contains(q) <==> inserted_last(es, q),
    decreases es.len(),
{
    if es.len() > 0 {
        let init = es.drop_last();
        let n = es.len() - 1;
        lemma_edits(init, q);
        let e = es.last();
        if e.1 == q {
            if e.0 {
                assert(es[n] == (true, q));
            } else {
                if inserted_last(es, q) {
                    let i = choose|i: int|
                        0 <= i < es.len() && #[trigger] es[i] == (true, q) && forall|j: int|
                            i < j < es.len() ==> (#[trigger] es[j]).1 != q;
                    assert(es[n].1 == q);
                }
            }
        } else {
            if inserted_last(init, q) {
                let i = choose|i: int|
                    0 <= i < init.len() && #[trigger] init[i] == (true, q) && forall|j: int|
                        i < j < init.len() ==> (#[trigger] init[j]).1 != q;
                assert(es[i] == (true, q));
                assert forall|j: int| i < j < es.len() implies (#[trigger] es[j]).1 != q by {
                    if j < n {
                        assert(init[j] == es[j]);
                    }
                }
            }
            if inserted_last(es, q) {
                let i = choose|i: int|
                    0 <= i < es.len() && #[trigger] es[i] == (true, q) && forall|j: int|
                        i < j < es.len() ==> (#[trigger] es[j]).1 != q;
                assert(i < n);
                assert(init[i] == (true, q));
                assert forall|j: int| i < j < init.len() implies (#[trigger] init[j]).1 != q by {
                    assert(init[j] == es[j]);
                }
            }
        }
    }
}

/// A point is kept by a filter of a sequence exactly when it is in the
/// sequence and satisfies the predicate.
proof fn lemma_filter_set(s: Seq<Point>, f: spec_fn(Point) -> bool)
    ensures
        s.filter(f).to_set() == s.to_set().filter(f),
{
    assert forall|x: Point| #[trigger] s.filter(f).contains(x) <==> s.contains(x) && f(x) by {
        if s.filter(f).contains(x) {
            s.lemma_filter_contains_rev(f, x);
            let i = choose|i: int| 0 <= i < s.filter(f).len() && s.filter(f)[i] == x;
            s.lemma_filter_pred(f, i);
        }
        if s.contains(x) && f(x) {
            let i = choose|i: int| 0 <= i < s.len() && s[i] == x;
            s.lemma_filter_contains(f, i);
        }
    }
    assert(s.filter(f).to_set() =~= s.to_set().filter(f));
}

/// A query returns, as a set, exactly the stored points inside the area; so
/// two trees that hold the same points answer a query alike, whatever their
/// shape.
pub proof fn lemma_query_exact(t1: QTree, t2: QTree, area: AABB)
    requires
        t1.wf(),
        t2.wf(),
        t1@ == t2@,
    ensures
        t1.items().filter(in_area(area)).to_set() == t1@.filter(in_area(area)),
        t1.items().filter(in_area(area)).to_set() == t2.items().filter(in_area(area)).to_set(),
{
    lemma_filter_set(t1.items(), in_area(area));
    lemma_filter_set(t2.items(), in_area(area));
}

} // verus!
