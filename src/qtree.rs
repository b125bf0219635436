//! A self-balancing point quadtree over the integer plane.
//!
//! A tree covers a square region ([`AABB`]). A node is either a leaf holding
//! at most [`CAP`] distinct points, or an internal node with four children,
//! one per quadrant. Inserting a point outside the region grows the region
//! around the same center; a leaf that overflows is subdivided, and an
//! internal node whose points drop to [`CAP`] or fewer is merged back into a
//! leaf.

use vstd::prelude::*;

use crate::geometry::{Point, AABB};
use crate::region::{
    grown_for, grown_over, grown_region, lemma_quadrant_box, lemma_unit_region_full, quadrant,
    quadrant_box, quadrant_of, quadrant_region, region_ok, root_ok, MAX_ROOT_HALF_DIM,
};

verus! {

/// The number of points that a leaf holds at most.
pub const CAP: usize = 4;

/// Membership in `area`, as a predicate on points.
pub open spec fn in_area(area: AABB) -> spec_fn(Point) -> bool {
    |p: Point| area.contains_spec(p)
}

/// The shape of a quadtree node.
pub enum Node {
    /// Points stored directly, in insertion order.
    Leaf(Vec<Point>),
    /// Four children: north-east, north-west, south-east, south-west.
    Internal(Box<QTree>, Box<QTree>, Box<QTree>, Box<QTree>),
}

/// A quadtree node together with the region it covers.
pub struct QTree {
    pub boundary: AABB,
    pub node: Node,
}

impl View for QTree {
    type V = Set<Point>;

    /// The set of points stored in the tree.
    open spec fn view(&self) -> Set<Point> {
        self.items().to_set()
    }
}

impl QTree {
    /// The points of the tree in enumeration order: depth-first, children in
    /// the order north-east, north-west, south-east, south-west, and leaf
    /// points in slot order.
    pub open spec fn items(self) -> Seq<Point>
        decreases self,
    {
        match self.node {
            Node::Leaf(v) => v@,
            Node::Internal(ne, nw, se, sw) => ne.items() + nw.items() + se.items() + sw.items(),
        }
    }

    /// Whether this node is a leaf.
    pub open spec fn is_leaf_spec(self) -> bool {
        self.node is Leaf
    }

    /// Structural well-formedness of a node and all nodes below it.
    ///
    /// A leaf holds at most `CAP` distinct points, all inside its region. An
    /// internal node has a region of half-dimension two or more, its children
    /// cover its four quadrants, all its points lie in its region, and it
    /// holds more than `CAP` points in all (else it would have been merged).
    pub open spec fn well_formed(self) -> bool
        decreases self,
    {
        &&& region_ok(self.boundary)
        &&& match self.node {
            Node::Leaf(v) => {
                &&& v.len() <= CAP
                &&& v@.no_duplicates()
                &&& forall|p: Point| #[trigger] v@.contains(p) ==> self.boundary.contains_spec(p)
            },
            Node::Internal(ne, nw, se, sw) => {
                &&& self.boundary.half_dim >= 2
                &&& ne.boundary == quadrant_box(self.boundary, 0)
                &&& nw.boundary == quadrant_box(self.boundary, 1)
                &&& se.boundary == quadrant_box(self.boundary, 2)
                &&& sw.boundary == quadrant_box(self.boundary, 3)
                &&& ne.well_formed()
                &&& nw.well_formed()
                &&& se.well_formed()
                &&& sw.well_formed()
                &&& forall|p: Point| #[trigger]
                    self.items().contains(p) ==> self.boundary.contains_spec(p)
                &&& self.items().len() > CAP
            },
        }
    }

    /// Child `q` of an internal node, in the order north-east, north-west,
    /// south-east, south-west.
    pub open spec fn child(self, q: int) -> QTree
        recommends
            self.node is Internal,
            0 <= q < 4,
    {
        match self.node {
            Node::Leaf(_) => self,
            Node::Internal(ne, nw, se, sw) => {
                if q == 0 {
                    *ne
                } else if q == 1 {
                    *nw
                } else if q == 2 {
                    *se
                } else {
                    *sw
                }
            },
        }
    }

    /// An internal node whose children cover its four quadrants and are
    /// well-formed, whatever its number of points.
    pub open spec fn children_ok(self) -> bool {
        &&& self.node is Internal
        &&& region_ok(self.boundary)
        &&& self.boundary.half_dim >= 2
        &&& forall|q: int|
            0 <= q < 4 ==> #[trigger] self.child(q).boundary == quadrant_box(self.boundary, q)
                && self.child(q).well_formed()
        &&& forall|p: Point| #[trigger] self.items().contains(p) ==> self.boundary.contains_spec(p)
    }

    /// Every stored point lies in the tree's region.
    pub proof fn lemma_points_in_region(self)
        requires
            self.well_formed(),
        ensures
            forall|p: Point| #[trigger] self.items().contains(p) ==> self.boundary.contains_spec(p),
            self.items().no_duplicates(),
    {
        lemma_items(self);
    }

    /// The invariant of a whole tree: well-formed, over a region that a tree
    /// may cover.
    pub open spec fn wf(self) -> bool {
        self.well_formed() && root_ok(self.boundary)
    }
}

/// Two sequences without duplicates and without a common point concatenate
/// to one without duplicates, holding the points of both.
proof fn lemma_concat_unique(a: Seq<Point>, b: Seq<Point>)
    requires
        a.no_duplicates(),
        b.no_duplicates(),
        forall|p: Point| a.contains(p) ==> !b.contains(p),
    ensures
        (a + b).no_duplicates(),
        forall|p: Point| #[trigger] (a + b).contains(p) <==> a.contains(p) || b.contains(p),
{
    let s = a + b;
    assert forall|i: int, j: int| 0 <= i < s.len() && 0 <= j < s.len() && i != j implies s[i]
        != s[j] by {
        if i < a.len() && j >= a.len() {
            assert(a.contains(a[i]));
            assert(b.contains(b[j - a.len()]));
        } else if j < a.len() && i >= a.len() {
            assert(a.contains(a[j]));
            assert(b.contains(b[i - a.len()]));
        }
    }
    assert forall|p: Point| #[trigger] s.contains(p) <==> a.contains(p) || b.contains(p) by {
        if s.contains(p) {
            let i = choose|i: int| 0 <= i < s.len() && s[i] == p;
            if i < a.len() {
                assert(a[i] == p);
            } else {
                assert(b[i - a.len()] == p);
            }
        }
        if a.contains(p) {
            let i = choose|i: int| 0 <= i < a.len() && a[i] == p;
            assert(s[i] == p);
        }
        if b.contains(p) {
            let i = choose|i: int| 0 <= i < b.len() && b[i] == p;
            assert(s[i + a.len()] == p);
        }
    }
}

/// A point is in `s.push(a)` exactly when it is `a` or in `s`; pushing a
/// point that is not in `s` keeps it free of duplicates.
proof fn lemma_push_contains(s: Seq<Point>, a: Point)
    ensures
        forall|x: Point| #[trigger] s.push(a).contains(x) <==> s.contains(x) || x == a,
        s.no_duplicates() && !s.contains(a) ==> s.push(a).no_duplicates(),
{
    s.lemma_push_to_set_commute(a);
    assert forall|x: Point| #[trigger] s.push(a).contains(x) <==> s.contains(x) || x == a by {
        assert(s.push(a).to_set().contains(x) == s.push(a).contains(x));
        assert(s.to_set().contains(x) == s.contains(x));
    }
    if s.no_duplicates() && !s.contains(a) {
        let t = s.push(a);
        assert forall|i: int, j: int| 0 <= i < t.len() && 0 <= j < t.len() && i != j implies t[i]
            != t[j] by {
            if i == s.len() {
                assert(s.contains(s[j]));
            } else if j == s.len() {
                assert(s.contains(s[i]));
            }
        }
    }
}

/// A point is in a concatenation exactly when it is in one of the parts.
proof fn lemma_concat_contains(a: Seq<Point>, b: Seq<Point>)
    ensures
        forall|p: Point| #[trigger] (a + b).contains(p) <==> a.contains(p) || b.contains(p),
{
    let s = a + b;
    assert forall|p: Point| #[trigger] s.contains(p) <==> a.contains(p) || b.contains(p) by {
        if s.contains(p) {
            let i = choose|i: int| 0 <= i < s.len() && s[i] == p;
            if i < a.len() {
                assert(a[i] == p);
            } else {
                assert(b[i - a.len()] == p);
            }
        }
        if a.contains(p) {
            let i = choose|i: int| 0 <= i < a.len() && a[i] == p;
            assert(s[i] == p);
        }
        if b.contains(p) {
            let i = choose|i: int| 0 <= i < b.len() && b[i] == p;
            assert(s[i + a.len()] == p);
        }
    }
}

/// A point is in the items of an internal node exactly when it is in the
/// items of one of its children.
proof fn lemma_internal_contains(t: QTree)
    requires
        t.node is Internal,
    ensures
        forall|p: Point| #[trigger]
            t.items().contains(p) <==> t.child(0).items().contains(p) || t.child(1).items().contains(
                p,
            ) || t.child(2).items().contains(p) || t.child(3).items().contains(p),
        t.items().len() == t.child(0).items().len() + t.child(1).items().len() + t.child(
            2,
        ).items().len() + t.child(3).items().len(),
{
    let (a, b, c, d) = (t.child(0).items(), t.child(1).items(), t.child(2).items(), t.child(3).items());
    lemma_concat_contains(a, b);
    lemma_concat_contains(a + b, c);
    lemma_concat_contains(a + b + c, d);
}

/// Removing the one occurrence of `p` from a sequence without duplicates
/// removes `p` from its set of points.
proof fn lemma_remove_unique(s: Seq<Point>, i: int, p: Point)
    requires
        s.no_duplicates(),
        0 <= i < s.len(),
        s[i] == p,
    ensures
        s.remove(i).no_duplicates(),
        forall|x: Point| #[trigger] s.remove(i).contains(x) <==> s.contains(x) && x != p,
        s.remove(i).to_set() == s.to_set().remove(p),
{
    let r = s.remove(i);
    s.remove_ensures(i);
    assert forall|a: int, b: int| 0 <= a < r.len() && 0 <= b < r.len() && a != b implies r[a]
        != r[b] by {
        let sa = if a < i { a } else { a + 1 };
        let sb = if b < i { b } else { b + 1 };
        assert(r[a] == s[sa] && r[b] == s[sb]);
    }
    assert forall|x: Point| #[trigger] r.contains(x) <==> s.contains(x) && x != p by {
        if r.contains(x) {
            let a = choose|a: int| 0 <= a < r.len() && #[trigger] r[a] == x;
            let sa = if a < i { a } else { a + 1 };
            assert(s[sa] == x);
        }
        if s.contains(x) && x != p {
            let a = choose|a: int| 0 <= a < s.len() && #[trigger] s[a] == x;
            let ra = if a < i { a } else { a - 1 };
            assert(r[ra] == x);
        }
    }
    assert(r.to_set() =~= s.to_set().remove(p));
}

/// Every point of a well-formed node lies in its region, no point is stored
/// twice, and a point is in an internal node exactly when it is in the child
/// that the quadrant rule picks for it.
proof fn lemma_items(t: QTree)
    requires
        t.well_formed() || t.children_ok(),
    ensures
        forall|p: Point| #[trigger] t.items().contains(p) ==> t.boundary.contains_spec(p),
        t.items().no_duplicates(),
        t.node is Internal ==> forall|p: Point| #[trigger]
            t.items().contains(p) == t.child(quadrant_of(t.boundary.center, p)).items().contains(
                p,
            ),
    decreases t,
{
    match t.node {
        Node::Leaf(v) => {},
        Node::Internal(ne, nw, se, sw) => {
            assert(t.child(0).well_formed() && t.child(1).well_formed());
            assert(t.child(2).well_formed() && t.child(3).well_formed());
            lemma_items(*ne);
            lemma_items(*nw);
            lemma_items(*se);
            lemma_items(*sw);
            let b = t.boundary;
            assert forall|p: Point| ne.items().contains(p) implies quadrant_of(b.center, p) == 0 by {
                lemma_quadrant_box(b, 0, p);
            }
            assert forall|p: Point| nw.items().contains(p) implies quadrant_of(b.center, p) == 1 by {
                lemma_quadrant_box(b, 1, p);
            }
            assert forall|p: Point| se.items().contains(p) implies quadrant_of(b.center, p) == 2 by {
                lemma_quadrant_box(b, 2, p);
            }
            assert forall|p: Point| sw.items().contains(p) implies quadrant_of(b.center, p) == 3 by {
                lemma_quadrant_box(b, 3, p);
            }
            lemma_concat_unique(ne.items(), nw.items());
            lemma_concat_unique(ne.items() + nw.items(), se.items());
            lemma_concat_unique(ne.items() + nw.items() + se.items(), sw.items());
        },
    }
}

/// The slot of a leaf that holds `p`, if any.
fn leaf_position(v: &Vec<Point>, p: Point) -> (r: Option<usize>)
    ensures
        match r {
            Some(i) => i < v.len() && v@[i as int] == p,
            None => !v@.contains(p),
        },
{
    let mut i: usize = 0;
    while i < v.len()
        invariant
            i <= v.len(),
            forall|j: int| 0 <= j < i ==> v@[j] != p,
        decreases v.len() - i,
    {
        if v[i].0 == p.0 && v[i].1 == p.1 {
            return Some(i);
        }
        i = i + 1;
    }
    None
}

/// A copy of the points of a leaf.
fn copy_points(v: &Vec<Point>) -> (r: Vec<Point>)
    ensures
        r@ == v@,
{
    let mut r: Vec<Point> = Vec::new();
    let mut i: usize = 0;
    while i < v.len()
        invariant
            i <= v.len(),
            r@ == v@.take(i as int),
        decreases v.len() - i,
    {
        r.push(v[i]);
        i = i + 1;
        assert(r@ =~= v@.take(i as int));
    }
    assert(r@ =~= v@);
    r
}

/// Subdivision: an internal node over `b` whose four leaf children hold the
/// points of `v`, each in the quadrant it lies in.
fn subdivide(b: &AABB, v: &Vec<Point>) -> (r: QTree)
    requires
        region_ok(*b),
        b.half_dim >= 2,
        v.len() <= CAP,
        v@.no_duplicates(),
        forall|p: Point| #[trigger] v@.contains(p) ==> b.contains_spec(p),
    ensures
        r.boundary == *b,
        r.node is Internal,
        forall|q: int|
            0 <= q < 4 ==> #[trigger] r.child(q).boundary == quadrant_box(*b, q) && r.child(
                q,
            ).well_formed(),
        r@ == v@.to_set(),
        r.items().len() == v.len(),
        r.children_ok(),
{
    let c = b.center;
    let mut parts: (Vec<Point>, Vec<Point>, Vec<Point>, Vec<Point>) = (
        Vec::new(),
        Vec::new(),
        Vec::new(),
        Vec::new(),
    );
    let mut i: usize = 0;
    while i < v.len()
        invariant
            i <= v.len(),
            v@.no_duplicates(),
            parts.0@.no_duplicates(),
            parts.1@.no_duplicates(),
            parts.2@.no_duplicates(),
            parts.3@.no_duplicates(),
            forall|p: Point| #[trigger]
                parts.0@.contains(p) <==> v@.take(i as int).contains(p) && quadrant_of(c, p) == 0,
            forall|p: Point| #[trigger]
                parts.1@.contains(p) <==> v@.take(i as int).contains(p) && quadrant_of(c, p) == 1,
            forall|p: Point| #[trigger]
                parts.2@.contains(p) <==> v@.take(i as int).contains(p) && quadrant_of(c, p) == 2,
            forall|p: Point| #[trigger]
                parts.3@.contains(p) <==> v@.take(i as int).contains(p) && quadrant_of(c, p) == 3,
            parts.0.len() + parts.1.len() + parts.2.len() + parts.3.len() == i,
        decreases v.len() - i,
    {
        let p = v[i];
        let ghost prev = parts;
        proof {
            assert(v@.take(i + 1) =~= v@.take(i as int).push(p));
            lemma_push_contains(v@.take(i as int), p);
            assert(!v@.take(i as int).contains(p)) by {
                if v@.take(i as int).contains(p) {
                    let j = choose|j: int| 0 <= j < i && #[trigger] v@.take(i as int)[j] == p;
                    assert(v@[j] == v@[i as int]);
                }
            }
        }
        let q = quadrant(c, p);
        if q == 0 {
            parts.0.push(p);
        } else if q == 1 {
            parts.1.push(p);
        } else if q == 2 {
            parts.2.push(p);
        } else {
            parts.3.push(p);
        }
        proof {
            lemma_push_contains(prev.0@, p);
            lemma_push_contains(prev.1@, p);
            lemma_push_contains(prev.2@, p);
            lemma_push_contains(prev.3@, p);
        }
        i = i + 1;
    }
    assert(v@.take(v.len() as int) =~= v@);
    let (a0, a1, a2, a3) = parts;
    let ne = QTree { boundary: quadrant_region(b, 0), node: Node::Leaf(a0) };
    let nw = QTree { boundary: quadrant_region(b, 1), node: Node::Leaf(a1) };
    let se = QTree { boundary: quadrant_region(b, 2), node: Node::Leaf(a2) };
    let sw = QTree { boundary: quadrant_region(b, 3), node: Node::Leaf(a3) };
    let r = QTree {
        boundary: *b,
        node: Node::Internal(Box::new(ne), Box::new(nw), Box::new(se), Box::new(sw)),
    };
    proof {
        assert forall|p: Point| #[trigger] ne.items().contains(p) implies ne.boundary.contains_spec(p) by {
            lemma_quadrant_box(*b, 0, p);
        }
        assert forall|p: Point| #[trigger] nw.items().contains(p) implies nw.boundary.contains_spec(p) by {
            lemma_quadrant_box(*b, 1, p);
        }
        assert forall|p: Point| #[trigger] se.items().contains(p) implies se.boundary.contains_spec(p) by {
            lemma_quadrant_box(*b, 2, p);
        }
        assert forall|p: Point| #[trigger] sw.items().contains(p) implies sw.boundary.contains_spec(p) by {
            lemma_quadrant_box(*b, 3, p);
        }
        lemma_internal_contains(r);
        assert(r@ =~= v@.to_set());
        assert forall|p: Point| #[trigger] r.items().contains(p) implies b.contains_spec(p) by {
            assert(r@.contains(p) == r.items().contains(p));
            assert(v@.to_set().contains(p) == v@.contains(p));
        }
    }
    r
}

impl QTree {
    /// Whether `p` is stored in the tree. Descends into the one child that
    /// the quadrant rule picks; a leaf scans its slots.
    pub fn contains(&self, p: Point) -> (r: bool)
        requires
            self.well_formed(),
        ensures
            r == self@.contains(p),
        decreases self,
    {
        proof {
            lemma_items(*self);
        }
        match &self.node {
            Node::Leaf(v) => leaf_position(v, p).is_some(),
            Node::Internal(ne, nw, se, sw) => {
                let q = quadrant(self.boundary.center, p);
                if q == 0 {
                    ne.contains(p)
                } else if q == 1 {
                    nw.contains(p)
                } else if q == 2 {
                    se.contains(p)
                } else {
                    sw.contains(p)
                }
            },
        }
    }

    /// All points of the tree, in enumeration order (depth-first; children
    /// north-east, north-west, south-east, south-west; leaf slots in order).
    pub fn points(&self) -> (r: Vec<Point>)
        ensures
            r@ == self.items(),
        decreases self,
    {
        match &self.node {
            Node::Leaf(v) => copy_points(v),
            Node::Internal(ne, nw, se, sw) => {
                let mut r = ne.points();
                let mut rest = nw.points();
                r.append(&mut rest);
                let mut rest = se.points();
                r.append(&mut rest);
                let mut rest = sw.points();
                r.append(&mut rest);
                r
            },
        }
    }

    /// Every stored point inside `area`. Subtrees whose region does not
    /// intersect `area` are skipped; a leaf keeps its points in slot order and
    /// an internal node concatenates the results of its children.
    pub fn query(&self, area: &AABB) -> (r: Vec<Point>)
        requires
            self.well_formed(),
        ensures
            r@ == self.items().filter(in_area(*area)),
        decreases self,
    {
        if !self.boundary.intersects(area) {
            proof {
                lemma_items(*self);
                let s = self.items();
                assert forall|i: int| 0 <= i < s.len() implies !in_area(*area)(s[i]) by {
                    assert(s.contains(s[i]));
                }
                s.lemma_all_neg_filter_empty(in_area(*area));
            }
            return Vec::new();
        }
        match &self.node {
            Node::Leaf(v) => {
                let mut r: Vec<Point> = Vec::new();
                let mut i: usize = 0;
                while i < v.len()
                    invariant
                        i <= v.len(),
                        r@ == v@.take(i as int).filter(in_area(*area)),
                    decreases v.len() - i,
                {
                    proof {
                        assert(v@.take(i + 1) =~= v@.take(i as int).push(v@[i as int]));
                        v@.take(i as int).lemma_filter_push(v@[i as int], in_area(*area));
                    }
                    if area.contains(v[i]) {
                        r.push(v[i]);
                    }
                    i = i + 1;
                }
                assert(v@.take(v.len() as int) =~= v@);
                r
            },
            Node::Internal(ne, nw, se, sw) => {
                let mut r = ne.query(area);
                let mut rest = nw.query(area);
                r.append(&mut rest);
                let mut rest = se.query(area);
                r.append(&mut rest);
                let mut rest = sw.query(area);
                r.append(&mut rest);
                proof {
                    let f = in_area(*area);
                    Seq::filter_distributes_over_add(ne.items(), nw.items(), f);
                    Seq::filter_distributes_over_add(ne.items() + nw.items(), se.items(), f);
                    Seq::filter_distributes_over_add(
                        ne.items() + nw.items() + se.items(),
                        sw.items(),
                        f,
                    );
                }
                r
            },
        }
    }

    /// Inserts `p`, which lies in this node's region: nothing changes if it
    /// is stored already; a leaf with a free slot takes it; a full leaf is
    /// subdivided first; an internal node passes it to the child the
    /// quadrant rule picks.
    fn insert_within(&mut self, p: Point)
        requires
            old(self).well_formed(),
            old(self).boundary.contains_spec(p),
        ensures
            final(self).well_formed(),
            final(self).boundary == old(self).boundary,
            final(self)@ == old(self)@.insert(p),
            final(self).items().len() == old(self).items().len() + (if old(self)@.contains(p) {
                0int
            } else {
                1int
            }),
        decreases old(self).boundary.half_dim, 1int,
    {
        proof {
            lemma_items(*self);
        }
        match &mut self.node {
            Node::Leaf(v) => {
                if leaf_position(v, p).is_some() {
                    proof {
                        assert(old(self)@ =~= old(self)@.insert(p));
                    }
                    return;
                }
                if v.len() < CAP {
                    proof {
                        lemma_push_contains(v@, p);
                        v@.lemma_push_to_set_commute(p);
                    }
                    v.push(p);
                    return;
                }
                proof {
                    if self.boundary.half_dim == 1 {
                        lemma_unit_region_full(self.boundary, v@, p);
                    }
                }
                let split = subdivide(&self.boundary, v);
                *self = split;
                self.insert_child(p);
            },
            Node::Internal(..) => {
                self.insert_child(p);
            },
        }
        proof {
            assert(self.child(0).well_formed() && self.child(1).well_formed());
            assert(self.child(2).well_formed() && self.child(3).well_formed());
        }
    }

    /// Inserts `p`, which lies in the region of this internal node, into the
    /// child that the quadrant rule picks.
    fn insert_child(&mut self, p: Point)
        requires
            old(self).children_ok(),
            old(self).boundary.contains_spec(p),
        ensures
            final(self).children_ok(),
            final(self).boundary == old(self).boundary,
            final(self)@ == old(self)@.insert(p),
            final(self).items().len() == old(self).items().len() + (if old(self)@.contains(p) {
                0int
            } else {
                1int
            }),
        decreases old(self).boundary.half_dim, 0int,
    {
        let q = quadrant(self.boundary.center, p);
        proof {
            let b = self.boundary;
            assert forall|k: int| 0 <= k < 4 && k != q implies !(#[trigger] self.child(
                k,
            ).items()).contains(p) by {
                lemma_items(self.child(k));
                lemma_quadrant_box(b, k, p);
            }
            lemma_quadrant_box(b, q as int, p);
            lemma_internal_contains(*self);
        }
        let ghost before = *self;
        match &mut self.node {
            Node::Internal(ne, nw, se, sw) => {
                if q == 0 {
                    ne.insert_within(p);
                } else if q == 1 {
                    nw.insert_within(p);
                } else if q == 2 {
                    se.insert_within(p);
                } else {
                    sw.insert_within(p);
                }
            },
            Node::Leaf(_) => {},
        }
        proof {
            assert forall|k: int| 0 <= k < 4 && k != q implies #[trigger] self.child(k)
                == before.child(k) by {}
            let now = self.child(q as int).items();
            let was = before.child(q as int).items();
            assert forall|x: Point| #[trigger] now.contains(x) <==> was.contains(x) || x == p by {
                assert(now.to_set().contains(x) == now.contains(x));
                assert(was.to_set().contains(x) == was.contains(x));
            }
            lemma_internal_contains(*self);
            lemma_internal_contains(before);
            assert(self@ =~= old(self)@.insert(p));
            assert forall|x: Point| #[trigger] self.items().contains(x) implies self.boundary.contains_spec(
                x,
            ) by {
                assert(self@.contains(x) == self.items().contains(x));
                assert(before@.contains(x) == before.items().contains(x));
            }
        }
    }

    /// Removes `p` if it is stored: a leaf clears its slot; an internal node
    /// removes it from the child the quadrant rule picks and then merges
    /// back into a leaf if `CAP` or fewer points remain under it.
    fn remove_within(&mut self, p: Point)
        requires
            old(self).well_formed(),
        ensures
            final(self).well_formed(),
            final(self).boundary == old(self).boundary,
            final(self)@ == old(self)@.remove(p),
            final(self).items().len() == old(self).items().len() - (if old(self)@.contains(p) {
                1int
            } else {
                0int
            }),
        decreases old(self).boundary.half_dim,
    {
        proof {
            lemma_items(*self);
        }
        let ghost before = *self;
        let q = quadrant(self.boundary.center, p);
        match &mut self.node {
            Node::Leaf(v) => {
                match leaf_position(v, p) {
                    Some(i) => {
                        proof {
                            lemma_remove_unique(v@, i as int, p);
                        }
                        v.remove(i);
                    },
                    None => {
                        proof {
                            assert(old(self)@ =~= old(self)@.remove(p));
                        }
                    },
                }
                return;
            },
            Node::Internal(ne, nw, se, sw) => {
                proof {
                    let b = before.boundary;
                    assert forall|k: int| 0 <= k < 4 && k != q implies !(#[trigger] before.child(
                        k,
                    ).items()).contains(p) by {
                        lemma_items(before.child(k));
                        lemma_quadrant_box(b, k, p);
                    }
                    lemma_quadrant_box(b, q as int, p);
                    lemma_quadrant_box(b, 0, p);
                    lemma_quadrant_box(b, 1, p);
                    lemma_quadrant_box(b, 2, p);
                    lemma_quadrant_box(b, 3, p);
                    lemma_internal_contains(before);
                }
                if q == 0 {
                    ne.remove_within(p);
                } else if q == 1 {
                    nw.remove_within(p);
                } else if q == 2 {
                    se.remove_within(p);
                } else {
                    sw.remove_within(p);
                }
            },
        }
        proof {
            assert forall|k: int| 0 <= k < 4 && k != q implies #[trigger] self.child(k)
                == before.child(k) by {}
            let now = self.child(q as int).items();
            let was = before.child(q as int).items();
            assert forall|x: Point| #[trigger] now.contains(x) <==> was.contains(x) && x != p by {
                assert(now.to_set().contains(x) == now.contains(x));
                assert(was.to_set().contains(x) == was.contains(x));
            }
            lemma_internal_contains(*self);
            assert(self@ =~= old(self)@.remove(p));
            assert forall|x: Point| #[trigger] self.items().contains(x) implies self.boundary.contains_spec(
                x,
            ) by {
                assert(self@.contains(x) == self.items().contains(x));
                assert(before@.contains(x) == before.items().contains(x));
            }
            assert(self.children_ok());
            lemma_items(*self);
        }
        let all = self.points();
        if all.len() <= CAP {
            self.node = Node::Leaf(all);
        }
    }

    /// Rebuilds the tree over the region it grows to for `p`, re-inserting
    /// every stored point.
    fn extend(&mut self, p: Point)
        requires
            old(self).wf(),
        ensures
            final(self).wf(),
            final(self)@ == old(self)@,
            final(self).boundary == grown_for(old(self).boundary, p),
            final(self).boundary.contains_spec(p),
            final(self).boundary.center == old(self).boundary.center,
            final(self).boundary.half_dim >= old(self).boundary.half_dim,
    {
        let nb = grown_region(self.boundary, p);
        let pts = self.points();
        proof {
            lemma_items(*self);
        }
        let mut t = QTree { boundary: nb, node: Node::Leaf(Vec::new()) };
        assert(t@ =~= pts@.take(0).to_set());
        let mut i: usize = 0;
        while i < pts.len()
            invariant
                i <= pts.len(),
                t.wf(),
                t.boundary == nb,
                t@ == pts@.take(i as int).to_set(),
                forall|x: Point| #[trigger] pts@.contains(x) ==> nb.contains_spec(x),
            decreases pts.len() - i,
        {
            proof {
                assert(pts@.contains(pts@[i as int]));
                assert(pts@.take(i + 1) =~= pts@.take(i as int).push(pts@[i as int]));
                pts@.take(i as int).lemma_push_to_set_commute(pts@[i as int]);
            }
            t.insert_within(pts[i]);
            i = i + 1;
        }
        assert(pts@.take(pts.len() as int) =~= pts@);
        *self = t;
    }

    /// Inserts `p`. A point outside the region first makes the tree grow
    /// around the same center until the region holds it; a point that is
    /// stored already changes nothing.
    pub fn insert(&mut self, p: Point)
        requires
            old(self).wf(),
        ensures
            final(self).wf(),
            final(self)@ == old(self)@.insert(p),
            final(self).boundary == grown_for(old(self).boundary, p),
            final(self).boundary.contains_spec(p),
            final(self).boundary.center == old(self).boundary.center,
            final(self).boundary.half_dim >= old(self).boundary.half_dim,
    {
        if !self.boundary.contains(p) {
            self.extend(p);
        }
        self.insert_within(p);
    }

    /// Removes `p` if it is stored, merging regions that are left with
    /// `CAP` or fewer points. The region stays as it is.
    pub fn remove(&mut self, p: Point)
        requires
            old(self).wf(),
        ensures
            final(self).wf(),
            final(self)@ == old(self)@.remove(p),
            final(self).boundary == old(self).boundary,
    {
        self.remove_within(p);
    }

    /// A tree over `boundary` holding `points`, inserted one by one in order.
    pub fn new(boundary: AABB, points: &Vec<Point>) -> (r: QTree)
        requires
            root_ok(boundary),
        ensures
            r.wf(),
            r@ == points@.to_set(),
            r.boundary == grown_over(boundary, points@),
    {
        let mut t = QTree { boundary, node: Node::Leaf(Vec::new()) };
        assert(t@ =~= points@.take(0).to_set());
        assert(points@.take(0) =~= Seq::<Point>::empty());
        let mut i: usize = 0;
        while i < points.len()
            invariant
                i <= points.len(),
                t.wf(),
                t@ == points@.take(i as int).to_set(),
                t.boundary == grown_over(boundary, points@.take(i as int)),
            decreases points.len() - i,
        {
            proof {
                let s = points@.take(i + 1);
                assert(s =~= points@.take(i as int).push(points@[i as int]));
                assert(s.drop_last() =~= points@.take(i as int));
                points@.take(i as int).lemma_push_to_set_commute(points@[i as int]);
            }
            t.insert(points[i]);
            i = i + 1;
        }
        assert(points@.take(points.len() as int) =~= points@);
        t
    }

    /// Whether a tree may be created over `boundary`: its half-dimension is
    /// positive and at most `MAX_ROOT_HALF_DIM`, and its center has 32-bit
    /// coordinates.
    pub fn fits_root(boundary: &AABB) -> (r: bool)
        ensures
            r == root_ok(*boundary),
    {
        let c = boundary.center;
        let h = boundary.half_dim;
        i32::MIN as i64 <= c.0 && c.0 <= i32::MAX as i64 && i32::MIN as i64 <= c.1 && c.1
            <= i32::MAX as i64 && 1 <= h && h <= MAX_ROOT_HALF_DIM
    }

    /// The region the tree covers.
    pub fn boundary(&self) -> (r: AABB)
        ensures
            r == self.boundary,
    {
        self.boundary
    }

    /// Whether the root is a leaf (rather than subdivided).
    pub fn is_leaf(&self) -> (r: bool)
        ensures
            r == self.is_leaf_spec(),
    {
        match &self.node {
            Node::Leaf(_) => true,
            Node::Internal(..) => false,
        }
    }
}

} // verus!
