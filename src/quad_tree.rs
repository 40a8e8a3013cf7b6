//! A point quadtree over the integer grid.
//!
//! A node keeps up to `capacity` entries in its own bucket. The entry that fills
//! the bucket gives the node four empty children; an entry that reaches a full
//! node goes to every one of its children whose region contains it. Children are
//! never removed, and the bucket of a full node is never moved down. Each child
//! is centered on a quarter point of its parent and has the parent's half
//! extents, so the children overlap one another and together cover the parent.

use vstd::prelude::*;
use crate::geometry::{COORD_LIMIT, IVec2, Rect, rect_spec};

verus! {

/// The bucket size of a node built by `QuadTree::new`.
pub const QUADTREE_SIZE: usize = 1;

/// A position tagged with the index of the body found there.
#[derive(Clone, Copy, Debug, PartialEq, Eq, Structural)]
pub struct QuadTreeEntry {
    pub position: IVec2,
    pub payload: usize,
}

impl QuadTreeEntry {
    pub fn new(position: IVec2, payload: usize) -> (r: QuadTreeEntry)
        ensures
            r.position == position,
            r.payload == payload,
    {
        QuadTreeEntry { position, payload }
    }
}

/// The region of a child: `dx` and `dy` are -1 or 1 and pick the quarter point
/// that the child is centered on.
pub open spec fn quadrant(a: Rect, dx: int, dy: int) -> Rect {
    rect_spec(a.x + dx * (a.half_width / 2), a.y + dy * (a.half_height / 2), a.half_width as int, a.half_height as int)
}

/// The region of a child of a node over `a` that holds a point in index
/// range.
fn quarter(a: &Rect, p: Ghost<IVec2>, dx: i64, dy: i64) -> (r: Rect)
    requires
        area_ok(*a),
        a.contains_spec(p@),
        in_index_range(p@),
        dx == -1 || dx == 1,
        dy == -1 || dy == 1,
    ensures
        r == quadrant(*a, dx as int, dy as int),
        area_ok(r),
{
    let x = a.x + dx * (a.half_width / 2);
    let y = a.y + dy * (a.half_height / 2);
    Rect {
        x,
        y,
        half_width: a.half_width,
        half_height: a.half_height,
        left: x - a.half_width,
        right: x + a.half_width,
        up: y - a.half_height,
        down: y + a.half_height,
    }
}

pub struct QuadTree {
    entries: Vec<QuadTreeEntry>,
    capacity: usize,
    area: Rect,
    sub_trees: Option<Box<Quadrants>>,
}

struct Quadrants {
    top_left: QuadTree,
    top_right: QuadTree,
    bottom_left: QuadTree,
    bottom_right: QuadTree,
}

impl QuadTree {
    /// The region that this node covers.
    pub closed spec fn region(self) -> Rect {
        self.area
    }

    /// How many entries a node keeps before it hands entries to its children.
    pub closed spec fn bucket_capacity(self) -> nat {
        self.capacity as nat
    }

    closed spec fn own_entries(self) -> Set<QuadTreeEntry> {
        Set::new(|e: QuadTreeEntry| self.entries@.contains(e))
    }

    /// Every entry stored in this node or below it.
    pub closed spec fn entry_set(self) -> Set<QuadTreeEntry>
        decreases self,
    {
        match self.sub_trees {
            None => self.own_entries(),
            Some(q) => self.own_entries() + q.top_left.entry_set() + q.top_right.entry_set()
                + q.bottom_left.entry_set() + q.bottom_right.entry_set(),
        }
    }

    /// How many levels of children lie below this node.
    pub closed spec fn height(self) -> nat
        decreases self,
    {
        match self.sub_trees {
            None => 0,
            Some(q) => 1 + vstd::math::max(
                vstd::math::max(q.top_left.height() as int, q.top_right.height() as int),
                vstd::math::max(q.bottom_left.height() as int, q.bottom_right.height() as int),
            ) as nat,
        }
    }

    /// The entries kept in this node's own bucket, in the order they came.
    pub closed spec fn bucket(self) -> Seq<QuadTreeEntry> {
        self.entries@
    }

    /// Whether this node has its four children.
    pub closed spec fn has_children(self) -> bool {
        self.sub_trees is Some
    }

    /// `self` keeps every node of `old` at the same place, over the same region
    /// and with the same capacity: the bucket of each node of `old` begins the
    /// bucket of the matching node of `self`, and children of `old` are still
    /// there.
    pub closed spec fn extends(self, old: QuadTree) -> bool
        decreases self,
    {
        &&& self.area == old.area
        &&& self.capacity == old.capacity
        &&& old.entries@.len() <= self.entries@.len()
        &&& self.entries@.subrange(0, old.entries@.len() as int) == old.entries@
        &&& match old.sub_trees {
            None => true,
            Some(p) => match self.sub_trees {
                None => false,
                Some(q) => {
                    &&& q.top_left.extends(p.top_left)
                    &&& q.top_right.extends(p.top_right)
                    &&& q.bottom_left.extends(p.bottom_left)
                    &&& q.bottom_right.extends(p.bottom_right)
                },
            },
        }
    }

    /// Every tree extends itself.
    pub proof fn lemma_extends_refl(self)
        ensures
            self.extends(self),
        decreases self,
    {
        assert(self.entries@.subrange(0, self.entries@.len() as int) =~= self.entries@);
        match self.sub_trees {
            None => {},
            Some(q) => {
                q.top_left.lemma_extends_refl();
                q.top_right.lemma_extends_refl();
                q.bottom_left.lemma_extends_refl();
                q.bottom_right.lemma_extends_refl();
            },
        }
    }

    /// A tree that extends `old` still has every region of `old`.
    pub proof fn lemma_extends_regions(self, old: QuadTree)
        requires
            self.extends(old),
        ensures
            forall|r: Rect| old.regions_spec().contains(r) ==> #[trigger] self.regions_spec().contains(r),
        decreases self,
    {
        broadcast use vstd::seq_lib::lemma_seq_concat_contains_all_elements;
        assert(self.regions_spec()[0] == self.area);
        assert(self.regions_spec().contains(self.area));
        match old.sub_trees {
            None => {
                assert forall|r: Rect| old.regions_spec().contains(r) implies #[trigger] self.regions_spec().contains(r) by {
                    assert(seq![old.area].contains(r));
                    assert(r == old.area);
                }
            },
            Some(p) => {
                let q = self.sub_trees->0;
                q.top_left.lemma_extends_regions(p.top_left);
                q.top_right.lemma_extends_regions(p.top_right);
                q.bottom_left.lemma_extends_regions(p.bottom_left);
                q.bottom_right.lemma_extends_regions(p.bottom_right);
                let o1 = seq![old.area] + p.top_left.regions_spec();
                let o2 = o1 + p.top_right.regions_spec();
                let o3 = o2 + p.bottom_left.regions_spec();
                let n1 = seq![self.area] + q.top_left.regions_spec();
                let n2 = n1 + q.top_right.regions_spec();
                let n3 = n2 + q.bottom_left.regions_spec();
                assert(old.regions_spec() == o3 + p.bottom_right.regions_spec());
                assert(self.regions_spec() == n3 + q.bottom_right.regions_spec());
                assert forall|r: Rect| old.regions_spec().contains(r) implies #[trigger] self.regions_spec().contains(r) by {
                    assert(o3.contains(r) || p.bottom_right.regions_spec().contains(r));
                    if o3.contains(r) {
                        assert(o2.contains(r) || p.bottom_left.regions_spec().contains(r));
                        if o2.contains(r) {
                            assert(o1.contains(r) || p.top_right.regions_spec().contains(r));
                            if o1.contains(r) {
                                assert(seq![old.area].contains(r) || p.top_left.regions_spec().contains(r));
                                if seq![old.area].contains(r) {
                                    assert(seq![old.area][0] == r);
                                    assert(n1.contains(r));
                                } else {
                                    assert(q.top_left.regions_spec().contains(r));
                                    assert(n1.contains(r));
                                }
                            } else {
                                assert(q.top_right.regions_spec().contains(r));
                            }
                            assert(n2.contains(r));
                        } else {
                            assert(q.bottom_left.regions_spec().contains(r));
                        }
                        assert(n3.contains(r));
                    } else {
                        assert(q.bottom_right.regions_spec().contains(r));
                    }
                }
            },
        }
    }

    closed spec fn child_ok(self, c: QuadTree, dx: int, dy: int) -> bool {
        &&& c.capacity == self.capacity
        &&& c.area == quadrant(self.area, dx, dy)
        &&& forall|e: QuadTreeEntry| #[trigger] c.entry_set().contains(e) ==> self.area.contains_spec(e.position)
    }

    /// The tree's region is well formed and every node in it is sound (see
    /// `node_wf`).
    pub closed spec fn wf(self) -> bool {
        self.area.wf() && self.node_wf()
    }

    /// The node's region is sound, its bucket holds at most `capacity`
    /// entries, every entry below it lies in its region and in index range,
    /// and it has children exactly when its bucket is full.
    closed spec fn node_wf(self) -> bool
        decreases self,
    {
        &&& area_ok(self.area)
        &&& (self.sub_trees is Some <==> self.entries@.len() == self.capacity)
        &&& 1 <= self.capacity
        &&& self.entries@.len() <= self.capacity
        &&& forall|i: int| 0 <= i < self.entries@.len() ==> {
            &&& self.area.contains_spec((#[trigger] self.entries@[i]).position)
            &&& in_index_range(self.entries@[i].position)
        }
        &&& match self.sub_trees {
            None => true,
            Some(q) => {
                &&& q.top_left.node_wf()
                &&& q.top_right.node_wf()
                &&& q.bottom_left.node_wf()
                &&& q.bottom_right.node_wf()
                &&& self.child_ok(q.top_left, -1, -1)
                &&& self.child_ok(q.top_right, 1, -1)
                &&& self.child_ok(q.bottom_left, -1, 1)
                &&& self.child_ok(q.bottom_right, 1, 1)
            }
        }
    }

    /// Every entry below a sound node lies in its region.
    proof fn lemma_entries_in_region(self)
        requires
            self.node_wf(),
        ensures
            forall|e: QuadTreeEntry| #[trigger] self.entry_set().contains(e) ==> self.area.contains_spec(e.position),
        decreases self,
    {
        assert forall|e: QuadTreeEntry| #[trigger] self.own_entries().contains(e) implies self.area.contains_spec(e.position) by {
            let i = choose|i: int| 0 <= i < self.entries@.len() && self.entries@[i] == e;
        }
        match self.sub_trees {
            None => {
                assert(self.entry_set() == self.own_entries());
            },
            Some(q) => {
                q.top_left.lemma_entries_in_region();
                q.top_right.lemma_entries_in_region();
                q.bottom_left.lemma_entries_in_region();
                q.bottom_right.lemma_entries_in_region();
                assert(self.entry_set() == self.own_entries() + q.top_left.entry_set() + q.top_right.entry_set()
                    + q.bottom_left.entry_set() + q.bottom_right.entry_set());
            },
        }
    }
}

/// Both coordinates lie within four times `COORD_LIMIT` of the origin, as
/// every point of a well-formed region does.
spec fn in_index_range(p: IVec2) -> bool {
    -4 * COORD_LIMIT <= p.x <= 4 * COORD_LIMIT && -4 * COORD_LIMIT <= p.y <= 4 * COORD_LIMIT
}

/// The region of a node: the half extents are at most `COORD_LIMIT`, the
/// center lies within six times that, and the bounds are the center plus or
/// minus the half extents. Children may stand further out than their root.
spec fn area_ok(a: Rect) -> bool {
    &&& 0 <= a.half_width <= COORD_LIMIT
    &&& 0 <= a.half_height <= COORD_LIMIT
    &&& -6 * COORD_LIMIT <= a.x <= 6 * COORD_LIMIT
    &&& -6 * COORD_LIMIT <= a.y <= 6 * COORD_LIMIT
    &&& a.left == a.x - a.half_width
    &&& a.right == a.x + a.half_width
    &&& a.up == a.y - a.half_height
    &&& a.down == a.y + a.half_height
}

proof fn lemma_push_contains(s: Seq<QuadTreeEntry>, x: QuadTreeEntry)
    ensures
        forall|y: QuadTreeEntry| #[trigger] s.push(x).contains(y) <==> (s.contains(y) || y == x),
{
    assert forall|y: QuadTreeEntry| #[trigger] s.push(x).contains(y) <==> (s.contains(y) || y == x) by {
        if s.push(x).contains(y) {
            let i = choose|i: int| 0 <= i < s.len() + 1 && s.push(x)[i] == y;
            if i < s.len() {
                assert(s[i] == y);
            }
        }
        if s.contains(y) {
            let i = choose|i: int| 0 <= i < s.len() && s[i] == y;
            assert(s.push(x)[i] == y);
        }
        if y == x {
            assert(s.push(x)[s.len() as int] == y);
        }
    }
}

/// Every point of a well-formed region lies in at least one of its quadrants.
proof fn lemma_quadrants_cover(a: Rect, p: IVec2)
    requires
        area_ok(a),
        a.contains_spec(p),
    ensures
        quadrant(a, -1, -1).contains_spec(p) || quadrant(a, 1, -1).contains_spec(p)
            || quadrant(a, -1, 1).contains_spec(p) || quadrant(a, 1, 1).contains_spec(p),
{
}

impl QuadTree {
    /// An empty index over `area` whose nodes keep `capacity` entries each.
    pub fn with_capacity(area: Rect, capacity: usize) -> (r: QuadTree)
        requires
            area.wf(),
            1 <= capacity,
        ensures
            r.wf(),
            r.region() == area,
            r.bucket_capacity() == capacity,
            r.entry_set() == Set::<QuadTreeEntry>::empty(),
            r.bucket() == Seq::<QuadTreeEntry>::empty(),
            !r.has_children(),
            r.regions_spec() == seq![area],
    {
        let r = QuadTree::empty(area, capacity);
        assert(r.entries@ =~= Seq::<QuadTreeEntry>::empty());
        r
    }

    fn empty(area: Rect, capacity: usize) -> (r: QuadTree)
        requires
            area_ok(area),
            1 <= capacity,
        ensures
            r.entry_set() == Set::<QuadTreeEntry>::empty(),
            r.is_empty_node(area, capacity),
    {
        let r = QuadTree { entries: Vec::new(), capacity, area, sub_trees: None };
        assert(r.entries@.len() == 0);
        assert(r.entry_set() =~= Set::<QuadTreeEntry>::empty());
        r
    }

    /// An empty index over `area` with buckets of `QUADTREE_SIZE`.
    pub fn new(area: Rect) -> (r: QuadTree)
        requires
            area.wf(),
        ensures
            r.wf(),
            r.region() == area,
            r.bucket_capacity() == QUADTREE_SIZE,
            r.entry_set() == Set::<QuadTreeEntry>::empty(),
            r.bucket() == Seq::<QuadTreeEntry>::empty(),
            !r.has_children(),
            r.regions_spec() == seq![area],
    {
        QuadTree::with_capacity(area, QUADTREE_SIZE)
    }

    pub fn area(&self) -> (r: Rect)
        ensures
            r == self.region(),
    {
        self.area
    }

    fn is_full(&self) -> (r: bool)
        ensures
            r == (self.entries@.len() >= self.capacity),
    {
        self.entries.len() >= self.capacity
    }

    /// The four empty children of a full node; `p` is a point of its region.
    fn split(&self, p: IVec2) -> (q: Quadrants)
        requires
            area_ok(self.area),
            1 <= self.capacity,
            self.area.contains_spec(p),
            in_index_range(p),
        ensures
            q.top_left.is_empty_node(quadrant(self.area, -1, -1), self.capacity),
            q.top_right.is_empty_node(quadrant(self.area, 1, -1), self.capacity),
            q.bottom_left.is_empty_node(quadrant(self.area, -1, 1), self.capacity),
            q.bottom_right.is_empty_node(quadrant(self.area, 1, 1), self.capacity),
    {
        let a = self.area;
        let top_left = QuadTree::empty(quarter(&a, Ghost(p), -1, -1), self.capacity);
        let top_right = QuadTree::empty(quarter(&a, Ghost(p), 1, -1), self.capacity);
        let bottom_left = QuadTree::empty(quarter(&a, Ghost(p), -1, 1), self.capacity);
        let bottom_right = QuadTree::empty(quarter(&a, Ghost(p), 1, 1), self.capacity);
        Quadrants { top_left, top_right, bottom_left, bottom_right }
    }

    closed spec fn is_empty_node(self, area: Rect, capacity: usize) -> bool {
        &&& self.node_wf()
        &&& self.entries@.len() == 0
        &&& self.sub_trees is None
        &&& self.area == area
        &&& self.capacity == capacity
    }

    /// Records `entry` in every node whose region contains its position, down
    /// to the nodes whose bucket has room. The entry that fills a bucket gives
    /// that node four empty children. A position outside the region is dropped
    /// and leaves the tree as it was.
    pub fn add(&mut self, entry: QuadTreeEntry)
        requires
            old(self).wf(),
        ensures
            final(self).wf(),
            final(self).region() == old(self).region(),
            final(self).bucket_capacity() == old(self).bucket_capacity(),
            final(self).entry_set() == if old(self).region().contains_spec(entry.position) {
                old(self).entry_set().insert(entry)
            } else {
                old(self).entry_set()
            },
            !old(self).region().contains_spec(entry.position) ==> *final(self) == *old(self),
            final(self).extends(*old(self)),
            forall|r: Rect| old(self).regions_spec().contains(r) ==> #[trigger] final(self).regions_spec().contains(r),
            old(self).region().contains_spec(entry.position) && old(self).bucket().len() < old(self).bucket_capacity()
                ==> final(self).bucket() == old(self).bucket().push(entry),
            old(self).bucket().len() == old(self).bucket_capacity() ==> final(self).bucket() == old(self).bucket(),
            final(self).has_children() == (final(self).bucket().len() == final(self).bucket_capacity()),
            old(self).region().contains_spec(entry.position) && old(self).bucket().len() + 1 == old(self).bucket_capacity()
                ==> final(self).regions_spec() == seq![
                    old(self).region(),
                    quadrant(old(self).region(), -1, -1),
                    quadrant(old(self).region(), 1, -1),
                    quadrant(old(self).region(), -1, 1),
                    quadrant(old(self).region(), 1, 1),
                ],
    {
        self.insert(entry);
    }

    /// What `add` does, on a sound node and a position that is in index range
    /// if it lies in the node's region.
    fn insert(&mut self, entry: QuadTreeEntry)
        requires
            old(self).node_wf(),
            old(self).region().contains_spec(entry.position) ==> in_index_range(entry.position),
        ensures
            final(self).node_wf(),
            final(self).region() == old(self).region(),
            final(self).bucket_capacity() == old(self).bucket_capacity(),
            final(self).entry_set() == if old(self).region().contains_spec(entry.position) {
                old(self).entry_set().insert(entry)
            } else {
                old(self).entry_set()
            },
            !old(self).region().contains_spec(entry.position) ==> *final(self) == *old(self),
            final(self).extends(*old(self)),
            forall|r: Rect| old(self).regions_spec().contains(r) ==> #[trigger] final(self).regions_spec().contains(r),
            old(self).region().contains_spec(entry.position) && old(self).bucket().len() < old(self).bucket_capacity()
                ==> final(self).bucket() == old(self).bucket().push(entry),
            old(self).bucket().len() == old(self).bucket_capacity() ==> final(self).bucket() == old(self).bucket(),
            final(self).has_children() == (final(self).bucket().len() == final(self).bucket_capacity()),
            old(self).region().contains_spec(entry.position) && old(self).bucket().len() + 1 == old(self).bucket_capacity()
                ==> final(self).regions_spec() == seq![
                    old(self).region(),
                    quadrant(old(self).region(), -1, -1),
                    quadrant(old(self).region(), 1, -1),
                    quadrant(old(self).region(), -1, 1),
                    quadrant(old(self).region(), 1, 1),
                ],
        decreases old(self).height(),
    {
        if !self.area.contains(entry.position) {
            proof {
                self.lemma_extends_refl();
                self.lemma_extends_regions(*self);
            }
            return;
        }
        if !self.is_full() {
            self.entries.push(entry);
            assert(self.entries@ == old(self).entries@.push(entry));
            proof {
                lemma_push_contains(old(self).entries@, entry);
            }
            assert(self.own_entries() =~= old(self).own_entries().insert(entry));
            assert(self.sub_trees is None);
            assert(self.entries@.subrange(0, old(self).entries@.len() as int) =~= old(self).entries@);
            if self.is_full() {
                let q = self.split(entry.position);
                self.sub_trees = Some(Box::new(q));
                assert(q.top_left.entry_set() =~= Set::<QuadTreeEntry>::empty());
                assert(q.top_right.entry_set() =~= Set::<QuadTreeEntry>::empty());
                assert(q.bottom_left.entry_set() =~= Set::<QuadTreeEntry>::empty());
                assert(q.bottom_right.entry_set() =~= Set::<QuadTreeEntry>::empty());
                assert(q.top_left.regions_spec() == seq![q.top_left.area]);
                assert(q.top_right.regions_spec() == seq![q.top_right.area]);
                assert(q.bottom_left.regions_spec() == seq![q.bottom_left.area]);
                assert(q.bottom_right.regions_spec() == seq![q.bottom_right.area]);
                assert(self.regions_spec() =~= seq![
                    self.area,
                    quadrant(self.area, -1, -1),
                    quadrant(self.area, 1, -1),
                    quadrant(self.area, -1, 1),
                    quadrant(self.area, 1, 1),
                ]);
            }
            assert(self.entry_set() =~= old(self).entry_set().insert(entry));
            proof {
                self.lemma_extends_regions(*old(self));
            }
            return;
        }
        let ghost old_own = self.own_entries();
        // A full sound node has its children.
        let mut q = match self.sub_trees.take() {
            Some(b) => *b,
            None => vstd::pervasive::unreached(),
        };
        proof {
            lemma_quadrants_cover(self.area, entry.position);
        }
        q.top_left.insert(entry);
        q.top_right.insert(entry);
        q.bottom_left.insert(entry);
        q.bottom_right.insert(entry);
        self.sub_trees = Some(Box::new(q));
        assert(self.own_entries() == old_own);
        assert(self.entry_set() =~= old(self).entry_set().insert(entry));
        assert(self.entries@.subrange(0, old(self).entries@.len() as int) =~= old(self).entries@);
        proof {
            self.lemma_extends_regions(*old(self));
        }
    }

    /// `found` holds the stored entries whose position lies in `query`, each
    /// at least once, and nothing else.
    pub open spec fn reports(self, query: Rect, found: Seq<QuadTreeEntry>) -> bool {
        &&& forall|i: int| 0 <= i < found.len() ==> {
            &&& self.entry_set().contains(#[trigger] found[i])
            &&& query.contains_spec(found[i].position)
        }
        &&& forall|e: QuadTreeEntry| #[trigger] self.entry_set().contains(e) && query.contains_spec(e.position)
            ==> found.contains(e)
    }

    /// Appends to `result` the stored entries whose position lies in `query`:
    /// each such entry at least once, in no promised order, and nothing else.
    pub fn query_entries(&self, query: &Rect, result: &mut Vec<QuadTreeEntry>)
        requires
            self.wf(),
        ensures
            old(result)@.len() <= final(result)@.len(),
            final(result)@.subrange(0, old(result)@.len() as int) == old(result)@,
            self.reports(*query, final(result)@.subrange(old(result)@.len() as int, final(result)@.len() as int)),
        decreases self,
    {
        let ghost start = result@.len();
        self.collect(query, result);
        proof {
            let found = result@.subrange(start as int, result@.len() as int);
            assert forall|e: QuadTreeEntry| #[trigger] self.entry_set().contains(e) && query.contains_spec(e.position)
                implies found.contains(e) by {
                let k = choose|k: int| start <= k < result@.len() && result@[k] == e;
                assert(found[k - start] == e);
            }
        }
    }

    fn collect(&self, query: &Rect, result: &mut Vec<QuadTreeEntry>)
        requires
            self.node_wf(),
        ensures
            old(result)@.len() <= final(result)@.len(),
            final(result)@.subrange(0, old(result)@.len() as int) == old(result)@,
            forall|i: int| old(result)@.len() <= i < final(result)@.len() ==> {
                &&& self.entry_set().contains(#[trigger] final(result)@[i])
                &&& query.contains_spec(final(result)@[i].position)
            },
            forall|e: QuadTreeEntry| #[trigger] self.entry_set().contains(e) && query.contains_spec(e.position)
                ==> exists|i: int| old(result)@.len() <= i < final(result)@.len() && final(result)@[i] == e,
        decreases self,
    {
        proof {
            self.lemma_entries_in_region();
        }
        if !self.area.overlap(query) {
            assert forall|e: QuadTreeEntry| #[trigger] self.entry_set().contains(e) implies !query.contains_spec(e.position) by {
                if query.contains_spec(e.position) {
                    crate::geometry::lemma_common_point_overlaps(self.area, *query, e.position);
                }
            }
            assert(result@.subrange(0, result@.len() as int) =~= result@);
            return;
        }
        let ghost start = result@.len();
        let mut i: usize = 0;
        while i < self.entries.len()
            invariant
                self.node_wf(),
                i <= self.entries@.len(),
                start == old(result)@.len(),
                start <= result@.len(),
                result@.subrange(0, start as int) == old(result)@,
                forall|k: int| start <= k < result@.len() ==> {
                    &&& self.entries@.contains(#[trigger] result@[k])
                    &&& query.contains_spec(result@[k].position)
                },
                forall|j: int| 0 <= j < i && query.contains_spec(self.entries@[j].position)
                    ==> exists|k: int| start <= k < result@.len() && result@[k] == #[trigger] self.entries@[j],
            decreases self.entries@.len() - i,
        {
            let e = self.entries[i];
            if query.contains(e.position) {
                let ghost before = result@;
                result.push(e);
                assert(result@[before.len() as int] == e);
                assert forall|k: int| start <= k < result@.len() implies {
                    &&& self.entries@.contains(#[trigger] result@[k])
                    &&& query.contains_spec(result@[k].position)
                } by {
                    if k < before.len() {
                        assert(result@[k] == before[k]);
                    } else {
                        assert(self.entries@[i as int] == e);
                    }
                }
                assert forall|j: int| 0 <= j < i + 1 && query.contains_spec(self.entries@[j].position)
                    implies exists|k: int| start <= k < result@.len() && result@[k] == #[trigger] self.entries@[j] by {
                    if j < i {
                        let k = choose|k: int| start <= k < before.len() && before[k] == self.entries@[j];
                        assert(result@[k] == before[k]);
                    } else {
                        assert(result@[before.len() as int] == self.entries@[j]);
                    }
                }
                assert(result@.subrange(0, start as int) =~= before.subrange(0, start as int));
            }
            i = i + 1;
        }
        let ghost own_found = result@;
        assert forall|e: QuadTreeEntry| #[trigger] self.own_entries().contains(e) && query.contains_spec(e.position)
            implies exists|k: int| start <= k < own_found.len() && own_found[k] == e by {
            let j = choose|j: int| 0 <= j < self.entries@.len() && self.entries@[j] == e;
        }
        match &self.sub_trees {
            None => {
                assert(self.entry_set() == self.own_entries());
            },
            Some(q) => {
                assert(self.entry_set() == self.own_entries() + q.top_left.entry_set() + q.top_right.entry_set()
                    + q.bottom_left.entry_set() + q.bottom_right.entry_set());
                let ghost r0 = result@;
                q.top_left.collect(query, result);
                let ghost r1 = result@;
                q.top_right.collect(query, result);
                let ghost r2 = result@;
                q.bottom_left.collect(query, result);
                let ghost r3 = result@;
                q.bottom_right.collect(query, result);
                let ghost r4 = result@;
                assert(r4.subrange(0, r3.len() as int) == r3);
                assert(r3.subrange(0, r2.len() as int) == r2);
                assert(r2.subrange(0, r1.len() as int) == r1);
                assert(r1.subrange(0, r0.len() as int) == r0);
                assert forall|k: int| 0 <= k < r3.len() implies r4[k] == r3[k] by {
                    assert(r4.subrange(0, r3.len() as int)[k] == r3[k]);
                }
                assert forall|k: int| 0 <= k < r2.len() implies r4[k] == r2[k] by {
                    assert(r3.subrange(0, r2.len() as int)[k] == r2[k]);
                    assert(r4.subrange(0, r3.len() as int)[k] == r3[k]);
                }
                assert forall|k: int| 0 <= k < r1.len() implies r4[k] == r1[k] by {
                    assert(r2.subrange(0, r1.len() as int)[k] == r1[k]);
                    assert(r3.subrange(0, r2.len() as int)[k] == r2[k]);
                    assert(r4.subrange(0, r3.len() as int)[k] == r3[k]);
                }
                assert forall|k: int| 0 <= k < r0.len() implies r4[k] == r0[k] by {
                    assert(r1.subrange(0, r0.len() as int)[k] == r0[k]);
                    assert(r2.subrange(0, r1.len() as int)[k] == r1[k]);
                    assert(r3.subrange(0, r2.len() as int)[k] == r2[k]);
                    assert(r4.subrange(0, r3.len() as int)[k] == r3[k]);
                }
                assert(r4.subrange(0, start as int) =~= r0.subrange(0, start as int));
                assert forall|k: int| start <= k < r4.len() implies {
                    &&& self.entry_set().contains(#[trigger] r4[k])
                    &&& query.contains_spec(r4[k].position)
                } by {
                    if k < r0.len() {
                        assert(self.own_entries().contains(r0[k]));
                    } else if k < r1.len() {
                        assert(q.top_left.entry_set().contains(r1[k]));
                    } else if k < r2.len() {
                        assert(q.top_right.entry_set().contains(r2[k]));
                    } else if k < r3.len() {
                        assert(q.bottom_left.entry_set().contains(r3[k]));
                    }
                }
                assert forall|e: QuadTreeEntry| #[trigger] self.entry_set().contains(e) && query.contains_spec(e.position)
                    implies exists|k: int| start <= k < r4.len() && r4[k] == e by {
                    if self.own_entries().contains(e) {
                        let k = choose|k: int| start <= k < r0.len() && r0[k] == e;
                        assert(r4[k] == e);
                    } else if q.top_left.entry_set().contains(e) {
                        let k = choose|k: int| r0.len() <= k < r1.len() && r1[k] == e;
                        assert(r4[k] == e);
                    } else if q.top_right.entry_set().contains(e) {
                        let k = choose|k: int| r1.len() <= k < r2.len() && r2[k] == e;
                        assert(r4[k] == e);
                    } else if q.bottom_left.entry_set().contains(e) {
                        let k = choose|k: int| r2.len() <= k < r3.len() && r3[k] == e;
                        assert(r4[k] == e);
                    } else {
                        let k = choose|k: int| r3.len() <= k < r4.len() && r4[k] == e;
                    }
                }
            },
        }
    }

    /// A fresh index over `area` holding each of `entries` whose position lies
    /// in `area`, with `payload`s as given.
    pub fn from_entries(area: Rect, entries: &Vec<QuadTreeEntry>) -> (r: QuadTree)
        requires
            area.wf(),
        ensures
            r.wf(),
            r.region() == area,
            r.bucket_capacity() == QUADTREE_SIZE,
            r.entry_set() == inserted(area, entries@),
    {
        let mut t = QuadTree::new(area);
        let mut i: usize = 0;
        while i < entries.len()
            invariant
                i <= entries@.len(),
                t.wf(),
                t.region() == area,
                t.bucket_capacity() == QUADTREE_SIZE,
                t.entry_set() == inserted(area, entries@.subrange(0, i as int)),
            decreases entries@.len() - i,
        {
            let e = entries[i];
            t.add(e);
            assert(entries@.subrange(0, i + 1) == entries@.subrange(0, i as int).push(e));
            proof {
                lemma_push_contains(entries@.subrange(0, i as int), e);
            }
            assert(t.entry_set() =~= inserted(area, entries@.subrange(0, i + 1)));
            i = i + 1;
        }
        assert(entries@.subrange(0, i as int) == entries@);
        t
    }

    /// The regions of this node and of every node below it, each node before
    /// its children.
    pub closed spec fn regions_spec(self) -> Seq<Rect>
        decreases self,
    {
        match self.sub_trees {
            None => seq![self.area],
            Some(q) => seq![self.area] + q.top_left.regions_spec() + q.top_right.regions_spec()
                + q.bottom_left.regions_spec() + q.bottom_right.regions_spec(),
        }
    }

    /// The region of every node, this one first.
    pub fn regions(&self) -> (r: Vec<Rect>)
        ensures
            r@ == self.regions_spec(),
            r@.len() >= 1,
            r@[0] == self.region(),
    {
        let mut r: Vec<Rect> = Vec::new();
        self.push_regions(&mut r);
        assert(r@ =~= self.regions_spec());
        r
    }

    fn push_regions(&self, out: &mut Vec<Rect>)
        ensures
            final(out)@ == old(out)@ + self.regions_spec(),
        decreases self,
    {
        out.push(self.area);
        match &self.sub_trees {
            None => {
                assert(old(out)@ + self.regions_spec() =~= old(out)@.push(self.area));
            },
            Some(q) => {
                q.top_left.push_regions(out);
                q.top_right.push_regions(out);
                q.bottom_left.push_regions(out);
                q.bottom_right.push_regions(out);
                assert(out@ =~= old(out)@ + self.regions_spec());
            },
        }
    }
}

/// The entries of `es` whose position lies in `area`: what an index built
/// over `area` from `es` holds.
pub open spec fn inserted(area: Rect, es: Seq<QuadTreeEntry>) -> Set<QuadTreeEntry> {
    Set::new(|e: QuadTreeEntry| es.contains(e) && area.contains_spec(e.position))
}

/// Query completeness: of the entries given to an index built over `area`,
/// every one whose position lies in both `area` and the query rectangle is
/// among the entries that the query reports.
pub proof fn lemma_query_complete(
    t: QuadTree,
    area: Rect,
    es: Seq<QuadTreeEntry>,
    query: Rect,
    found: Seq<QuadTreeEntry>,
)
    requires
        t.entry_set() == inserted(area, es),
        t.reports(query, found),
    ensures
        forall|i: int| 0 <= i < es.len() && area.contains_spec(es[i].position) && query.contains_spec(es[i].position)
            ==> found.contains(#[trigger] es[i]),
{
    assert forall|i: int| 0 <= i < es.len() && area.contains_spec(es[i].position) && query.contains_spec(es[i].position)
        implies found.contains(#[trigger] es[i]) by {
        assert(es.contains(es[i]));
        assert(t.entry_set().contains(es[i]));
    }
}

} // verus!