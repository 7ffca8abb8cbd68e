use vstd::prelude::*;
use vstd::seq_lib::*;
use vstd::multiset::Multiset;
use crate::geom::{dist_sq_point_to_rect, dist_sq_points, lemma_rect_dist_le, point_dist_sq, Point, Rect};

verus! {

broadcast use {group_to_multiset_ensures, lemma_multiset_commutative, group_seq_lib_default};

/// A point tagged with an outside identifier. Two items are the same item when
/// both the identifier and the point are equal.
#[derive(Clone, Copy, Debug, PartialEq, Eq, Structural)]
pub struct Item {
    pub id: u64,
    pub point: Point,
}

/// Midpoint of `[lo, hi)`, rounded down; `lo` for an empty interval.
pub open spec fn mid(lo: int, hi: int) -> int {
    if hi > lo {
        lo + (hi - lo) / 2
    } else {
        lo
    }
}

/// The quadrant of `b` with index `q`: bit 0 picks the upper half in x, bit 1 the
/// upper half in y.
pub open spec fn quadrant_rect(b: Rect, q: int) -> Rect {
    let mx = mid(b.min_x as int, b.max_x as int) as i32;
    let my = mid(b.min_y as int, b.max_y as int) as i32;
    Rect {
        min_x: if q % 2 == 1 { mx } else { b.min_x },
        max_x: if q % 2 == 1 { b.max_x } else { mx },
        min_y: if q >= 2 { my } else { b.min_y },
        max_y: if q >= 2 { b.max_y } else { my },
    }
}

/// Index of the quadrant of `b` that a point falls in, by comparison with the midpoint.
pub open spec fn quadrant_of(b: Rect, p: Point) -> int {
    (if p.x >= mid(b.min_x as int, b.max_x as int) { 1int } else { 0int }) + (if p.y >= mid(
        b.min_y as int,
        b.max_y as int,
    ) {
        2int
    } else {
        0int
    })
}

/// `v` when positive, else 0.
pub open spec fn pos(v: int) -> nat {
    if v > 0 {
        v as nat
    } else {
        0
    }
}

/// Sum of the side lengths; it shrinks at every split.
pub open spec fn extent(b: Rect) -> nat {
    pos(b.max_x - b.min_x) + pos(b.max_y - b.min_y)
}

/// A rectangle can be cut into smaller quadrants when one side is at least 2 long.
pub open spec fn splittable(b: Rect) -> bool {
    b.max_x - b.min_x >= 2 || b.max_y - b.min_y >= 2
}

/// A depth budget that still allows one more split.
pub open spec fn budget_allows(d: Option<usize>) -> bool {
    d != Some(0usize)
}

/// The depth budget handed to children.
pub open spec fn child_budget(d: Option<usize>) -> Option<usize> {
    match d {
        Some(n) => Some((n - 1) as usize),
        None => None,
    }
}

/// The items of `s` whose point lies in `r`, in order.
pub open spec fn in_range(s: Seq<Item>, r: Rect) -> Seq<Item> {
    s.filter(|it: Item| r.holds(it.point))
}

pub proof fn lemma_quadrants(b: Rect, p: Point)
    ensures
        0 <= quadrant_of(b, p) < 4,
        forall|q: int|
            0 <= q < 4 ==> (#[trigger] quadrant_rect(b, q).holds(p) <==> (b.holds(p)
                && quadrant_of(b, p) == q)),
{
}

pub proof fn lemma_quadrant_extent(b: Rect, q: int)
    requires
        splittable(b),
        0 <= q < 4,
    ensures
        extent(quadrant_rect(b, q)) < extent(b),
{
}


/// A sequence of items inside `b` has none in a range that `b` does not overlap.
pub proof fn lemma_in_range_disjoint(s: Seq<Item>, b: Rect, r: Rect)
    requires
        forall|i: int| 0 <= i < s.len() ==> b.holds(#[trigger] s[i].point),
        !b.overlaps(r),
    ensures
        in_range(s, r) == Seq::<Item>::empty(),
    decreases s.len(),
{
    reveal(Seq::filter);
    if s.len() > 0 {
        let t = s.drop_last();
        assert forall|i: int| 0 <= i < t.len() implies b.holds(#[trigger] t[i].point) by {
            assert(t[i] == s[i]);
        }
        lemma_in_range_disjoint(t, b, r);
        assert(b.holds(s[s.len() - 1].point));
    }
}

/// Filtering one more element of a prefix.
pub proof fn lemma_in_range_step(s: Seq<Item>, i: int, r: Rect)
    requires
        0 <= i < s.len(),
    ensures
        in_range(s.take(i + 1), r) == if r.holds(s[i].point) {
            in_range(s.take(i), r).push(s[i])
        } else {
            in_range(s.take(i), r)
        },
{
    reveal(Seq::filter);
    assert(s.take(i + 1).drop_last() =~= s.take(i));
}


/// `a` comes strictly before `b` in nearest-neighbour order from `p`: it is closer,
/// or as close with a smaller id.
pub open spec fn nearer(p: Point, a: Item, b: Item) -> bool {
    point_dist_sq(a.point, p) < point_dist_sq(b.point, p) || (point_dist_sq(a.point, p)
        == point_dist_sq(b.point, p) && a.id < b.id)
}

/// `a` does not come after `b` in nearest-neighbour order from `p`.
pub open spec fn not_after(p: Point, a: Item, b: Item) -> bool {
    !nearer(p, b, a)
}

/// `best` is a correct answer for the `k` nearest neighbours of `p` among `seen`:
/// it has `min(k, |seen|)` items taken from `seen`, sorted in nearest-neighbour
/// order, and every item of `seen` left out comes no earlier than the last one.
pub open spec fn knn_ok(p: Point, k: nat, best: Seq<Item>, seen: Multiset<Item>) -> bool {
    &&& best.len() == if k < seen.len() { k } else { seen.len() }
    &&& forall|a: int, b: int| 0 <= a < b < best.len() ==> not_after(p, best[a], best[b])
    &&& best.to_multiset().subset_of(seen)
    &&& best.len() < k ==> best.to_multiset() == seen
    &&& forall|it: Item|
        seen.count(it) > best.to_multiset().count(it) ==> (best.len() > 0 ==> not_after(p, best.last(), it))
}

/// Items inside a rectangle farther from `p` than the worst of `k` held candidates
/// leave the candidates correct.
pub proof fn lemma_prune(p: Point, k: nat, bs: Seq<Item>, seen: Multiset<Item>, m: Seq<Item>, b: Rect)
    requires
        knn_ok(p, k, bs, seen),
        bs.len() == k,
        k > 0,
        forall|i: int| 0 <= i < m.len() ==> b.holds(#[trigger] m[i].point),
        b.dist_sq_to(p) > point_dist_sq(bs.last().point, p),
    ensures
        knn_ok(p, k, bs, seen.add(m.to_multiset())),
{
    broadcast use vstd::multiset::group_multiset_axioms;
    broadcast use vstd::seq_lib::group_to_multiset_ensures;
    let all = seen.add(m.to_multiset());
    assert forall|it: Item| all.count(it) > bs.to_multiset().count(it) implies (bs.len() > 0 ==> not_after(p, bs.last(), it)) by {
        if seen.count(it) <= bs.to_multiset().count(it) {
            assert(m.to_multiset().count(it) > 0);
            assert(m.contains(it));
            let j = choose|j: int| 0 <= j < m.len() && m[j] == it;
            assert(b.holds(m[j].point));
            lemma_rect_dist_le(b, p, it.point);
        }
    }
    assert(bs.to_multiset().subset_of(all));
    assert(all.len() >= seen.len());
}

/// Exact nearest-neighbour comparison.
fn nearer_exec(p: &Point, a: &Item, b: &Item) -> (r: bool)
    ensures
        r == nearer(*p, *a, *b),
{
    let da = dist_sq_points(&a.point, p);
    let db = dist_sq_points(&b.point, p);
    da < db || (da == db && a.id < b.id)
}

/// Offers one more item to a sorted candidate list of at most `k` items.
fn offer(best: &mut Vec<Item>, p: &Point, k: usize, x: Item, Ghost(seen): Ghost<Multiset<Item>>)
    requires
        k > 0,
        knn_ok(*p, k as nat, old(best)@, seen),
    ensures
        knn_ok(*p, k as nat, final(best)@, seen.insert(x)),
{
    broadcast use vstd::multiset::group_multiset_axioms;
    let ghost b0 = best@;
    let n = best.len();
    if n == k && !nearer_exec(p, &x, &best[n - 1]) {
        assert forall|it: Item| seen.insert(x).count(it) > b0.to_multiset().count(it) implies b0.len() > 0 && not_after(*p, b0.last(), it) by {
            if it != x {
                assert(seen.count(it) > b0.to_multiset().count(it));
            }
        }
        return;
    }
    let mut j: usize = 0;
    while j < best.len() && !nearer_exec(p, &x, &best[j])
        invariant
            0 <= j <= best@.len(),
            best@ == b0,
            forall|t: int| 0 <= t < j ==> not_after(*p, #[trigger] b0[t], x),
        decreases best@.len() - j,
    {
        j += 1;
    }
    assert(j == n || nearer(*p, x, b0[j as int]));
    best.insert(j, x);
    let ghost b1 = best@;
    assert(b1 == b0.insert(j as int, x));
    assert(b1.to_multiset() == b0.to_multiset().insert(x)) by {
        broadcast use vstd::seq_lib::group_to_multiset_ensures;
    }
    assert forall|a: int, b: int| 0 <= a < b < b1.len() implies not_after(*p, b1[a], b1[b]) by {
        if a < j && b == j {
        } else if a < j && b > j {
            assert(b1[b] == b0[b - 1]);
            assert(not_after(*p, b0[a], b0[b - 1]));
        } else if a == j {
            assert(b1[b] == b0[b - 1]);
            if b - 1 > j {
                assert(not_after(*p, b0[j as int], b0[b - 1]));
            }
        } else if a > j {
            assert(b1[a] == b0[a - 1] && b1[b] == b0[b - 1]);
        }
    }
    if best.len() > k {
        let ghost last = b0[n - 1];
        assert(b1.last() == last);
        let dropped = best.pop();
        let ghost b2 = best@;
        assert(b2 == b1.drop_last());
        assert(b1 =~= b2.push(last));
        assert(b1.to_multiset() == b2.to_multiset().insert(last)) by {
            broadcast use vstd::seq_lib::group_to_multiset_ensures;
        }
        assert(b2.len() == k);
        assert(not_after(*p, b2.last(), last)) by {
            if j == n - 1 {
                assert(b2.last() == x);
            } else {
                assert(b2.last() == b0[n - 2]);
            }
        }
        assert forall|it: Item| seen.insert(x).count(it) > b2.to_multiset().count(it) implies b2.len() > 0 && not_after(*p, b2.last(), it) by {
            assert(b1.to_multiset().count(it) == b2.to_multiset().count(it) + (if it == last { 1int } else { 0int }));
            assert(b1.to_multiset().count(it) == b0.to_multiset().count(it) + (if it == x { 1int } else { 0int }));
            if it != last {
                assert(seen.count(it) > b0.to_multiset().count(it));
                assert(b0.last() == last);
                assert(not_after(*p, b0.last(), it));
            }
        }
        assert(b2.to_multiset().subset_of(seen.insert(x))) by {
            assert forall|it: Item| b2.to_multiset().count(it) <= seen.insert(x).count(it) by {
                assert(b1.to_multiset().count(it) == b2.to_multiset().count(it) + (if it == last { 1int } else { 0int }));
                assert(b1.to_multiset().count(it) == b0.to_multiset().count(it) + (if it == x { 1int } else { 0int }));
                assert(b0.to_multiset().count(it) <= seen.count(it));
            }
        }
    } else {
        assert(b0.len() < k);
        assert(b1.to_multiset() =~= seen.insert(x));
    }
}

/// `s` starts with `b`, and each later rectangle is a quadrant of an earlier one.
pub open spec fn nested_from(s: Seq<Rect>, b: Rect) -> bool {
    &&& s.len() > 0
    &&& s[0] == b
    &&& forall|i: int|
        0 < i < s.len() ==> exists|j: int, q: int|
            0 <= j < i && 0 <= q < 4 && #[trigger] s[i] == quadrant_rect(s[j], q)
}

/// Most nodes a tree with depth budget `d` can have: a full four-way tree of `d`
/// levels below the root.
pub open spec fn max_nodes(d: nat) -> nat
    decreases d,
{
    if d == 0 {
        1
    } else {
        1 + 4 * max_nodes((d - 1) as nat)
    }
}

/// Appending the rectangles of the subtree of quadrant `q` keeps the nesting.
pub proof fn lemma_nested_append(a: Seq<Rect>, t: Seq<Rect>, b: Rect, q: int)
    requires
        nested_from(a, b),
        nested_from(t, quadrant_rect(b, q)),
        0 <= q < 4,
    ensures
        nested_from(a + t, b),
{
    let s = a + t;
    assert(s[0] == a[0]);
    assert forall|i: int| 0 < i < s.len() implies exists|j: int, q2: int|
        0 <= j < i && 0 <= q2 < 4 && #[trigger] s[i] == quadrant_rect(s[j], q2) by {
        if i < a.len() {
            let (j, q2) = choose|j: int, q2: int| 0 <= j < i && 0 <= q2 < 4 && #[trigger] a[i] == quadrant_rect(a[j], q2);
            assert(s[i] == a[i] && s[j] == a[j]);
        } else if i == a.len() {
            assert(s[i] == t[0] && s[0] == a[0]);
        } else {
            let k = i - a.len();
            let (j, q2) = choose|j: int, q2: int| 0 <= j < k && 0 <= q2 < 4 && #[trigger] t[k] == quadrant_rect(t[j], q2);
            assert(s[i] == t[k] && s[j + a.len()] == t[j]);
        }
    }
}

/// The four children of an internal node, one per quadrant.
pub struct Quads {
    q0: QuadTree,
    q1: QuadTree,
    q2: QuadTree,
    q3: QuadTree,
}

/// An adaptive point quadtree: a node is a leaf holding items, or an internal node
/// whose four children partition its boundary into equal quadrants.
pub struct QuadTree {
    boundary: Rect,
    capacity: usize,
    max_depth: Option<usize>,
    items: Vec<Item>,
    children: Option<Box<Quads>>,
}

/// The four children fit quadrant by quadrant under a node with boundary `b`,
/// capacity `cap` and depth budget `d`, and are each well formed.
pub closed spec fn quads_ok(c: Quads, b: Rect, cap: usize, d: Option<usize>) -> bool {
    &&& c.q0.boundary == quadrant_rect(b, 0) && c.q0.capacity == cap && c.q0.max_depth == child_budget(d) && c.q0.wf()
    &&& c.q1.boundary == quadrant_rect(b, 1) && c.q1.capacity == cap && c.q1.max_depth == child_budget(d) && c.q1.wf()
    &&& c.q2.boundary == quadrant_rect(b, 2) && c.q2.capacity == cap && c.q2.max_depth == child_budget(d) && c.q2.wf()
    &&& c.q3.boundary == quadrant_rect(b, 3) && c.q3.capacity == cap && c.q3.max_depth == child_budget(d) && c.q3.wf()
}

/// Number of rectangles under the four children.
pub closed spec fn quads_rects_len(c: Quads) -> nat {
    c.q0.rects().len() + c.q1.rects().len() + c.q2.rects().len() + c.q3.rects().len()
}

/// The items of the four children, in quadrant order.
pub closed spec fn quads_model(c: Quads) -> Seq<Item> {
    c.q0.model() + c.q1.model() + c.q2.model() + c.q3.model()
}

/// Midpoint of `[lo, hi)`, rounded down.
fn mid_of(lo: i32, hi: i32) -> (m: i32)
    ensures
        m as int == mid(lo as int, hi as int),
{
    if hi > lo {
        (lo as i64 + (hi as i64 - lo as i64) / 2) as i32
    } else {
        lo
    }
}


/// The child of quadrant `q`.
pub closed spec fn child_at(c: Quads, q: int) -> QuadTree {
    if q == 0 {
        c.q0
    } else if q == 1 {
        c.q1
    } else if q == 2 {
        c.q2
    } else {
        c.q3
    }
}

/// The child of quadrant `q`.
fn child_ref(c: &Quads, q: u8) -> (r: &QuadTree)
    requires
        q < 4,
    ensures
        *r == child_at(*c, q as int),
{
    if q == 0 {
        &c.q0
    } else if q == 1 {
        &c.q1
    } else if q == 2 {
        &c.q2
    } else {
        &c.q3
    }
}

/// Puts two (distance, quadrant) pairs in ascending order of distance.
fn order_pair(oa: &mut u8, ea: &mut u128, ob: &mut u8, eb: &mut u128)
    ensures
        *final(ea) <= *final(eb),
        (*final(oa) == *old(oa) && *final(ob) == *old(ob) && *final(ea) == *old(ea) && *final(eb) == *old(eb))
            || (*final(oa) == *old(ob) && *final(ob) == *old(oa) && *final(ea) == *old(eb) && *final(eb) == *old(ea)),
{
    if *eb < *ea {
        let to = *oa;
        *oa = *ob;
        *ob = to;
        let te = *ea;
        *ea = *eb;
        *eb = te;
    }
}

impl QuadTree {
    /// Every item under this node, in pre-order.
    pub closed spec fn model(&self) -> Seq<Item>
        decreases self,
    {
        match &self.children {
            None => self.items@,
            Some(c) => self.items@ + c.q0.model() + c.q1.model() + c.q2.model() + c.q3.model(),
        }
    }

    pub closed spec fn bounds(&self) -> Rect {
        self.boundary
    }

    pub closed spec fn cap(&self) -> usize {
        self.capacity
    }

    pub closed spec fn depth_budget(&self) -> Option<usize> {
        self.max_depth
    }

    pub closed spec fn is_leaf(&self) -> bool {
        self.children.is_none()
    }

    /// Same boundary, capacity and depth budget.
    pub open spec fn same_frame(self, other: QuadTree) -> bool {
        self.bounds() == other.bounds() && self.cap() == other.cap() && self.depth_budget()
            == other.depth_budget()
    }

    /// `c` is a proper child of this node for quadrant `q`.
    pub closed spec fn child_fits(&self, c: &QuadTree, q: int) -> bool {
        c.boundary == quadrant_rect(self.boundary, q) && c.capacity == self.capacity
            && c.max_depth == child_budget(self.max_depth) && c.wf()
    }

    /// An internal node holds more items than its capacity.
    pub closed spec fn counted(&self) -> bool {
        self.children.is_some() ==> self.model().len() > self.capacity
    }

    /// Structure of the node and its subtree, apart from its own `counted`.
    pub closed spec fn node_ok(&self) -> bool
        decreases self,
    {
        &&& forall|i: int| 0 <= i < self.items@.len() ==> self.boundary.holds(#[trigger] self.items@[i].point)
        &&& match &self.children {
            None => self.items@.len() <= self.capacity || !splittable(self.boundary) || !budget_allows(self.max_depth),
            Some(c) => {
                &&& self.items@.len() == 0
                &&& splittable(self.boundary)
                &&& budget_allows(self.max_depth)
                &&& c.q0.boundary == quadrant_rect(self.boundary, 0)
                &&& c.q1.boundary == quadrant_rect(self.boundary, 1)
                &&& c.q2.boundary == quadrant_rect(self.boundary, 2)
                &&& c.q3.boundary == quadrant_rect(self.boundary, 3)
                &&& c.q0.capacity == self.capacity && c.q1.capacity == self.capacity
                &&& c.q2.capacity == self.capacity && c.q3.capacity == self.capacity
                &&& c.q0.max_depth == child_budget(self.max_depth)
                &&& c.q1.max_depth == child_budget(self.max_depth)
                &&& c.q2.max_depth == child_budget(self.max_depth)
                &&& c.q3.max_depth == child_budget(self.max_depth)
                &&& c.q0.node_ok() && c.q0.counted()
                &&& c.q1.node_ok() && c.q1.counted()
                &&& c.q2.node_ok() && c.q2.counted()
                &&& c.q3.node_ok() && c.q3.counted()
            },
        }
    }

    /// The tree's invariant.
    pub closed spec fn wf(&self) -> bool {
        self.node_ok() && self.counted() && self.model().len() <= usize::MAX
    }

    /// Every item under a well-formed node lies in its boundary.
    pub proof fn lemma_model_inside(&self)
        requires
            self.node_ok(),
        ensures
            forall|i: int| 0 <= i < self.model().len() ==> self.bounds().holds(#[trigger] self.model()[i].point),
        decreases self,
    {
        match &self.children {
            None => {},
            Some(c) => {
                c.q0.lemma_model_inside();
                c.q1.lemma_model_inside();
                c.q2.lemma_model_inside();
                c.q3.lemma_model_inside();
                let m = self.model();
                assert forall|i: int| 0 <= i < m.len() implies self.bounds().holds(#[trigger] m[i].point) by {
                    let p = m[i].point;
                    lemma_quadrants(self.boundary, p);
                    let l0 = c.q0.model().len();
                    let l1 = c.q1.model().len();
                    let l2 = c.q2.model().len();
                    if i < l0 {
                        assert(m[i] == c.q0.model()[i]);
                    } else if i < l0 + l1 {
                        assert(m[i] == c.q1.model()[i - l0]);
                    } else if i < l0 + l1 + l2 {
                        assert(m[i] == c.q2.model()[i - l0 - l1]);
                    } else {
                        assert(m[i] == c.q3.model()[i - l0 - l1 - l2]);
                    }
                }
            },
        }
    }

    /// The rectangles of a well-formed subtree start with its boundary, and each later
    /// one is a quadrant of an earlier one.
    pub proof fn lemma_rects_nested(&self)
        requires
            self.node_ok(),
        ensures
            nested_from(self.rects(), self.bounds()),
        decreases self,
    {
        let b = self.boundary;
        let s0 = seq![b];
        assert(nested_from(s0, b));
        match &self.children {
            None => {},
            Some(c) => {
                c.q0.lemma_rects_nested();
                c.q1.lemma_rects_nested();
                c.q2.lemma_rects_nested();
                c.q3.lemma_rects_nested();
                lemma_nested_append(s0, c.q0.rects(), b, 0);
                lemma_nested_append(s0 + c.q0.rects(), c.q1.rects(), b, 1);
                lemma_nested_append(s0 + c.q0.rects() + c.q1.rects(), c.q2.rects(), b, 2);
                lemma_nested_append(s0 + c.q0.rects() + c.q1.rects() + c.q2.rects(), c.q3.rects(), b, 3);
            },
        }
    }

    /// A subtree with depth budget `d` has at most `max_nodes(d)` nodes.
    pub proof fn lemma_rects_bounded(&self, d: usize)
        requires
            self.node_ok(),
            self.depth_budget() == Some(d),
        ensures
            self.rects().len() <= max_nodes(d as nat),
        decreases self,
    {
        if d > 0 {
            assert(max_nodes(d as nat) == 1 + 4 * max_nodes((d - 1) as nat));
        }
        match &self.children {
            None => {
                assert(max_nodes(d as nat) >= 1) by {
                    reveal_with_fuel(max_nodes, 2);
                }
            },
            Some(c) => {
                c.q0.lemma_rects_bounded((d - 1) as usize);
                c.q1.lemma_rects_bounded((d - 1) as usize);
                c.q2.lemma_rects_bounded((d - 1) as usize);
                c.q3.lemma_rects_bounded((d - 1) as usize);
            },
        }
    }

    /// A leaf tree over `boundary`, splitting without depth limit.
    pub fn new(boundary: Rect, capacity: usize) -> (t: QuadTree)
        ensures
            t.wf(),
            t.model() == Seq::<Item>::empty(),
            t.bounds() == boundary,
            t.cap() == capacity,
            t.depth_budget() == None::<usize>,
            t.is_leaf(),
            t.rects() == seq![boundary],
    {
        QuadTree { boundary, capacity, max_depth: None, items: Vec::new(), children: None }
    }

    /// A leaf tree over `boundary` whose nodes never split below `max_depth` levels.
    pub fn new_with_max_depth(boundary: Rect, capacity: usize, max_depth: usize) -> (t: QuadTree)
        ensures
            t.wf(),
            t.model() == Seq::<Item>::empty(),
            t.bounds() == boundary,
            t.cap() == capacity,
            t.depth_budget() == Some(max_depth),
            t.is_leaf(),
            t.rects() == seq![boundary],
    {
        QuadTree {
            boundary,
            capacity,
            max_depth: Some(max_depth),
            items: Vec::new(),
            children: None,
        }
    }

    /// Index of the quadrant of this node's boundary that holds `p`.
    fn quadrant_index(&self, p: &Point) -> (q: u8)
        ensures
            q as int == quadrant_of(self.boundary, *p),
            q < 4,
    {
        let mx = mid_of(self.boundary.min_x, self.boundary.max_x);
        let my = mid_of(self.boundary.min_y, self.boundary.max_y);
        let qx: u8 = if p.x >= mx { 1 } else { 0 };
        let qy: u8 = if p.y >= my { 2 } else { 0 };
        qx + qy
    }

    /// The node may split: its depth budget allows it and its boundary can be cut.
    fn can_split(&self) -> (r: bool)
        ensures
            r == (splittable(self.boundary) && budget_allows(self.max_depth)),
    {
        let wide = self.boundary.max_x as i64 - self.boundary.min_x as i64 >= 2;
        let tall = self.boundary.max_y as i64 - self.boundary.min_y as i64 >= 2;
        let budget = match self.max_depth {
            Some(d) => d > 0,
            None => true,
        };
        (wide || tall) && budget
    }

    /// A fresh leaf for quadrant `q` of this node.
    fn leaf_for(&self, q: u8) -> (t: QuadTree)
        requires
            q < 4,
            budget_allows(self.max_depth),
        ensures
            t.boundary == quadrant_rect(self.boundary, q as int),
            t.capacity == self.capacity,
            t.max_depth == child_budget(self.max_depth),
            t.wf(),
            t.model() == Seq::<Item>::empty(),
    {
        let b = self.boundary;
        let mx = mid_of(b.min_x, b.max_x);
        let my = mid_of(b.min_y, b.max_y);
        let boundary = Rect {
            min_x: if q % 2 == 1 { mx } else { b.min_x },
            max_x: if q % 2 == 1 { b.max_x } else { mx },
            min_y: if q >= 2 { my } else { b.min_y },
            max_y: if q >= 2 { b.max_y } else { my },
        };
        let max_depth = match self.max_depth {
            Some(d) => Some(d - 1),
            None => None,
        };
        QuadTree { boundary, capacity: self.capacity, max_depth, items: Vec::new(), children: None }
    }

    /// Inserts `item` into the child of quadrant `q`.
    fn insert_into(c: &mut Quads, q: u8, item: Item, b: Rect, cap: usize, d: Option<usize>)
        requires
            quads_ok(*old(c), b, cap, d),
            q < 4,
            q as int == quadrant_of(b, item.point),
            b.holds(item.point),
            splittable(b),
            quads_model(*old(c)).len() < usize::MAX,
        ensures
            quads_ok(*final(c), b, cap, d),
            quads_model(*final(c)).to_multiset() == quads_model(*old(c)).to_multiset().insert(item),
        decreases extent(b), 0nat,
    {
        proof {
            lemma_quadrants(b, item.point);
            lemma_quadrant_extent(b, q as int);
        }
        if q == 0 {
            c.q0.insert(item);
        } else if q == 1 {
            c.q1.insert(item);
        } else if q == 2 {
            c.q2.insert(item);
        } else {
            c.q3.insert(item);
        }
        assert(quads_model(*final(c)).to_multiset() =~= quads_model(*old(c)).to_multiset().insert(item));
    }

    /// Cuts a full leaf into four children and moves its items down into them.
    fn split(&mut self)
        requires
            old(self).wf(),
            old(self).children.is_none(),
            splittable(old(self).boundary),
            budget_allows(old(self).max_depth),
            old(self).model().len() < usize::MAX,
        ensures
            final(self).node_ok(),
            final(self).same_frame(*old(self)),
            final(self).children.is_some(),
            final(self).model().to_multiset() == old(self).model().to_multiset(),
        decreases extent(old(self).boundary), 1nat,
    {
        let b = self.boundary;
        let mut c = Quads {
            q0: self.leaf_for(0),
            q1: self.leaf_for(1),
            q2: self.leaf_for(2),
            q3: self.leaf_for(3),
        };
        let mut items: Vec<Item> = Vec::new();
        std::mem::swap(&mut items, &mut self.items);
        assert(quads_model(c) =~= Seq::<Item>::empty());
        let mut i: usize = 0;
        while i < items.len()
            invariant
                0 <= i <= items.len(),
                items@ == old(self).items@,
                items.len() < usize::MAX,
                self.boundary == b,
                b == old(self).boundary,
                self.capacity == old(self).capacity,
                self.max_depth == old(self).max_depth,
                self.children.is_none(),
                self.items@.len() == 0,
                splittable(b),
                forall|j: int| 0 <= j < items@.len() ==> b.holds(#[trigger] items@[j].point),
                quads_ok(c, b, self.capacity, self.max_depth),
                quads_model(c).to_multiset() == items@.take(i as int).to_multiset(),
            decreases items.len() - i,
        {
            let it = items[i];
            let q = self.quadrant_index(&it.point);
            assert(quads_model(c).to_multiset().len() == items@.take(i as int).to_multiset().len());
            assert(quads_model(c).len() == i);
            QuadTree::insert_into(&mut c, q, it, b, self.capacity, self.max_depth);
            assert(items@.take(i + 1) == items@.take(i as int).push(it));
            i += 1;
        }
        assert(items@.take(i as int) == items@);
        self.children = Some(Box::new(c));
        assert(self.model() =~= quads_model(c));
    }

    /// Inserts an item. Returns false, changing nothing, when the point lies outside the
    /// boundary. A full leaf splits first when its boundary and depth budget allow.
    pub fn insert(&mut self, item: Item) -> (r: bool)
        requires
            old(self).wf(),
            old(self).model().len() < usize::MAX,
        ensures
            final(self).wf(),
            final(self).same_frame(*old(self)),
            r == old(self).bounds().holds(item.point),
            r ==> final(self).model().to_multiset() == old(self).model().to_multiset().insert(item),
            !r ==> *final(self) == *old(self),
        decreases extent(old(self).bounds()), 2nat,
    {
        if !self.boundary.contains(&item.point) {
            return false;
        }
        if self.children.is_none() {
            if self.items.len() < self.capacity || !self.can_split() {
                self.items.push(item);
                return true;
            }
            self.split();
        }
        let q = self.quadrant_index(&item.point);
        let ghost pre = *self;
        assert(pre.model().to_multiset().len() == old(self).model().to_multiset().len());
        assert(pre.model().len() >= self.capacity);
        let mut c = *self.children.take().unwrap();
        assert(pre.model() =~= quads_model(c));
        QuadTree::insert_into(&mut c, q, item, self.boundary, self.capacity, self.max_depth);
        self.children = Some(Box::new(c));
        assert(self.model() =~= quads_model(c));
        assert(self.model().to_multiset().len() == pre.model().to_multiset().len() + 1);
        true
    }


    /// Deletes `target` from the child of quadrant `q`, the only child that can hold it.
    fn delete_from(c: &mut Quads, q: u8, target: Item, b: Rect, cap: usize, d: Option<usize>) -> (r: bool)
        requires
            quads_ok(*old(c), b, cap, d),
            q < 4,
            q as int == quadrant_of(b, target.point),
            b.holds(target.point),
            splittable(b),
        ensures
            quads_ok(*final(c), b, cap, d),
            r == quads_model(*old(c)).contains(target),
            quads_model(*final(c)).to_multiset() == quads_model(*old(c)).to_multiset().remove(target),
            !r ==> *final(c) == *old(c),
            quads_rects_len(*final(c)) <= quads_rects_len(*old(c)),
        decreases extent(b), 0nat,
    {
        proof {
            lemma_quadrants(b, target.point);
            lemma_quadrant_extent(b, q as int);
            c.q0.lemma_model_inside();
            c.q1.lemma_model_inside();
            c.q2.lemma_model_inside();
            c.q3.lemma_model_inside();
        }
        let r = if q == 0 {
            c.q0.delete(target.id, target.point)
        } else if q == 1 {
            c.q1.delete(target.id, target.point)
        } else if q == 2 {
            c.q2.delete(target.id, target.point)
        } else {
            c.q3.delete(target.id, target.point)
        };
        proof {
            let m = quads_model(*old(c));
            if q != 0 { assert(!old(c).q0.model().contains(target)); }
            if q != 1 { assert(!old(c).q1.model().contains(target)); }
            if q != 2 { assert(!old(c).q2.model().contains(target)); }
            if q != 3 { assert(!old(c).q3.model().contains(target)); }
            assert(m.contains(target) == (m.to_multiset().count(target) > 0));
        }
        assert(quads_model(*final(c)).to_multiset() =~= quads_model(*old(c)).to_multiset().remove(target));
        r
    }

    /// Deletes one item equal to `(id, point)`. Returns whether one was found. On the
    /// way back up, a node whose four children are leaves holding no more than its
    /// capacity in all takes their items back and becomes a leaf again.
    pub fn delete(&mut self, id: u64, point: Point) -> (r: bool)
        requires
            old(self).wf(),
        ensures
            final(self).wf(),
            final(self).same_frame(*old(self)),
            r == old(self).model().contains(Item { id, point }),
            final(self).model().to_multiset() == old(self).model().to_multiset().remove(
                Item { id, point },
            ),
            !r ==> *final(self) == *old(self),
            final(self).rects().len() <= old(self).rects().len(),
        decreases extent(old(self).bounds()),
    {
        let target = Item { id, point };
        let ghost pre = *self;
        proof {
            pre.lemma_model_inside();
        }
        if !self.boundary.contains(&point) {
            assert(!pre.model().contains(target)) by {
                if pre.model().contains(target) {
                    let j = choose|j: int| 0 <= j < pre.model().len() && pre.model()[j] == target;
                    assert(self.boundary.holds(pre.model()[j].point));
                }
            }
            assert(pre.model().to_multiset().remove(target) =~= pre.model().to_multiset());
            return false;
        }
        if self.children.is_none() {
            let mut i: usize = 0;
            while i < self.items.len()
                invariant
                    0 <= i <= self.items@.len(),
                    *self == pre,
                    pre == *old(self),
                    self.children.is_none(),
                    pre.node_ok(),
                    target == (Item { id, point }),
                    forall|j: int| 0 <= j < pre.items@.len() ==> pre.boundary.holds(#[trigger] pre.items@[j].point),
                    forall|j: int| 0 <= j < i ==> self.items@[j] != target,
                decreases self.items@.len() - i,
            {
                let it = self.items[i];
                if it.id == id && it.point.x == point.x && it.point.y == point.y {
                    assert(it == self.items@[i as int]);
                    assert(it.point == point);
                    assert(self.items@[i as int] == target);
                    self.items.remove(i);
                    assert forall|j: int| 0 <= j < self.items@.len() implies self.boundary.holds(
                        #[trigger] self.items@[j].point,
                    ) by {
                        if j < i {
                            assert(self.items@[j] == pre.items@[j]);
                        } else {
                            assert(self.items@[j] == pre.items@[j + 1]);
                        }
                    }
                    return true;
                }
                i += 1;
            }
            assert(!pre.model().contains(target));
            assert(pre.model().to_multiset().remove(target) =~= pre.model().to_multiset());
            return false;
        }
        let q = self.quadrant_index(&point);
        let mut c = *self.children.take().unwrap();
        assert(pre.model() =~= quads_model(c));
        let r = QuadTree::delete_from(&mut c, q, target, self.boundary, self.capacity, self.max_depth);
        if r && c.q0.children.is_none() && c.q1.children.is_none() && c.q2.children.is_none()
            && c.q3.children.is_none() && (c.q0.items.len() as u128 + c.q1.items.len() as u128
            + c.q2.items.len() as u128 + c.q3.items.len() as u128) <= self.capacity as u128 {
            let ghost merged = quads_model(c);
            proof {
                c.q0.lemma_model_inside();
                c.q1.lemma_model_inside();
                c.q2.lemma_model_inside();
                c.q3.lemma_model_inside();
                assert forall|i: int| 0 <= i < merged.len() implies self.boundary.holds(#[trigger] merged[i].point) by {
                    let l0 = c.q0.model().len();
                    let l1 = c.q1.model().len();
                    let l2 = c.q2.model().len();
                    let p = merged[i].point;
                    lemma_quadrants(self.boundary, p);
                    if i < l0 {
                        assert(merged[i] == c.q0.model()[i]);
                    } else if i < l0 + l1 {
                        assert(merged[i] == c.q1.model()[i - l0]);
                    } else if i < l0 + l1 + l2 {
                        assert(merged[i] == c.q2.model()[i - l0 - l1]);
                    } else {
                        assert(merged[i] == c.q3.model()[i - l0 - l1 - l2]);
                    }
                }
            }
            self.items.append(&mut c.q0.items);
            self.items.append(&mut c.q1.items);
            self.items.append(&mut c.q2.items);
            self.items.append(&mut c.q3.items);
            assert(self.items@ =~= merged);
            assert(pre.rects().len() >= 1);
        } else {
            self.children = Some(Box::new(c));
            assert(self.model() =~= quads_model(c));
            proof {
                if !r {
                    assert(*self == pre);
                }
                let m = quads_model(c);
                assert(m.len() == c.q0.model().len() + c.q1.model().len() + c.q2.model().len()
                    + c.q3.model().len());
                if !r {
                    assert(m.to_multiset() =~= pre.model().to_multiset());
                    assert(m.to_multiset().len() == pre.model().to_multiset().len());
                }
            }
        }
        proof {
            assert(self.model().to_multiset() =~= pre.model().to_multiset().remove(target));
            assert(self.model().to_multiset().len() <= pre.model().to_multiset().len());
        }
        r
    }


    /// Every node's boundary, in pre-order.
    pub closed spec fn rects(&self) -> Seq<Rect>
        decreases self,
    {
        match &self.children {
            None => seq![self.boundary],
            Some(c) => seq![self.boundary] + c.q0.rects() + c.q1.rects() + c.q2.rects() + c.q3.rects(),
        }
    }

    /// Items under this node, counted by traversal.
    fn count_rec(&self) -> (n: usize)
        requires
            self.node_ok(),
            self.model().len() <= usize::MAX,
        ensures
            n == self.model().len(),
        decreases extent(self.bounds()),
    {
        match &self.children {
            None => self.items.len(),
            Some(c) => {
                proof {
                    lemma_quadrant_extent(self.boundary, 0);
                    lemma_quadrant_extent(self.boundary, 1);
                    lemma_quadrant_extent(self.boundary, 2);
                    lemma_quadrant_extent(self.boundary, 3);
                }
                let a = c.q0.count_rec();
                let b = c.q1.count_rec();
                let d = c.q2.count_rec();
                let e = c.q3.count_rec();
                a + b + d + e
            },
        }
    }

    /// Number of items stored in the tree.
    pub fn count_items(&self) -> (n: usize)
        requires
            self.wf(),
        ensures
            n == self.model().len(),
    {
        self.count_rec()
    }

    /// Appends the items under this node that lie in `range`, pruning subtrees whose
    /// boundary does not overlap it.
    fn query_into(&self, range: &Rect, out: &mut Vec<Item>)
        requires
            self.node_ok(),
        ensures
            final(out)@ == old(out)@ + in_range(self.model(), *range),
        decreases extent(self.bounds()),
    {
        if !self.boundary.intersects(range) {
            proof {
                self.lemma_model_inside();
                lemma_in_range_disjoint(self.model(), self.boundary, *range);
            }
            assert(out@ =~= old(out)@ + in_range(self.model(), *range));
            return;
        }
        let mut i: usize = 0;
        while i < self.items.len()
            invariant
                0 <= i <= self.items@.len(),
                out@ == old(out)@ + in_range(self.items@.take(i as int), *range),
            decreases self.items@.len() - i,
        {
            let it = self.items[i];
            proof {
                lemma_in_range_step(self.items@, i as int, *range);
            }
            if range.contains(&it.point) {
                out.push(it);
            }
            i += 1;
            assert(out@ =~= old(out)@ + in_range(self.items@.take(i as int), *range));
        }
        assert(self.items@.take(i as int) =~= self.items@);
        match &self.children {
            None => {},
            Some(c) => {
                proof {
                    lemma_quadrant_extent(self.boundary, 0);
                    lemma_quadrant_extent(self.boundary, 1);
                    lemma_quadrant_extent(self.boundary, 2);
                    lemma_quadrant_extent(self.boundary, 3);
                }
                c.q0.query_into(range, out);
                c.q1.query_into(range, out);
                c.q2.query_into(range, out);
                c.q3.query_into(range, out);
                assert(out@ =~= old(out)@ + in_range(self.model(), *range));
            },
        }
    }

    /// Every stored item whose point lies in `range` (half-open), in pre-order of the
    /// nodes that hold them.
    pub fn query(&self, range: Rect) -> (r: Vec<Item>)
        requires
            self.wf(),
        ensures
            r@ == in_range(self.model(), range),
    {
        let mut out: Vec<Item> = Vec::new();
        self.query_into(&range, &mut out);
        assert(out@ =~= in_range(self.model(), range));
        out
    }

    /// Appends the boundaries of this node and its descendants, in pre-order.
    fn rects_into(&self, out: &mut Vec<Rect>)
        requires
            self.node_ok(),
        ensures
            final(out)@ == old(out)@ + self.rects(),
        decreases extent(self.bounds()),
    {
        out.push(self.boundary);
        match &self.children {
            None => {},
            Some(c) => {
                proof {
                    lemma_quadrant_extent(self.boundary, 0);
                    lemma_quadrant_extent(self.boundary, 1);
                    lemma_quadrant_extent(self.boundary, 2);
                    lemma_quadrant_extent(self.boundary, 3);
                }
                c.q0.rects_into(out);
                c.q1.rects_into(out);
                c.q2.rects_into(out);
                c.q3.rects_into(out);
            },
        }
        assert(out@ =~= old(out)@ + self.rects());
    }

    /// The boundary of every node, leaves and internal nodes alike, in pre-order.
    pub fn get_all_rectangles(&self) -> (r: Vec<Rect>)
        requires
            self.wf(),
        ensures
            r@ == self.rects(),
            nested_from(r@, self.bounds()),
    {
        proof {
            self.lemma_rects_nested();
        }
        let mut out: Vec<Rect> = Vec::new();
        self.rects_into(&mut out);
        assert(out@ =~= self.rects());
        out
    }


    /// Best-first k-nearest-neighbour search below this node: the node's own items are
    /// offered, then the children in ascending order of their distance to `p`. A node
    /// farther than the current worst of `k` candidates is skipped whole.
    fn knn_visit(&self, p: &Point, k: usize, best: &mut Vec<Item>, Ghost(seen): Ghost<Multiset<Item>>)
        requires
            self.node_ok(),
            k > 0,
            knn_ok(*p, k as nat, old(best)@, seen),
        ensures
            knn_ok(*p, k as nat, final(best)@, seen.add(self.model().to_multiset())),
        decreases extent(self.bounds()),
    {
        broadcast use vstd::multiset::group_multiset_axioms;
        let b = self.boundary;
        let ghost m = self.model();
        proof {
            self.lemma_model_inside();
        }
        if b.min_x > b.max_x || b.min_y > b.max_y {
            proof {
                if m.len() > 0 {
                    assert(b.holds(m[0].point));
                }
                assert(m.to_multiset().len() == 0);
                assert(seen.add(m.to_multiset()) =~= seen);
            }
            return;
        }
        if best.len() == k {
            let d = dist_sq_point_to_rect(p, &b);
            let w = dist_sq_points(&best[k - 1].point, p);
            if d > w {
                proof {
                    lemma_prune(*p, k as nat, best@, seen, m, b);
                }
                return;
            }
        }
        assert(seen.add(self.items@.take(0).to_multiset()) =~= seen) by {
            broadcast use vstd::seq_lib::group_to_multiset_ensures;
            assert(self.items@.take(0) =~= Seq::<Item>::empty());
        }
        let mut i: usize = 0;
        while i < self.items.len()
            invariant
                0 <= i <= self.items@.len(),
                k > 0,
                knn_ok(*p, k as nat, best@, seen.add(self.items@.take(i as int).to_multiset())),
            decreases self.items@.len() - i,
        {
            let ghost before = seen.add(self.items@.take(i as int).to_multiset());
            offer(best, p, k, self.items[i], Ghost(before));
            proof {
                broadcast use vstd::seq_lib::group_to_multiset_ensures;
                assert(self.items@.take(i + 1) =~= self.items@.take(i as int).push(self.items@[i as int]));
                assert(before.insert(self.items@[i as int]) =~= seen.add(self.items@.take(i + 1).to_multiset()));
            }
            i += 1;
        }
        assert(self.items@.take(i as int) =~= self.items@);
        match &self.children {
            None => {},
            Some(c) => {
                let ghost s0 = seen.add(self.items@.to_multiset());
                let mut o0: u8 = 0;
                let mut o1: u8 = 1;
                let mut o2: u8 = 2;
                let mut o3: u8 = 3;
                let mut e0 = dist_sq_point_to_rect(p, &c.q0.boundary);
                let mut e1 = dist_sq_point_to_rect(p, &c.q1.boundary);
                let mut e2 = dist_sq_point_to_rect(p, &c.q2.boundary);
                let mut e3 = dist_sq_point_to_rect(p, &c.q3.boundary);
                order_pair(&mut o0, &mut e0, &mut o1, &mut e1);
                order_pair(&mut o2, &mut e2, &mut o3, &mut e3);
                order_pair(&mut o0, &mut e0, &mut o2, &mut e2);
                order_pair(&mut o1, &mut e1, &mut o3, &mut e3);
                order_pair(&mut o1, &mut e1, &mut o2, &mut e2);
                let ghost ms = |q: int| child_at(**c, q).model().to_multiset();
                assert(ms(o0 as int).add(ms(o1 as int)).add(ms(o2 as int)).add(ms(o3 as int)) =~= ms(0).add(ms(1)).add(ms(2)).add(ms(3)));
                proof {
                    lemma_quadrant_extent(b, o0 as int);
                    lemma_quadrant_extent(b, o1 as int);
                    lemma_quadrant_extent(b, o2 as int);
                    lemma_quadrant_extent(b, o3 as int);
                }
                child_ref(&**c, o0).knn_visit(p, k, best, Ghost(s0));
                let ghost s1 = s0.add(ms(o0 as int));
                child_ref(&**c, o1).knn_visit(p, k, best, Ghost(s1));
                let ghost s2 = s1.add(ms(o1 as int));
                child_ref(&**c, o2).knn_visit(p, k, best, Ghost(s2));
                let ghost s3 = s2.add(ms(o2 as int));
                child_ref(&**c, o3).knn_visit(p, k, best, Ghost(s3));
                proof {
                    broadcast use vstd::seq_lib::group_to_multiset_ensures;
                    assert(m.to_multiset() =~= self.items@.to_multiset().add(ms(0)).add(ms(1)).add(ms(2)).add(ms(3)));
                    assert(s3.add(ms(o3 as int)) =~= seen.add(m.to_multiset()));
                }
            },
        }
        proof {
            if self.children.is_none() {
                assert(m == self.items@);
            }
        }
    }

    /// The `k` items nearest to `point`, nearest first; among items at the same
    /// distance the smaller id comes first. Fewer when the tree holds fewer.
    pub fn nearest_neighbors(&self, point: Point, k: usize) -> (r: Vec<Item>)
        requires
            self.wf(),
        ensures
            knn_ok(point, k as nat, r@, self.model().to_multiset()),
    {
        broadcast use vstd::multiset::group_multiset_axioms;
        let mut best: Vec<Item> = Vec::new();
        if k == 0 {
            proof {
                broadcast use vstd::seq_lib::group_to_multiset_ensures;
                assert(best@.to_multiset() =~= Multiset::empty());
            }
            return best;
        }
        proof {
            broadcast use vstd::seq_lib::group_to_multiset_ensures;
            assert(best@.to_multiset() =~= Multiset::empty());
        }
        self.knn_visit(&point, k, &mut best, Ghost(Multiset::empty()));
        assert(Multiset::<Item>::empty().add(self.model().to_multiset()) =~= self.model().to_multiset());
        best
    }

    /// The item nearest to `point` (the smaller id among equally near ones), or
    /// `None` for an empty tree.
    pub fn nearest_neighbor(&self, point: Point) -> (r: Option<Item>)
        requires
            self.wf(),
        ensures
            r.is_none() <==> self.model().len() == 0,
            r matches Some(it) ==> self.model().contains(it) && forall|j: int|
                0 <= j < self.model().len() ==> not_after(point, it, #[trigger] self.model()[j]),
    {
        broadcast use vstd::seq_lib::group_to_multiset_ensures;
        let v = self.nearest_neighbors(point, 1);
        let ghost m = self.model();
        assert(m.to_multiset().len() == m.len());
        if v.len() == 0 {
            return None;
        }
        let it = v[0];
        proof {
            assert(v@.to_multiset().count(it) > 0);
            assert(m.to_multiset().count(it) > 0);
            assert forall|j: int| 0 <= j < m.len() implies not_after(point, it, #[trigger] m[j]) by {
                assert(m.to_multiset().count(m[j]) > 0);
                if m[j] != it {
                    assert(v@.last() == it);
                    assert(v@ =~= seq![it]);
                    assert(v@.to_multiset().count(m[j]) == 0);
                }
            }
        }
        Some(it)
    }

}

/// Every item of a well-formed tree lies in its boundary, so a query over the whole
/// boundary returns every stored item.
pub proof fn law_full_query_returns_all(t: QuadTree)
    requires
        t.wf(),
    ensures
        in_range(t.model(), t.bounds()) == t.model(),
{
    t.lemma_model_inside();
    lemma_in_range_all(t.model(), t.bounds());
}

/// Filtering by a rectangle that holds every point keeps the whole sequence.
pub proof fn lemma_in_range_all(s: Seq<Item>, r: Rect)
    requires
        forall|i: int| 0 <= i < s.len() ==> r.holds(#[trigger] s[i].point),
    ensures
        in_range(s, r) == s,
    decreases s.len(),
{
    reveal(Seq::filter);
    if s.len() > 0 {
        let t = s.drop_last();
        assert forall|i: int| 0 <= i < t.len() implies r.holds(#[trigger] t[i].point) by {
            assert(t[i] == s[i]);
        }
        lemma_in_range_all(t, r);
        assert(r.holds(s[s.len() - 1].point));
        assert(s.drop_last().push(s.last()) =~= s);
    }
}

/// Inserting items one by one, all inside the boundary, from an empty tree: the
/// tree then holds exactly those items, its count is their number, and a query over
/// the whole boundary returns all of them. `trees[i + 1]` is `trees[i]` after
/// `insert(items[i])` returned true.
pub proof fn law_inserts_then_full_query(trees: Seq<QuadTree>, items: Seq<Item>)
    requires
        trees.len() == items.len() + 1,
        trees[0].wf(),
        trees[0].model().len() == 0,
        forall|i: int| 0 <= i < items.len() ==> trees[0].bounds().holds(#[trigger] items[i].point),
        forall|i: int|
            0 <= i < items.len() ==> (#[trigger] trees[i + 1]).wf() && trees[i + 1].same_frame(trees[i])
                && trees[i + 1].model().to_multiset() == trees[i].model().to_multiset().insert(items[i]),
    ensures
        trees.last().model().to_multiset() == items.to_multiset(),
        trees.last().model().len() == items.len(),
        in_range(trees.last().model(), trees.last().bounds()) == trees.last().model(),
{
    let n = items.len() as int;
    assert forall|j: int| 0 <= j < items.len() implies (#[trigger] trees[j + 1]).model().to_multiset() == trees[j].model().to_multiset().insert(items[j]) by {}
    lemma_insert_chain(trees, items, n);
    assert(items.take(n) =~= items);
    assert(trees.last() == trees[n]);
    if n > 0 {
        assert(trees[(n - 1) + 1].wf());
    }
    assert(trees[n].wf());
    law_full_query_returns_all(trees.last());
    assert(trees.last().model().to_multiset().len() == trees.last().model().len()) by {
        broadcast use group_to_multiset_ensures;
    }
    assert(items.to_multiset().len() == items.len()) by {
        broadcast use group_to_multiset_ensures;
    }
}

/// After the first `i` inserts of a chain starting empty, the tree holds the first
/// `i` items.
pub proof fn lemma_insert_chain(trees: Seq<QuadTree>, items: Seq<Item>, i: int)
    requires
        0 <= i <= items.len(),
        trees.len() >= items.len() + 1,
        trees[0].model().len() == 0,
        forall|j: int|
            0 <= j < items.len() ==> (#[trigger] trees[j + 1]).model().to_multiset() == trees[j].model().to_multiset().insert(items[j]),
    ensures
        trees[i].model().to_multiset() == items.take(i).to_multiset(),
    decreases i,
{
    broadcast use group_to_multiset_ensures;
    if i == 0 {
        assert(trees[0].model() =~= Seq::<Item>::empty());
        assert(items.take(0) =~= Seq::<Item>::empty());
    } else {
        lemma_insert_chain(trees, items, i - 1);
        assert(items.take(i) =~= items.take(i - 1).push(items[i - 1]));
    }
}

/// After `i` of the deletes that follow `n` inserts, the tree holds what is left of
/// `order` past its first `i` items.
pub proof fn lemma_delete_chain(trees: Seq<QuadTree>, order: Seq<Item>, n: int, i: int)
    requires
        0 <= i <= n,
        n == order.len(),
        trees.len() == 2 * n + 1,
        trees[n].model().to_multiset() == order.to_multiset(),
        forall|j: int|
            n <= j < 2 * n ==> (#[trigger] trees[j + 1]).model().to_multiset() == trees[j].model().to_multiset().remove(order[j - n]),
    ensures
        trees[n + i].model().to_multiset() == order.subrange(i, n).to_multiset(),
    decreases i,
{
    broadcast use group_to_multiset_ensures;
    if i == 0 {
        assert(order.subrange(0, n) =~= order);
    } else {
        lemma_delete_chain(trees, order, n, i - 1);
        let rest = order.subrange(i - 1, n);
        assert(rest.drop_first() =~= order.subrange(i, n));
        assert(rest.remove(0) =~= rest.drop_first());
        assert(rest[0] == order[i - 1]);
        assert(trees[n + i] == trees[(n + i - 1) + 1]);
    }
}

/// Deleting the same `(id, point)` twice, when it was stored at most once: the second
/// call reports false and leaves the count alone. `t1` is `t0` after the first call,
/// `t2` is `t1` after the second.
pub proof fn law_delete_idempotent(t0: QuadTree, t1: QuadTree, t2: QuadTree, it: Item, r2: bool)
    requires
        t0.model().to_multiset().count(it) <= 1,
        t1.model().to_multiset() == t0.model().to_multiset().remove(it),
        r2 == t1.model().contains(it),
        t2.model().to_multiset() == t1.model().to_multiset().remove(it),
    ensures
        !r2,
        t2.model().len() == t1.model().len(),
{
    broadcast use group_to_multiset_ensures;
    assert(t1.model().to_multiset().count(it) == 0);
    assert(t2.model().to_multiset() =~= t1.model().to_multiset());
    assert(t2.model().to_multiset().len() == t2.model().len());
    assert(t1.model().to_multiset().len() == t1.model().len());
}

/// A well-formed tree holding no more items than its capacity is a single leaf: one
/// rectangle, its boundary.
pub proof fn law_small_tree_is_one_leaf(t: QuadTree)
    requires
        t.wf(),
        t.model().len() <= t.cap(),
    ensures
        t.is_leaf(),
        t.rects() == seq![t.bounds()],
{
}

/// The shape of a well-formed tree: a leaf holds at most its capacity unless its
/// boundary cannot be cut or its depth budget is spent; an internal node holds more
/// than its capacity and reports itself and its four quadrants at least.
pub proof fn law_tree_shape(t: QuadTree)
    requires
        t.wf(),
    ensures
        t.is_leaf() ==> t.model().len() <= t.cap() || !splittable(t.bounds()) || !budget_allows(
            t.depth_budget(),
        ),
        !t.is_leaf() ==> t.model().len() > t.cap() && t.rects().len() >= 5,
        t.rects()[0] == t.bounds(),
{
    t.lemma_rects_nested();
    match &t.children {
        None => {},
        Some(c) => {
            c.q0.lemma_rects_nested();
            c.q1.lemma_rects_nested();
            c.q2.lemma_rects_nested();
            c.q3.lemma_rects_nested();
        },
    }
}

/// With a depth budget of `d`, a tree never reports more than `max_nodes(d)`
/// rectangles, however many items it holds.
pub proof fn law_depth_bounds_rectangles(t: QuadTree, d: usize)
    requires
        t.wf(),
        t.depth_budget() == Some(d),
    ensures
        t.rects().len() <= max_nodes(d as nat),
{
    t.lemma_rects_bounded(d);
}

/// Inserting items and then deleting the same items, in any order, leaves an empty
/// tree that has merged back into a single leaf. `trees[i + 1]` follows `trees[i]`
/// by `insert(items[i])` for the first `items.len()` steps, then by deleting
/// `order[i - items.len()]`.
pub proof fn law_round_trip(trees: Seq<QuadTree>, items: Seq<Item>, order: Seq<Item>)
    requires
        order.to_multiset() == items.to_multiset(),
        trees.len() == 2 * items.len() + 1,
        trees[0].wf(),
        trees[0].model().len() == 0,
        forall|i: int|
            0 <= i < items.len() ==> (#[trigger] trees[i + 1]).model().to_multiset() == trees[i].model().to_multiset().insert(items[i]),
        forall|i: int|
            items.len() <= i < 2 * items.len() ==> (#[trigger] trees[i + 1]).model().to_multiset() == trees[i].model().to_multiset().remove(order[i - items.len()]),
        trees.last().wf(),
    ensures
        trees.last().model().len() == 0,
        trees.last().rects().len() == 1,
{
    broadcast use group_to_multiset_ensures;
    let n = items.len() as int;
    assert forall|j: int| 0 <= j < items.len() implies (#[trigger] trees[j + 1]).model().to_multiset() == trees[j].model().to_multiset().insert(items[j]) by {}
    lemma_insert_chain(trees, items, n);
    assert(items.take(n) =~= items);
    assert(order.to_multiset().len() == order.len());
    assert(items.to_multiset().len() == items.len());
    lemma_delete_chain(trees, order, n, n);
    assert(order.subrange(n, n) =~= Seq::<Item>::empty());
    assert(trees[2 * n] == trees.last());
    assert(trees.last().model().to_multiset().len() == 0);
    law_small_tree_is_one_leaf(trees.last());
}

} // verus!
