use vstd::prelude::*;
use vstd::string::StringExecFns;

use crate::point::Point;
use crate::rectangle::{lemma_half_sum_between, Rectangle};
use crate::text::{count_text, decimal};
use crate::{Id, QuadTreeConfig};

verus! {

/// No identifier occurs twice.
pub open spec fn unique_ids(s: Seq<(Id, Point)>) -> bool {
    forall|i: int, j: int| 0 <= i < j < s.len() ==> s[i].0 != s[j].0
}

/// The identifier-to-point map that a list of pairs holds.
pub open spec fn pairs_map(s: Seq<(Id, Point)>) -> Map<Id, Point>
    decreases s.len(),
{
    if s.len() == 0 {
        Map::empty()
    } else {
        pairs_map(s.drop_last()).insert(s.last().0, s.last().1)
    }
}

/// The identifiers of `m` whose point lies in `area` (half-open).
pub open spec fn ids_in(m: Map<Id, Point>, area: Rectangle) -> Set<Id> {
    m.dom().filter(|id: Id| area.contains(m[id]))
}

/// All points of `m` are at one location.
pub open spec fn coincident(m: Map<Id, Point>) -> bool {
    forall|a: Id, b: Id| m.contains_key(a) && m.contains_key(b) ==> m[a] == m[b]
}

/// A leaf holding `m` respects the capacity, or its points cannot be separated.
pub open spec fn within_capacity(config: QuadTreeConfig, m: Map<Id, Point>) -> bool {
    m.len() <= config.max_per_cell() || coincident(m)
}

/// A leaf holding `m` is over capacity with points at distinct locations.
pub open spec fn must_split(config: QuadTreeConfig, m: Map<Id, Point>) -> bool {
    m.len() > config.max_per_cell() && !coincident(m)
}

/// Extent of `b` along x; an inverted box has none.
pub open spec fn width(b: Rectangle) -> int {
    if b.x0 <= b.x1 {
        b.x1 - b.x0
    } else {
        0
    }
}

/// Extent of `b` along y; an inverted box has none.
pub open spec fn height(b: Rectangle) -> int {
    if b.y0 <= b.y1 {
        b.y1 - b.y0
    } else {
        0
    }
}

/// `b` holds two distinct points under half-open containment.
pub open spec fn splittable(b: Rectangle) -> bool {
    width(b) >= 1 && height(b) >= 1 && (width(b) >= 2 || height(b) >= 2)
}

/// Quadrant `i` of `b`, split at its center: 0 below-left, 1 below-right,
/// 2 above-left, 3 above-right.
pub open spec fn quadrant(b: Rectangle, i: int) -> Rectangle {
    let xh = b.center_x() as i32;
    let yh = b.center_y() as i32;
    if i == 0 {
        Rectangle { x0: b.x0, y0: b.y0, x1: xh, y1: yh }
    } else if i == 1 {
        Rectangle { x0: xh, y0: b.y0, x1: b.x1, y1: yh }
    } else if i == 2 {
        Rectangle { x0: b.x0, y0: yh, x1: xh, y1: b.y1 }
    } else {
        Rectangle { x0: xh, y0: yh, x1: b.x1, y1: b.y1 }
    }
}

/// The quadrant of `b` that a point is routed to: ties on a center line go
/// to the higher index.
pub open spec fn route(b: Rectangle, p: Point) -> int {
    (if p.x >= b.center_x() {
        1int
    } else {
        0int
    }) + (if p.y >= b.center_y() {
        2int
    } else {
        0int
    })
}

/// Diagnostic summary of one leaf.
#[derive(Clone, Copy, Debug, PartialEq, Eq, Structural)]
pub struct CellInfo {
    pub boundary: Rectangle,
    pub count: usize,
}

impl CellInfo {
    pub fn new(boundary: &Rectangle, count: usize) -> (r: CellInfo)
        ensures
            r == (CellInfo { boundary: *boundary, count }),
    {
        CellInfo { boundary: *boundary, count }
    }
}

/// Total number of points over a list of leaf summaries.
pub open spec fn total_count(s: Seq<CellInfo>) -> int
    decreases s.len(),
{
    if s.len() == 0 {
        0
    } else {
        total_count(s.drop_last()) + s.last().count
    }
}

/// The identifiers of the pairs whose point lies in `area`, in order.
pub open spec fn matching_ids(s: Seq<(Id, Point)>, area: Rectangle) -> Seq<Id>
    decreases s.len(),
{
    if s.len() == 0 {
        seq![]
    } else if area.contains(s.last().1) {
        matching_ids(s.drop_last(), area).push(s.last().0)
    } else {
        matching_ids(s.drop_last(), area)
    }
}

proof fn lemma_matching_ids(s: Seq<(Id, Point)>, area: Rectangle)
    requires
        unique_ids(s),
    ensures
        matching_ids(s, area).no_duplicates(),
        matching_ids(s, area).to_set() == ids_in(pairs_map(s), area),
    decreases s.len(),
{
    if s.len() > 0 {
        let t = s.drop_last();
        assert(unique_ids(t)) by {
            assert forall|i: int, j: int| 0 <= i < j < t.len() implies t[i].0 != t[j].0 by {
                assert(t[i] == s[i] && t[j] == s[j]);
            }
        }
        lemma_matching_ids(t, area);
        lemma_pairs_map(t);
        let (k, v) = s.last();
        assert(!pairs_map(t).contains_key(k)) by {
            if pairs_map(t).contains_key(k) {
                let i = choose|i: int| 0 <= i < t.len() && t[i].0 == k;
                assert(t[i] == s[i]);
            }
        }
        assert(!matching_ids(t, area).to_set().contains(k));
        let m = pairs_map(s);
        if area.contains(v) {
            assert(ids_in(m, area) =~= ids_in(pairs_map(t), area).insert(k));
            let ms = matching_ids(s, area);
            let mt = matching_ids(t, area);
            assert(ms == mt.push(k));
            assert forall|x: Id| ms.contains(x) <==> (mt.contains(x) || x == k) by {
                if mt.contains(x) {
                    let i = choose|i: int| 0 <= i < mt.len() && mt[i] == x;
                    assert(ms[i] == mt[i]);
                }
                if x == k {
                    assert(ms[mt.len() as int] == k);
                }
                if ms.contains(x) {
                    let i = choose|i: int| 0 <= i < ms.len() && ms[i] == x;
                    if i < mt.len() {
                        assert(ms[i] == mt[i]);
                    }
                }
            }
            assert(ms.to_set() =~= mt.to_set().insert(k));
            assert forall|i: int, j: int| 0 <= i < j < matching_ids(s, area).len() implies
                matching_ids(s, area)[i] != matching_ids(s, area)[j] by {
                if j == matching_ids(s, area).len() - 1 {
                    assert(matching_ids(t, area).to_set().contains(matching_ids(t, area)[i]));
                }
            }
        } else {
            assert(ids_in(m, area) =~= ids_in(pairs_map(t), area));
        }
    }
}

/// The keys of a union are the keys of either side.
proof fn lemma_union_dom(a: Map<Id, Point>, b: Map<Id, Point>)
    ensures
        a.union_prefer_right(b).dom() == a.dom() + b.dom(),
{
    assert(a.union_prefer_right(b).dom() =~= a.dom() + b.dom());
}

/// A leaf: a boundary and the points routed into it.
pub struct Cell {
    pub config: QuadTreeConfig,
    pub boundary: Rectangle,
    pub points: Vec<(Id, Point)>,
}

/// A list of pairs with unique identifiers holds each pair in its map, and
/// nothing else.
pub proof fn lemma_pairs_map(s: Seq<(Id, Point)>)
    requires
        unique_ids(s),
    ensures
        pairs_map(s).dom().finite(),
        pairs_map(s).len() == s.len(),
        forall|i: int|
            0 <= i < s.len() ==> #[trigger] pairs_map(s).contains_key(s[i].0) && pairs_map(s)[s[i].0]
                == s[i].1,
        forall|id: Id| #[trigger]
            pairs_map(s).contains_key(id) ==> exists|i: int| 0 <= i < s.len() && s[i].0 == id,
    decreases s.len(),
{
    if s.len() > 0 {
        let t = s.drop_last();
        lemma_pairs_map(t);
        assert forall|i: int| 0 <= i < t.len() implies t[i].0 != s.last().0 by {
            assert(s[i] == t[i]);
        }
        assert(!pairs_map(t).contains_key(s.last().0));
        assert forall|i: int| 0 <= i < s.len() implies #[trigger] pairs_map(s).contains_key(
            s[i].0,
        ) && pairs_map(s)[s[i].0] == s[i].1 by {
            if i < t.len() {
                assert(s[i] == t[i]);
            }
        }
        assert forall|id: Id| #[trigger] pairs_map(s).contains_key(id) implies exists|i: int|
            0 <= i < s.len() && s[i].0 == id by {
            if id != s.last().0 {
                let i = choose|i: int| 0 <= i < t.len() && t[i].0 == id;
                assert(s[i] == t[i]);
            }
        }
    }
}

impl Cell {
    pub open spec fn contents(self) -> Map<Id, Point> {
        pairs_map(self.points@)
    }

    pub open spec fn wf(self) -> bool {
        &&& unique_ids(self.points@)
        &&& forall|i: int| 0 <= i < self.points@.len() ==> self.boundary.contains(#[trigger] self.points@[i].1)
        &&& within_capacity(self.config, self.contents())
    }

    pub fn new(config: QuadTreeConfig, boundary: Rectangle) -> (r: Cell)
        ensures
            r.wf(),
            r.config == config,
            r.boundary == boundary,
            r.contents() == Map::<Id, Point>::empty(),
            r.points@.len() == 0,
    {
        Cell { config, boundary, points: Vec::new() }
    }

    pub fn get_cells_info(&self) -> (r: Vec<CellInfo>)
        ensures
            r@ == seq![CellInfo { boundary: self.boundary, count: self.points.len() }],
    {
        vec![CellInfo::new(&self.boundary, self.points.len())]
    }

    pub fn find_in_area(&self, area: &Rectangle) -> (r: Vec<Id>)
        requires
            self.wf(),
        ensures
            r@.no_duplicates(),
            r@.to_set() == ids_in(self.contents(), *area),
    {
        // A leaf lying wholly in the area needs no test per point.
        let all = self.boundary.is_inside_of(area);
        let mut ids: Vec<Id> = Vec::new();
        let n = self.points.len();
        for i in 0..n
            invariant
                n == self.points@.len(),
                self.wf(),
                all == self.boundary.within(*area),
                ids@ == matching_ids(self.points@.subrange(0, i as int), *area),
        {
            let (id, point) = self.points[i];
            assert(self.boundary.contains(self.points@[i as int].1));
            assert(self.points@.subrange(0, i + 1).drop_last() =~= self.points@.subrange(0, i as int));
            if all || area.is_point_inside(&point) {
                ids.push(id);
            }
        }
        proof {
            assert(self.points@.subrange(0, n as int) =~= self.points@);
            lemma_matching_ids(self.points@, *area);
        }
        ids
    }
}

/// An internal node: a boundary split into four children, one per quadrant.
pub struct Quad {
    pub config: QuadTreeConfig,
    pub boundary: Rectangle,
    pub children: Vec<Node>,
}

/// A node of the tree: a leaf or an internal node.
pub enum Node {
    Cell(Cell),
    Quad(Quad),
}

/// Half-perimeter of a box, the measure that shrinks with each split.
pub open spec fn size(b: Rectangle) -> int {
    width(b) + height(b)
}

/// The four quadrants of a box tile it: a point lies in quadrant `i` exactly
/// when it lies in the box and is routed to `i`, so no point of the box is
/// left out and none lies in two quadrants.
pub proof fn lemma_quadrants_tile(b: Rectangle, p: Point)
    ensures
        forall|i: int|
            0 <= i < 4 ==> (#[trigger] quadrant(b, i).contains(p) <==> (b.contains(p) && route(b, p)
                == i)),
{
    lemma_half_sum_between(b.x0 as int, b.x1 as int);
    lemma_half_sum_between(b.y0 as int, b.y1 as int);
}

/// Quadrant bounds lie within the parent's bounds, and a quadrant that can
/// still be split is smaller than its parent.
proof fn lemma_quadrant_shrinks(b: Rectangle, i: int)
    requires
        0 <= i < 4,
    ensures
        splittable(quadrant(b, i)) ==> size(quadrant(b, i)) < size(b),
{
    lemma_half_sum_between(b.x0 as int, b.x1 as int);
    lemma_half_sum_between(b.y0 as int, b.y1 as int);
}

/// Points that must be split still must after one more is added.
proof fn lemma_must_split_grows(config: QuadTreeConfig, m: Map<Id, Point>, id: Id, p: Point)
    requires
        m.dom().finite(),
        !m.contains_key(id),
        must_split(config, m),
    ensures
        must_split(config, m.insert(id, p)),
{
    let (a, b) = choose|a: Id, b: Id| m.contains_key(a) && m.contains_key(b) && m[a] != m[b];
    let n = m.insert(id, p);
    assert(n.contains_key(a) && n.contains_key(b) && n[a] == m[a] && n[b] == m[b]);
    assert(n.dom() =~= m.dom().insert(id));
    assert(n.dom().len() == m.dom().len() + 1);
}

/// A box holding two distinct points can be split.
proof fn lemma_distinct_splittable(b: Rectangle, p: Point, q: Point)
    requires
        b.contains(p),
        b.contains(q),
        p != q,
    ensures
        splittable(b),
{
}

proof fn lemma_append_ids(
    a: Seq<Id>,
    b: Seq<Id>,
    ma: Map<Id, Point>,
    mb: Map<Id, Point>,
    area: Rectangle,
)
    requires
        a.no_duplicates(),
        b.no_duplicates(),
        a.to_set() == ids_in(ma, area),
        b.to_set() == ids_in(mb, area),
        ma.dom().disjoint(mb.dom()),
    ensures
        (a + b).no_duplicates(),
        (a + b).to_set() == ids_in(ma.union_prefer_right(mb), area),
{
    assert forall|i: int, j: int| 0 <= i < a.len() && 0 <= j < b.len() implies a[i] != b[j] by {
        assert(a.to_set().contains(a[i]));
        assert(b.to_set().contains(b[j]));
    }
    vstd::seq_lib::lemma_no_dup_in_concat(a, b);
    vstd::seq_lib::seq_to_set_distributes_over_add(a, b);
    let m = ma.union_prefer_right(mb);
    assert forall|id: Id| #[trigger] ids_in(m, area).contains(id) <==> (ids_in(ma, area).contains(id)
        || ids_in(mb, area).contains(id)) by {
        if ma.contains_key(id) {
            assert(!mb.contains_key(id));
        }
    }
    assert(ids_in(m, area) =~= ids_in(ma, area) + ids_in(mb, area));
}

impl Node {
    pub open spec fn boundary(self) -> Rectangle {
        match self {
            Node::Cell(c) => c.boundary,
            Node::Quad(q) => q.boundary,
        }
    }

    pub open spec fn config(self) -> QuadTreeConfig {
        match self {
            Node::Cell(c) => c.config,
            Node::Quad(q) => q.config,
        }
    }

    /// Every point held below this node, by identifier.
    pub open spec fn contents(self) -> Map<Id, Point>
        decreases self,
    {
        match self {
            Node::Cell(c) => c.contents(),
            Node::Quad(q) => if q.children.len() == 4 {
                q.children[0].contents().union_prefer_right(
                    q.children[1].contents(),
                ).union_prefer_right(q.children[2].contents()).union_prefer_right(
                    q.children[3].contents(),
                )
            } else {
                Map::empty()
            },
        }
    }

    /// Every internal node has four children.
    pub open spec fn shaped(self) -> bool
        decreases self,
    {
        match self {
            Node::Cell(_) => true,
            Node::Quad(q) => q.children.len() == 4 && q.children[0].shaped()
                && q.children[1].shaped() && q.children[2].shaped() && q.children[3].shaped(),
        }
    }

    /// The leaves, depth first, quadrants in index order.
    pub open spec fn leaf_infos(self) -> Seq<CellInfo>
        decreases self,
    {
        match self {
            Node::Cell(c) => seq![CellInfo { boundary: c.boundary, count: c.points.len() }],
            Node::Quad(q) => if q.children.len() == 4 {
                q.children[0].leaf_infos() + q.children[1].leaf_infos()
                    + q.children[2].leaf_infos() + q.children[3].leaf_infos()
            } else {
                seq![]
            },
        }
    }

    /// The tree's invariant: leaves are well formed; each internal node's
    /// children sit on its quadrants, share its settings and hold disjoint
    /// identifiers; and a child is internal exactly when its points must be
    /// split (a leaf's own invariant rules out the other way round), so the
    /// shape below the root follows from the points alone.
    pub open spec fn wf(self) -> bool
        decreases self,
    {
        match self {
            Node::Cell(c) => c.wf(),
            Node::Quad(q) => q.children.len() == 4 && q.children[0].wf() && q.children[1].wf()
                && q.children[2].wf() && q.children[3].wf() && q.frame(),
        }
    }

    /// A well-formed node is fully shaped, holds finitely many points, and
    /// each of them lies in its boundary.
    pub proof fn lemma_wf_contents(self)
        requires
            self.wf(),
        ensures
            self.shaped(),
            self.contents().dom().finite(),
            forall|id: Id| #[trigger]
                self.contents().contains_key(id) ==> self.boundary().contains(self.contents()[id]),
        decreases self,
    {
        match self {
            Node::Cell(c) => {
                lemma_pairs_map(c.points@);
                assert(self.contents() == pairs_map(c.points@));
                assert forall|id: Id| #[trigger]
                    self.contents().contains_key(id) implies self.boundary().contains(
                    self.contents()[id],
                ) by {
                    let i = choose|i: int| 0 <= i < c.points@.len() && c.points@[i].0 == id;
                    assert(c.boundary.contains(c.points@[i].1));
                }
            },
            Node::Quad(q) => {
                let ch = q.children@;
                ch[0].lemma_wf_contents();
                ch[1].lemma_wf_contents();
                ch[2].lemma_wf_contents();
                ch[3].lemma_wf_contents();
                let m01 = ch[0].contents().union_prefer_right(ch[1].contents());
                let m012 = m01.union_prefer_right(ch[2].contents());
                lemma_union_dom(ch[0].contents(), ch[1].contents());
                lemma_union_dom(m01, ch[2].contents());
                lemma_union_dom(m012, ch[3].contents());
                assert forall|id: Id| #[trigger]
                    self.contents().contains_key(id) implies self.boundary().contains(
                    self.contents()[id],
                ) by {
                    let p = self.contents()[id];
                    lemma_quadrants_tile(q.boundary, p);
                    if ch[3].contents().contains_key(id) {
                        assert(quadrant(q.boundary, 3).contains(p));
                    } else if ch[2].contents().contains_key(id) {
                        assert(quadrant(q.boundary, 2).contains(p));
                    } else if ch[1].contents().contains_key(id) {
                        assert(quadrant(q.boundary, 1).contains(p));
                    } else {
                        assert(quadrant(q.boundary, 0).contains(p));
                    }
                }
            },
        }
    }
}

impl Quad {
    /// The conditions an internal node puts on its children, beyond their own
    /// invariants.
    pub open spec fn frame(self) -> bool {
        &&& self.children.len() == 4
        &&& forall|i: int|
            0 <= i < 4 ==> (#[trigger] self.children@[i]).boundary() == quadrant(self.boundary, i)
                && self.children@[i].config() == self.config && (self.children@[i] is Quad
                ==> splittable(self.children@[i].boundary()) && must_split(
                self.config,
                self.children@[i].contents(),
            ))
        &&& forall|i: int, j: int|
            0 <= i < j < 4 ==> (#[trigger] self.children@[i]).contents().dom().disjoint(
                (#[trigger] self.children@[j]).contents().dom(),
            )
    }

    pub open spec fn wf(self) -> bool {
        Node::Quad(self).wf()
    }

    pub open spec fn contents(self) -> Map<Id, Point> {
        Node::Quad(self).contents()
    }

    pub fn new(config: QuadTreeConfig, boundary: Rectangle) -> (r: Quad)
        ensures
            r.wf(),
            r.config == config,
            r.boundary == boundary,
            r.contents() == Map::<Id, Point>::empty(),
            forall|i: int| 0 <= i < 4 ==> #[trigger] r.children@[i] is Cell,
            Node::Quad(r).leaf_infos() == seq![
                CellInfo { boundary: quadrant(boundary, 0), count: 0 },
                CellInfo { boundary: quadrant(boundary, 1), count: 0 },
                CellInfo { boundary: quadrant(boundary, 2), count: 0 },
                CellInfo { boundary: quadrant(boundary, 3), count: 0 },
            ],
    {
        let (x0, y0, x1, y1) = boundary.as_tuple();
        let (xh, yh) = boundary.center().as_tuple();
        let mut children: Vec<Node> = Vec::new();
        children.push(Node::Cell(Cell::new(config, Rectangle::new(x0, y0, xh, yh))));
        children.push(Node::Cell(Cell::new(config, Rectangle::new(xh, y0, x1, yh))));
        children.push(Node::Cell(Cell::new(config, Rectangle::new(x0, yh, xh, y1))));
        children.push(Node::Cell(Cell::new(config, Rectangle::new(xh, yh, x1, y1))));
        let r = Quad { config, boundary, children };
        proof {
            lemma_half_sum_between(x0 as int, x1 as int);
            lemma_half_sum_between(y0 as int, y1 as int);
            let ch = r.children@;
            assert forall|i: int| 0 <= i < 4 implies (#[trigger] ch[i]).wf() && ch[i].contents()
                == Map::<Id, Point>::empty() by {
                if let Node::Cell(c) = ch[i] {
                    assert(c.wf());
                }
            }
            assert(ch[0].wf() && ch[1].wf() && ch[2].wf() && ch[3].wf());
            assert(ch[0].contents() == Map::<Id, Point>::empty());
            assert(ch[1].contents() == Map::<Id, Point>::empty());
            assert(ch[2].contents() == Map::<Id, Point>::empty());
            assert(ch[3].contents() == Map::<Id, Point>::empty());
            assert(r.contents() =~= Map::<Id, Point>::empty());
            assert forall|i: int| 0 <= i < 4 implies (#[trigger] ch[i]).leaf_infos() == seq![
                CellInfo { boundary: quadrant(boundary, i), count: 0 }] by {
                if let Node::Cell(c) = ch[i] {
                    assert(c.points@.len() == 0);
                }
            }
            assert(ch[0].leaf_infos() == seq![CellInfo { boundary: quadrant(boundary, 0), count: 0 }]);
            assert(ch[1].leaf_infos() == seq![CellInfo { boundary: quadrant(boundary, 1), count: 0 }]);
            assert(ch[2].leaf_infos() == seq![CellInfo { boundary: quadrant(boundary, 2), count: 0 }]);
            assert(ch[3].leaf_infos() == seq![CellInfo { boundary: quadrant(boundary, 3), count: 0 }]);
            assert(Node::Quad(r).leaf_infos() =~= seq![
                CellInfo { boundary: quadrant(boundary, 0), count: 0 },
                CellInfo { boundary: quadrant(boundary, 1), count: 0 },
                CellInfo { boundary: quadrant(boundary, 2), count: 0 },
                CellInfo { boundary: quadrant(boundary, 3), count: 0 },
            ]);
        }
        r
    }

    /// Puts `new_child` in slot `idx`.
    pub fn replace_child(&mut self, idx: usize, new_child: Node)
        requires
            idx < old(self).children.len(),
        ensures
            final(self).children@ == old(self).children@.update(idx as int, new_child),
            final(self).config == old(self).config,
            final(self).boundary == old(self).boundary,
    {
        self.children.set(idx, new_child);
    }

    pub fn get_cells_info(&self) -> (r: Vec<CellInfo>)
        requires
            Node::Quad(*self).shaped(),
        ensures
            r@ == Node::Quad(*self).leaf_infos(),
        decreases self,
    {
        let mut info = self.children[0].get_cells_info();
        let mut more = self.children[1].get_cells_info();
        info.append(&mut more);
        let mut more = self.children[2].get_cells_info();
        info.append(&mut more);
        let mut more = self.children[3].get_cells_info();
        info.append(&mut more);
        info
    }

    pub fn find_in_area(&self, area: &Rectangle) -> (r: Vec<Id>)
        requires
            self.wf(),
        ensures
            r@.no_duplicates(),
            r@.to_set() == ids_in(self.contents(), *area),
        decreases self,
    {
        proof {
            Node::Quad(*self).lemma_wf_contents();
        }
        if !self.boundary.overlaps(area) {
            proof {
                assert(ids_in(self.contents(), *area) =~= Set::<Id>::empty());
            }
            return Vec::new();
        }
        let ghost ch = self.children@;
        let mut ids = self.children[0].find_in_area(area);
        let mut more = self.children[1].find_in_area(area);
        proof {
            lemma_append_ids(ids@, more@, ch[0].contents(), ch[1].contents(), *area);
        }
        ids.append(&mut more);
        let ghost m01 = ch[0].contents().union_prefer_right(ch[1].contents());
        let mut more = self.children[2].find_in_area(area);
        proof {
            lemma_append_ids(ids@, more@, m01, ch[2].contents(), *area);
        }
        ids.append(&mut more);
        let ghost m012 = m01.union_prefer_right(ch[2].contents());
        let mut more = self.children[3].find_in_area(area);
        proof {
            lemma_append_ids(ids@, more@, m012, ch[3].contents(), *area);
        }
        ids.append(&mut more);
        ids
    }
}

impl Node {
    pub fn get_cells_info(&self) -> (r: Vec<CellInfo>)
        requires
            self.shaped(),
        ensures
            r@ == self.leaf_infos(),
        decreases self,
    {
        match self {
            Node::Cell(c) => c.get_cells_info(),
            Node::Quad(q) => q.get_cells_info(),
        }
    }

    pub fn find_in_area(&self, area: &Rectangle) -> (r: Vec<Id>)
        requires
            self.wf(),
        ensures
            r@.no_duplicates(),
            r@.to_set() == ids_in(self.contents(), *area),
        decreases self,
    {
        match self {
            Node::Cell(c) => c.find_in_area(area),
            Node::Quad(q) => q.find_in_area(area),
        }
    }
}

/// Bound on the recursion of an insertion into a leaf with boundary `b`: a
/// leaf that cannot be split never recurses.
pub open spec fn leaf_measure(b: Rectangle) -> int {
    if splittable(b) {
        4 * size(b) + 4
    } else {
        0
    }
}

pub open spec fn add_measure(n: Node) -> int {
    match n {
        Node::Cell(c) => leaf_measure(c.boundary) + 1,
        Node::Quad(q) => 4 * size(q.boundary) + 3,
    }
}

impl Cell {
    /// Inserts a point under a fresh identifier. When the leaf ends up over
    /// capacity with points at distinct locations, returns the internal node
    /// that holds its points and must take its place.
    pub fn add(&mut self, id: Id, p: Point) -> (r: Option<Quad>)
        requires
            old(self).wf(),
            old(self).boundary.contains(p),
            !old(self).contents().contains_key(id),
        ensures
            final(self).config == old(self).config,
            final(self).boundary == old(self).boundary,
            final(self).contents() == old(self).contents().insert(id, p),
            r is Some <==> must_split(old(self).config, old(self).contents().insert(id, p)),
            r is None ==> final(self).wf(),
            r matches Some(q) ==> q.wf() && q.config == old(self).config && q.boundary
                == old(self).boundary && q.contents() == old(self).contents().insert(id, p)
                && splittable(q.boundary) && Node::Quad(q).leaf_infos().len() >= 4,
        decreases leaf_measure(old(self).boundary),
    {
        proof {
            lemma_pairs_map(self.points@);
        }
        let ghost before = self.points@;
        self.points.push((id, p));
        proof {
            assert(self.points@.drop_last() =~= before);
            assert forall|i: int, j: int| 0 <= i < j < self.points@.len() implies self.points@[i].0
                != self.points@[j].0 by {
                if j == before.len() {
                    assert(before[i] == self.points@[i]);
                    assert(pairs_map(before).contains_key(before[i].0));
                } else {
                    assert(before[i] == self.points@[i] && before[j] == self.points@[j]);
                }
            }
            assert forall|i: int| 0 <= i < self.points@.len() implies self.boundary.contains(
                #[trigger] self.points@[i].1,
            ) by {
                if i < before.len() {
                    assert(before[i] == self.points@[i]);
                }
            }
            lemma_pairs_map(self.points@);
        }
        let ghost m = self.contents();
        let n = self.points.len();
        let max = self.config.max_per_cell();
        let over = max < 0 || n > max as usize;
        if !over {
            return None;
        }
        // Points at one location can never be told apart by splitting.
        let first = self.points[0].1;
        let mut same = true;
        for i in 0..n
            invariant
                n == self.points@.len(),
                n > 0,
                first == self.points@[0].1,
                same <==> forall|k: int| 0 <= k < i ==> #[trigger] self.points@[k].1 == first,
        {
            if self.points[i].1 != first {
                same = false;
            }
        }
        proof {
            if same {
                assert forall|a: Id, b: Id| m.contains_key(a) && m.contains_key(b) implies m[a]
                    == m[b] by {
                    let i = choose|i: int| 0 <= i < n && self.points@[i].0 == a;
                    let j = choose|j: int| 0 <= j < n && self.points@[j].0 == b;
                    assert(self.points@[i].1 == first && self.points@[j].1 == first);
                }
            } else {
                let k = choose|k: int| 0 <= k < n && self.points@[k].1 != first;
                assert(m.contains_key(self.points@[k].0) && m.contains_key(self.points@[0].0));
                assert(m[self.points@[k].0] != m[self.points@[0].0]);
                lemma_distinct_splittable(self.boundary, self.points@[k].1, first);
            }
        }
        if same {
            return None;
        }
        let mut quad = Quad::new(self.config, self.boundary);
        for i in 0..n
            invariant
                n == self.points@.len(),
                self.wf_points(),
                splittable(self.boundary),
                self.boundary == old(self).boundary,
                quad.wf(),
                quad.config == self.config,
                quad.boundary == self.boundary,
                quad.contents() == pairs_map(self.points@.subrange(0, i as int)),
                Node::Quad(quad).leaf_infos().len() >= 4,
        {
            let (pid, pp) = self.points[i];
            proof {
                let pre = self.points@.subrange(0, i as int);
                assert(unique_ids(pre));
                lemma_pairs_map(pre);
                if pairs_map(pre).contains_key(pid) {
                    let j = choose|j: int| 0 <= j < pre.len() && pre[j].0 == pid;
                    assert(pre[j] == self.points@[j]);
                }
                assert(self.boundary.contains(self.points@[i as int].1));
                assert(self.points@.subrange(0, i + 1).drop_last() =~= pre);
            }
            quad.add(pid, pp);
        }
        proof {
            assert(self.points@.subrange(0, n as int) =~= self.points@);
        }
        Some(quad)
    }

    /// Identifiers are unique and every point lies in the boundary.
    pub open spec fn wf_points(self) -> bool {
        &&& unique_ids(self.points@)
        &&& forall|i: int| 0 <= i < self.points@.len() ==> self.boundary.contains(#[trigger] self.points@[i].1)
    }
}

impl Quad {
    /// Inserts a point under a fresh identifier into the quadrant it is
    /// routed to, replacing a leaf that has to be split.
    pub fn add(&mut self, id: Id, p: Point)
        requires
            old(self).wf(),
            old(self).boundary.contains(p),
            !old(self).contents().contains_key(id),
        ensures
            final(self).wf(),
            final(self).config == old(self).config,
            final(self).boundary == old(self).boundary,
            final(self).contents() == old(self).contents().insert(id, p),
            Node::Quad(*final(self)).leaf_infos().len() >= Node::Quad(*old(self)).leaf_infos().len(),
            (Node::Quad(*final(self)).leaf_infos().len() - Node::Quad(*old(self)).leaf_infos().len())
                % 3 == 0,
        decreases 4 * size(old(self).boundary) + 2,
    {
        let ghost ch = self.children@;
        let ghost b = self.boundary;
        let c = self.boundary.center();
        let right: usize = if p.x >= c.x {
            1
        } else {
            0
        };
        let up: usize = if p.y >= c.y {
            2
        } else {
            0
        };
        let i = right + up;
        proof {
            lemma_quadrants_tile(b, p);
            assert(ch[i as int].boundary() == quadrant(b, i as int));
            lemma_quadrant_shrinks(b, i as int);
            let m01 = ch[0].contents().union_prefer_right(ch[1].contents());
            let m012 = m01.union_prefer_right(ch[2].contents());
            lemma_union_dom(ch[0].contents(), ch[1].contents());
            lemma_union_dom(m01, ch[2].contents());
            lemma_union_dom(m012, ch[3].contents());
            assert(!ch[i as int].contents().contains_key(id));
            assert(ch[i as int].wf());
        }
        let ghost old_self = *self;
        let child = self.children.remove(i);
        let new_child = child.add(id, p);
        self.children.insert(i, new_child);
        proof {
            assert(self.children@ =~= ch.update(i as int, new_child));
            lemma_child_replaced(old_self, *self, i as int, id, p);
        }
    }
}

impl Node {
    /// Inserts a point under a fresh identifier; a leaf that has to be split
    /// comes back as an internal node.
    pub fn add(self, id: Id, p: Point) -> (r: Node)
        requires
            self.wf(),
            self.boundary().contains(p),
            !self.contents().contains_key(id),
        ensures
            r.wf(),
            r.boundary() == self.boundary(),
            r.config() == self.config(),
            r.contents() == self.contents().insert(id, p),
            self is Quad ==> r is Quad,
            self is Cell ==> (r is Quad <==> must_split(self.config(), r.contents())),
            r is Quad ==> (self is Quad || splittable(r.boundary())),
            r.leaf_infos().len() >= self.leaf_infos().len(),
        decreases add_measure(self),
    {
        match self {
            Node::Cell(c) => {
                let mut c = c;
                match c.add(id, p) {
                    Some(q) => Node::Quad(q),
                    None => Node::Cell(c),
                }
            },
            Node::Quad(q) => {
                let mut q = q;
                q.add(id, p);
                Node::Quad(q)
            },
        }
    }
}

proof fn lemma_total_count_concat(a: Seq<CellInfo>, b: Seq<CellInfo>)
    ensures
        total_count(a + b) == total_count(a) + total_count(b),
    decreases b.len(),
{
    if b.len() > 0 {
        lemma_total_count_concat(a, b.drop_last());
        assert((a + b).drop_last() =~= a + b.drop_last());
    } else {
        assert(a + b =~= a);
    }
}

impl Node {
    /// Every leaf respects the capacity, unless its points are all at one
    /// location.
    pub open spec fn leaves_within_capacity(self) -> bool
        decreases self,
    {
        match self {
            Node::Cell(c) => within_capacity(c.config, c.contents()),
            Node::Quad(q) => q.children.len() == 4 && q.children[0].leaves_within_capacity()
                && q.children[1].leaves_within_capacity() && q.children[2].leaves_within_capacity()
                && q.children[3].leaves_within_capacity(),
        }
    }

    /// Every internal node's children sit on the quadrants of its boundary,
    /// split at its center.
    pub open spec fn quadrants_tiled(self) -> bool
        decreases self,
    {
        match self {
            Node::Cell(_) => true,
            Node::Quad(q) => q.children.len() == 4 && (forall|i: int|
                0 <= i < 4 ==> (#[trigger] q.children@[i]).boundary() == quadrant(q.boundary, i))
                && q.children[0].quadrants_tiled() && q.children[1].quadrants_tiled()
                && q.children[2].quadrants_tiled() && q.children[3].quadrants_tiled(),
        }
    }

    /// The tree's invariant keeps every leaf within capacity (but for
    /// coincident points) and every internal node split into its quadrants.
    pub proof fn lemma_wf_invariants(self)
        requires
            self.wf(),
        ensures
            self.leaves_within_capacity(),
            self.quadrants_tiled(),
        decreases self,
    {
        if let Node::Quad(q) = self {
            let ch = q.children@;
            ch[0].lemma_wf_invariants();
            ch[1].lemma_wf_invariants();
            ch[2].lemma_wf_invariants();
            ch[3].lemma_wf_invariants();
        }
    }

    /// The leaf counts add up to the number of points held.
    pub proof fn lemma_leaf_total(self)
        requires
            self.wf(),
        ensures
            total_count(self.leaf_infos()) == self.contents().len(),
        decreases self,
    {
        match self {
            Node::Cell(c) => {
                lemma_pairs_map(c.points@);
                assert(total_count(self.leaf_infos()) == total_count(
                    self.leaf_infos().drop_last(),
                ) + c.points.len());
            },
            Node::Quad(q) => {
                let ch = q.children@;
                ch[0].lemma_leaf_total();
                ch[1].lemma_leaf_total();
                ch[2].lemma_leaf_total();
                ch[3].lemma_leaf_total();
                ch[0].lemma_wf_contents();
                ch[1].lemma_wf_contents();
                ch[2].lemma_wf_contents();
                ch[3].lemma_wf_contents();
                let l0 = ch[0].leaf_infos();
                let l1 = ch[1].leaf_infos();
                let l2 = ch[2].leaf_infos();
                let l3 = ch[3].leaf_infos();
                lemma_total_count_concat(l0, l1);
                lemma_total_count_concat(l0 + l1, l2);
                lemma_total_count_concat(l0 + l1 + l2, l3);
                let m01 = ch[0].contents().union_prefer_right(ch[1].contents());
                let m012 = m01.union_prefer_right(ch[2].contents());
                lemma_union_dom(ch[0].contents(), ch[1].contents());
                lemma_union_dom(m01, ch[2].contents());
                lemma_union_dom(m012, ch[3].contents());
                assert(ch[0].contents().dom().disjoint(ch[1].contents().dom()));
                assert(ch[0].contents().dom().disjoint(ch[2].contents().dom()));
                assert(ch[0].contents().dom().disjoint(ch[3].contents().dom()));
                assert(ch[1].contents().dom().disjoint(ch[2].contents().dom()));
                assert(ch[1].contents().dom().disjoint(ch[3].contents().dom()));
                assert(ch[2].contents().dom().disjoint(ch[3].contents().dom()));
                vstd::set_lib::lemma_set_disjoint_lens(ch[0].contents().dom(), ch[1].contents().dom());
                vstd::set_lib::lemma_set_disjoint_lens(m01.dom(), ch[2].contents().dom());
                vstd::set_lib::lemma_set_disjoint_lens(m012.dom(), ch[3].contents().dom());
            },
        }
    }
}

impl Node {
    /// The node as text: a leaf gives its boundary and number of points, an
    /// internal node its boundary and its four children, one per line.
    pub open spec fn text(self) -> Seq<char>
        decreases self,
    {
        match self {
            Node::Cell(c) => "Cell(boundary: "@ + c.boundary.text() + ", points: "@ + decimal(
                c.points.len() as int,
            ) + ")"@,
            Node::Quad(q) => if q.children.len() == 4 {
                "Quad (boundary: "@ + q.boundary.text() + ";\n    q1:"@ + q.children[0].text()
                    + ",\n    q2:"@ + q.children[1].text() + ",\n    q3:"@ + q.children[2].text()
                    + ",\n    q4:"@ + q.children[3].text() + ")"@
            } else {
                seq![]
            },
        }
    }

    pub fn to_text(&self) -> (r: String)
        requires
            self.shaped(),
        ensures
            r@ == self.text(),
        decreases self,
    {
        match self {
            Node::Cell(c) => c.to_text(),
            Node::Quad(q) => q.to_text(),
        }
    }
}

impl Cell {
    pub fn to_text(&self) -> (r: String)
        ensures
            r@ == Node::Cell(*self).text(),
    {
        proof {
            reveal_strlit("Cell(boundary: ");
            reveal_strlit(", points: ");
            reveal_strlit(")");
        }
        let mut s = String::new();
        s.append("Cell(boundary: ");
        s.append(self.boundary.to_text().as_str());
        s.append(", points: ");
        s.append(count_text(self.points.len()).as_str());
        s.append(")");
        assert(s@ =~= Node::Cell(*self).text());
        s
    }
}

impl Quad {
    pub fn to_text(&self) -> (r: String)
        requires
            Node::Quad(*self).shaped(),
        ensures
            r@ == Node::Quad(*self).text(),
        decreases self,
    {
        proof {
            reveal_strlit("Quad (boundary: ");
            reveal_strlit(";\n    q1:");
            reveal_strlit(",\n    q2:");
            reveal_strlit(",\n    q3:");
            reveal_strlit(",\n    q4:");
            reveal_strlit(")");
        }
        let mut s = String::new();
        s.append("Quad (boundary: ");
        s.append(self.boundary.to_text().as_str());
        s.append(";\n    q1:");
        s.append(self.children[0].to_text().as_str());
        s.append(",\n    q2:");
        s.append(self.children[1].to_text().as_str());
        s.append(",\n    q3:");
        s.append(self.children[2].to_text().as_str());
        s.append(",\n    q4:");
        s.append(self.children[3].to_text().as_str());
        s.append(")");
        assert(s@ =~= Node::Quad(*self).text());
        s
    }
}

impl Node {
    /// Every split turns one leaf into four, so a fully shaped tree has one
    /// leaf more than a multiple of three.
    pub proof fn lemma_leaf_count_mod3(self)
        requires
            self.shaped(),
        ensures
            self.leaf_infos().len() % 3 == 1,
        decreases self,
    {
        if let Node::Quad(q) = self {
            let ch = q.children@;
            ch[0].lemma_leaf_count_mod3();
            ch[1].lemma_leaf_count_mod3();
            ch[2].lemma_leaf_count_mod3();
            ch[3].lemma_leaf_count_mod3();
            lemma_leaf_len_sum(q);
        }
    }
}

/// Replacing the child that a fresh point is routed to by that child with
/// the point inserted keeps an internal node well formed, adds the point to
/// its contents, and adds leaves in multiples of three.
proof fn lemma_child_replaced(q: Quad, r: Quad, i: int, id: Id, p: Point)
    requires
        q.wf(),
        0 <= i < 4,
        q.boundary.contains(p),
        route(q.boundary, p) == i,
        !q.contents().contains_key(id),
        r.config == q.config,
        r.boundary == q.boundary,
        r.children.len() == 4,
        r.children@ == q.children@.update(i, r.children@[i]),
        ({
            let (old_c, new_c) = (q.children@[i], r.children@[i]);
            &&& new_c.wf()
            &&& new_c.boundary() == old_c.boundary()
            &&& new_c.config() == old_c.config()
            &&& new_c.contents() == old_c.contents().insert(id, p)
            &&& (old_c is Quad ==> new_c is Quad)
            &&& (old_c is Cell ==> (new_c is Quad <==> must_split(old_c.config(), new_c.contents())))
            &&& (new_c is Quad ==> (old_c is Quad || splittable(new_c.boundary())))
            &&& new_c.leaf_infos().len() >= old_c.leaf_infos().len()
        }),
    ensures
        r.wf(),
        r.contents() == q.contents().insert(id, p),
        Node::Quad(r).leaf_infos().len() >= Node::Quad(q).leaf_infos().len(),
        (Node::Quad(r).leaf_infos().len() - Node::Quad(q).leaf_infos().len()) % 3 == 0,
{
    let ch = q.children@;
    let nc = r.children@;
    let before = q.contents();
    Node::Quad(q).lemma_wf_contents();
    ch[0].lemma_wf_contents();
    ch[1].lemma_wf_contents();
    ch[2].lemma_wf_contents();
    ch[3].lemma_wf_contents();
    let m01 = ch[0].contents().union_prefer_right(ch[1].contents());
    let m012 = m01.union_prefer_right(ch[2].contents());
    lemma_union_dom(ch[0].contents(), ch[1].contents());
    lemma_union_dom(m01, ch[2].contents());
    lemma_union_dom(m012, ch[3].contents());
    assert(forall|j: int| 0 <= j < 4 ==> !(#[trigger] ch[j]).contents().contains_key(id));
    assert(nc[0].wf() && nc[1].wf() && nc[2].wf() && nc[3].wf());
    assert forall|j: int, k: int| 0 <= j < k < 4 implies (#[trigger] nc[j]).contents().dom().disjoint(
        (#[trigger] nc[k]).contents().dom()) by {
        assert(ch[j].contents().dom().disjoint(ch[k].contents().dom()));
    }
    if ch[i] is Quad {
        lemma_must_split_grows(q.config, ch[i].contents(), id, p);
    }
    assert(r.frame());
    assert(r.contents() =~= before.insert(id, p));
    Node::Quad(q).lemma_leaf_count_mod3();
    nc[i].lemma_wf_contents();
    assert(Node::Quad(r).shaped());
    Node::Quad(r).lemma_leaf_count_mod3();
    lemma_leaf_len_sum(q);
    lemma_leaf_len_sum(r);
}

/// An internal node has as many leaves as its four children together.
proof fn lemma_leaf_len_sum(q: Quad)
    requires
        q.children.len() == 4,
    ensures
        Node::Quad(q).leaf_infos().len() == q.children@[0].leaf_infos().len()
            + q.children@[1].leaf_infos().len() + q.children@[2].leaf_infos().len()
            + q.children@[3].leaf_infos().len(),
{
}

impl Node {
    /// Each child of a well-formed internal node holds exactly the node's
    /// points that lie in its quadrant.
    pub proof fn lemma_child_contents(self, i: int)
        requires
            self.wf(),
            self is Quad,
            0 <= i < 4,
        ensures
            forall|id: Id| #[trigger]
                self->Quad_0.children@[i].contents().contains_key(id) <==> (
                self.contents().contains_key(id) && quadrant(self.boundary(), i).contains(
                    self.contents()[id],
                )),
            forall|id: Id| #[trigger]
                self->Quad_0.children@[i].contents().contains_key(id)
                    ==> self->Quad_0.children@[i].contents()[id] == self.contents()[id],
    {
        let q = self->Quad_0;
        let ch = q.children@;
        let m = self.contents();
        ch[0].lemma_wf_contents();
        ch[1].lemma_wf_contents();
        ch[2].lemma_wf_contents();
        ch[3].lemma_wf_contents();
        assert forall|id: Id| #[trigger] ch[i].contents().contains_key(id) implies m.contains_key(id)
            && m[id] == ch[i].contents()[id] by {
            assert forall|j: int| 0 <= j < 4 && j != i implies !(#[trigger] ch[j]).contents().contains_key(id) by {
                if j < i {
                    assert(ch[j].contents().dom().disjoint(ch[i].contents().dom()));
                } else {
                    assert(ch[i].contents().dom().disjoint(ch[j].contents().dom()));
                }
            }
        }
        assert forall|id: Id| #[trigger] ch[i].contents().contains_key(id) <==> (m.contains_key(id)
            && quadrant(q.boundary, i).contains(m[id])) by {
            if m.contains_key(id) {
                let pt = m[id];
                lemma_quadrants_tile(q.boundary, pt);
                let k = if ch[0].contents().contains_key(id) {
                    0int
                } else if ch[1].contents().contains_key(id) {
                    1int
                } else if ch[2].contents().contains_key(id) {
                    2int
                } else {
                    3int
                };
                assert(ch[k].contents().contains_key(id));
                assert(m[id] == ch[k].contents()[id]) by {
                    assert forall|j: int| 0 <= j < 4 && j != k implies !(#[trigger] ch[j]).contents().contains_key(id) by {
                        if j < k {
                            assert(ch[j].contents().dom().disjoint(ch[k].contents().dom()));
                        } else {
                            assert(ch[k].contents().dom().disjoint(ch[j].contents().dom()));
                        }
                    }
                }
                assert(quadrant(q.boundary, k).contains(pt));
            }
        }
    }

    /// The leaves below a well-formed node follow from its boundary, its
    /// settings, its points and whether it is internal: the order in which
    /// the points came plays no part.
    pub proof fn lemma_shape_determined(self, other: Node)
        requires
            self.wf(),
            other.wf(),
            self.boundary() == other.boundary(),
            self.config() == other.config(),
            self.contents() == other.contents(),
            self is Quad <==> other is Quad,
        ensures
            self.leaf_infos() == other.leaf_infos(),
        decreases self,
    {
        match (self, other) {
            (Node::Cell(a), Node::Cell(b)) => {
                lemma_pairs_map(a.points@);
                lemma_pairs_map(b.points@);
            },
            (Node::Quad(a), Node::Quad(b)) => {
                let ca = a.children@;
                let cb = b.children@;
                assert forall|i: int| 0 <= i < 4 implies (#[trigger] ca[i]).leaf_infos() == cb[i].leaf_infos() by {
                    self.lemma_child_contents(i);
                    other.lemma_child_contents(i);
                    assert(ca[i].wf() && cb[i].wf()) by {
                        assert(ca[0].wf() && ca[1].wf() && ca[2].wf() && ca[3].wf());
                        assert(cb[0].wf() && cb[1].wf() && cb[2].wf() && cb[3].wf());
                        if i == 0 {
                        } else if i == 1 {
                        } else if i == 2 {
                        } else {
                        }
                    }
                    assert(ca[i].contents() =~= cb[i].contents());
                    if let Node::Cell(c) = ca[i] {
                        assert(!must_split(c.config, c.contents()));
                    }
                    if let Node::Cell(c) = cb[i] {
                        assert(!must_split(c.config, c.contents()));
                    }
                    ca[i].lemma_shape_determined(cb[i]);
                }
                assert(ca[0].leaf_infos() == cb[0].leaf_infos());
                assert(ca[1].leaf_infos() == cb[1].leaf_infos());
                assert(ca[2].leaf_infos() == cb[2].leaf_infos());
                assert(ca[3].leaf_infos() == cb[3].leaf_infos());
            },
            _ => {},
        }
    }
}

} // verus!
