pub mod node;
pub mod point;
pub mod rectangle;
pub mod text;

use std::collections::HashMap;

use vstd::prelude::*;

use crate::node::{quadrant, ids_in, lemma_pairs_map, pairs_map, total_count, unique_ids, CellInfo, Node, Quad};
use crate::point::Point;
use crate::rectangle::Rectangle;

verus! {

/// The identifier under which a point is inserted.
pub type Id = i32;

/// Capacity settings: a leaf is split once it holds more than `max_per_cell`
/// points that are not all at one location. `min_per_quad` is carried for a
/// merge policy that the tree does not apply.
#[derive(Clone, Copy, Debug, PartialEq, Eq, Structural)]
pub struct QuadTreeConfig {
    min_per_quad: i32,
    max_per_cell: i32,
}

impl QuadTreeConfig {
    /// Settings are only made with the merge floor below the capacity.
    #[verifier::type_invariant]
    spec fn floor_below_capacity(self) -> bool {
        self.min_per_quad < self.max_per_cell
    }

    pub closed spec fn spec_min_per_quad(&self) -> i32 {
        self.min_per_quad
    }

    pub closed spec fn spec_max_per_cell(&self) -> i32 {
        self.max_per_cell
    }

    #[verifier::when_used_as_spec(spec_min_per_quad)]
    pub fn min_per_quad(&self) -> (r: i32)
        ensures
            r == self.spec_min_per_quad(),
    {
        self.min_per_quad
    }

    #[verifier::when_used_as_spec(spec_max_per_cell)]
    pub fn max_per_cell(&self) -> (r: i32)
        ensures
            r == self.spec_max_per_cell(),
    {
        self.max_per_cell
    }

    pub fn default() -> (r: QuadTreeConfig)
        ensures
            r.min_per_quad() == 50,
            r.max_per_cell() == 100,
    {
        QuadTreeConfig { min_per_quad: 50, max_per_cell: 100 }
    }

    pub fn new(min_per_quad: i32, max_per_cell: i32) -> (r: QuadTreeConfig)
        requires
            min_per_quad < max_per_cell,
        ensures
            r.min_per_quad() == min_per_quad,
            r.max_per_cell() == max_per_cell,
    {
        QuadTreeConfig { min_per_quad, max_per_cell }
    }
}

/// An insertion named an identifier that is already registered.
#[derive(Clone, Copy, Debug, PartialEq, Eq, Structural)]
pub struct DuplicateId {
    pub id: Id,
}

/// What a lookup of `id` gives on the registry `m`.
pub open spec fn lookup_spec(m: Map<Id, Point>, id: Id) -> Option<Point> {
    if m.contains_key(id) {
        Some(m[id])
    } else {
        None
    }
}

/// The outcome of inserting `p` under `id` into the registry `m`, and the
/// registry afterwards.
pub open spec fn add_spec(m: Map<Id, Point>, id: Id, p: Point) -> (Result<(), DuplicateId>, Map<Id, Point>) {
    if m.contains_key(id) {
        (Err(DuplicateId { id }), m)
    } else {
        (Ok(()), m.insert(id, p))
    }
}

/// The registry after inserting each pair of `ops` in turn, starting from `m`.
pub open spec fn add_all(m: Map<Id, Point>, ops: Seq<(Id, Point)>) -> Map<Id, Point>
    decreases ops.len(),
{
    if ops.len() == 0 {
        m
    } else {
        add_spec(add_all(m, ops.drop_last()), ops.last().0, ops.last().1).1
    }
}

/// Inserting pairs with distinct identifiers into an empty registry keeps
/// exactly those pairs.
proof fn lemma_add_all_distinct(ops: Seq<(Id, Point)>)
    requires
        unique_ids(ops),
    ensures
        add_all(Map::empty(), ops) == pairs_map(ops),
    decreases ops.len(),
{
    if ops.len() > 0 {
        let t = ops.drop_last();
        assert(unique_ids(t)) by {
            assert forall|i: int, j: int| 0 <= i < j < t.len() implies t[i].0 != t[j].0 by {
                assert(t[i] == ops[i] && t[j] == ops[j]);
            }
        }
        lemma_add_all_distinct(t);
        lemma_pairs_map(t);
        if pairs_map(t).contains_key(ops.last().0) {
            let i = choose|i: int| 0 <= i < t.len() && t[i].0 == ops.last().0;
            assert(t[i] == ops[i]);
        }
    }
}

/// After a sequence of insertions with distinct identifiers, looking up any
/// of them gives exactly the point inserted under it, and the registry holds
/// one entry per insertion.
pub proof fn lemma_lookup_after_adds(ops: Seq<(Id, Point)>)
    requires
        unique_ids(ops),
    ensures
        forall|i: int|
            0 <= i < ops.len() ==> lookup_spec(add_all(Map::empty(), ops), #[trigger] ops[i].0)
                == Some(ops[i].1),
        add_all(Map::empty(), ops).len() == ops.len(),
{
    lemma_add_all_distinct(ops);
    lemma_pairs_map(ops);
}

/// After any sequence of insertions from an empty registry, identifiers may
/// repeat: an identifier's lookup gives the point of its first insertion,
/// since every later one was rejected, and an identifier never inserted is
/// not found.
pub proof fn lemma_lookup_first_wins(ops: Seq<(Id, Point)>)
    ensures
        forall|k: int|
            0 <= k < ops.len() && (forall|j: int| 0 <= j < k ==> ops[j].0 != ops[k].0)
                ==> lookup_spec(add_all(Map::empty(), ops), #[trigger] ops[k].0) == Some(ops[k].1),
        forall|id: Id|
            (forall|k: int| 0 <= k < ops.len() ==> ops[k].0 != id) ==> #[trigger] lookup_spec(
                add_all(Map::empty(), ops),
                id,
            ) is None,
    decreases ops.len(),
{
    if ops.len() > 0 {
        let t = ops.drop_last();
        lemma_lookup_first_wins(t);
        let (id, p) = ops.last();
        let m = add_all(Map::empty(), t);
        assert forall|k: int|
            0 <= k < ops.len() && (forall|j: int| 0 <= j < k ==> ops[j].0 != ops[k].0)
                implies lookup_spec(add_all(Map::empty(), ops), #[trigger] ops[k].0) == Some(
            ops[k].1,
        ) by {
            if k < t.len() {
                assert(t[k] == ops[k]);
                assert forall|j: int| 0 <= j < k implies t[j].0 != t[k].0 by {
                    assert(t[j] == ops[j]);
                }
                assert(lookup_spec(m, t[k].0) == Some(t[k].1));
            } else {
                assert forall|j: int| 0 <= j < t.len() implies t[j].0 != id by {
                    assert(t[j] == ops[j]);
                }
                assert(lookup_spec(m, id) is None);
            }
        }
        assert forall|x: Id|
            (forall|k: int| 0 <= k < ops.len() ==> ops[k].0 != x) implies #[trigger] lookup_spec(
            add_all(Map::empty(), ops),
            x,
        ) is None by {
            assert forall|k: int| 0 <= k < t.len() implies t[k].0 != x by {
                assert(t[k] == ops[k]);
            }
            assert(ops[ops.len() - 1].0 != x);
            assert(lookup_spec(m, x) is None);
        }
    }
}

/// Inserting under an identifier that is already registered fails with
/// `DuplicateId` and leaves every lookup as it was.
pub proof fn lemma_repeated_add(m: Map<Id, Point>, id: Id, p: Point)
    requires
        m.contains_key(id),
    ensures
        add_spec(m, id, p).0 == Err::<(), DuplicateId>(DuplicateId { id }),
        forall|k: Id| #[trigger] lookup_spec(add_spec(m, id, p).1, k) == lookup_spec(m, k),
{
}

/// Each successful insertion adds one point to the registry, and a failed
/// one adds none.
pub proof fn lemma_count_after_add(m: Map<Id, Point>, id: Id, p: Point)
    requires
        m.dom().finite(),
    ensures
        add_spec(m, id, p).1.len() == m.len() + if add_spec(m, id, p).0 is Ok {
            1int
        } else {
            0int
        },
{
}

/// An insertion changes the answer to an area query by its own identifier
/// alone, and only when the point lies in the area: how the tree splits
/// plays no part.
pub proof fn lemma_area_after_add(m: Map<Id, Point>, id: Id, p: Point, area: Rectangle)
    ensures
        ids_in(add_spec(m, id, p).1, area) == if !m.contains_key(id) && area.contains(p) {
            ids_in(m, area).insert(id)
        } else {
            ids_in(m, area)
        },
{
    if !m.contains_key(id) {
        if area.contains(p) {
            assert(ids_in(m.insert(id, p), area) =~= ids_in(m, area).insert(id));
        } else {
            assert(ids_in(m.insert(id, p), area) =~= ids_in(m, area));
        }
    }
}

/// A spatial index: points inserted under identifiers, found again by
/// identifier or by area.
pub struct QuadTree {
    root: Quad,
    points: HashMap<Id, Point>,
}

impl View for QuadTree {
    type V = Map<Id, Point>;

    /// The registered points, by identifier.
    closed spec fn view(&self) -> Map<Id, Point> {
        self.points@
    }
}

impl QuadTree {
    /// The root of the tree.
    pub closed spec fn root_node(self) -> Quad {
        self.root
    }

    /// The root is a well-formed tree that holds exactly the registered points.
    pub open spec fn wf(self) -> bool {
        &&& self.root_node().wf()
        &&& self.root_node().contents() == self@
    }

    pub open spec fn boundary(self) -> Rectangle {
        self.root_node().boundary
    }

    pub open spec fn config(self) -> QuadTreeConfig {
        self.root_node().config
    }

    pub fn new(boundary: Rectangle, config: QuadTreeConfig) -> (r: QuadTree)
        ensures
            r.wf(),
            r@ == Map::<Id, Point>::empty(),
            r.boundary() == boundary,
            r.config() == config,
            Node::Quad(r.root_node()).leaf_infos() == seq![
                CellInfo { boundary: quadrant(boundary, 0), count: 0 },
                CellInfo { boundary: quadrant(boundary, 1), count: 0 },
                CellInfo { boundary: quadrant(boundary, 2), count: 0 },
                CellInfo { boundary: quadrant(boundary, 3), count: 0 },
            ],
    {
        QuadTree { root: Quad::new(config, boundary), points: HashMap::new() }
    }

    /// Registers `point` under `id` and inserts it into the tree, unless `id`
    /// is already registered, in which case nothing changes.
    pub fn add(&mut self, id: Id, point: Point) -> (r: Result<(), DuplicateId>)
        requires
            old(self).wf(),
            old(self).boundary().contains(point),
        ensures
            final(self).wf(),
            final(self).boundary() == old(self).boundary(),
            final(self).config() == old(self).config(),
            (r, final(self)@) == add_spec(old(self)@, id, point),
            r is Err ==> *final(self) == *old(self),
            Node::Quad(final(self).root_node()).leaf_infos().len() >= Node::Quad(old(self).root_node()).leaf_infos().len(),
            (Node::Quad(final(self).root_node()).leaf_infos().len() - Node::Quad(old(self).root_node()).leaf_infos().len()) % 3 == 0,
    {
        broadcast use vstd::std_specs::hash::group_hash_axioms;

        if self.points.contains_key(&id) {
            return Err(DuplicateId { id });
        }
        self.root.add(id, point);
        self.points.insert(id, point);
        Ok(())
    }

    /// The point registered under `id`, if any.
    pub fn get_point(&self, id: Id) -> (r: Option<&Point>)
        ensures
            match r {
                Some(p) => lookup_spec(self@, id) == Some(*p),
                None => lookup_spec(self@, id) is None,
            },
    {
        broadcast use vstd::std_specs::hash::group_hash_axioms;

        self.points.get(&id)
    }

    /// The identifiers whose point lies in `area` (half-open), each once.
    pub fn find_in_area(&self, area: &Rectangle) -> (r: Vec<Id>)
        requires
            self.wf(),
        ensures
            r@.no_duplicates(),
            r@.to_set() == ids_in(self@, *area),
    {
        self.root.find_in_area(area)
    }

    /// One summary per leaf, depth first with quadrants in index order; the
    /// counts add up to the number of registered points.
    pub fn get_cells_info(&self) -> (r: Vec<CellInfo>)
        requires
            self.wf(),
        ensures
            r@ == Node::Quad(self.root_node()).leaf_infos(),
            total_count(r@) == self@.len(),
    {
        proof {
            Node::Quad(self.root).lemma_wf_contents();
            Node::Quad(self.root).lemma_leaf_total();
        }
        self.root.get_cells_info()
    }
}

/// Every tree kept by these operations splits each internal node into the
/// quadrants of its boundary, and keeps each leaf within capacity unless its
/// points all lie at one location.
pub proof fn lemma_tree_invariants(t: QuadTree)
    requires
        t.wf(),
    ensures
        Node::Quad(t.root_node()).quadrants_tiled(),
        Node::Quad(t.root_node()).leaves_within_capacity(),
{
    Node::Quad(t.root_node()).lemma_wf_invariants();
}

} // verus!
