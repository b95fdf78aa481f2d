use vstd::prelude::*;

use crate::coord::{trunc_div, Coord};
use crate::node::{excluded, ids};
use crate::region::{meets, well_formed, Region};
use crate::slot_map::SlotId;
use crate::tree::{payloads, QuadTree};

verus! {

/// How near a world edge an agent must be for the edge to turn it back.
pub const BORDER_MARGIN: i32 = 20;

/// The collision square of an agent, with the handle the agent was filed
/// under in the current tick and how many neighbours it saw.
#[derive(Debug)]
pub struct Collider {
    pub id: Option<SlotId>,
    pub radius: i32,
    pub nearby: usize,
}

/// The square of side about `radius` centred on `(x, y)`: each corner lies
/// `radius / 2`, rounded toward zero, from the centre on each axis.
pub open spec fn agent_square(x: int, y: int, radius: int) -> Region {
    let half = trunc_div(radius, 2);
    Region {
        min: Coord { x: (x - half) as i32, y: (y - half) as i32 },
        max: Coord { x: (x + half) as i32, y: (y + half) as i32 },
    }
}

/// The square `agent_square(x, y, radius)` is made of `i32` coordinates.
pub open spec fn square_fits(x: int, y: int, radius: int) -> bool {
    let half = trunc_div(radius, 2);
    &&& i32::MIN <= x - half <= i32::MAX
    &&& i32::MIN <= y - half <= i32::MAX
    &&& i32::MIN <= x + half <= i32::MAX
    &&& i32::MIN <= y + half <= i32::MAX
}

/// `region` grown by `margin` on every side.
pub open spec fn grown(region: Region, margin: int) -> Region {
    Region {
        min: Coord { x: (region.min.x - margin) as i32, y: (region.min.y - margin) as i32 },
        max: Coord { x: (region.max.x + margin) as i32, y: (region.max.y + margin) as i32 },
    }
}

/// The exclude list holding the agent's own handle, if it has one.
pub open spec fn own_list(own: Option<SlotId>) -> Seq<SlotId> {
    match own {
        Some(id) => seq![id],
        None => Seq::empty(),
    }
}

/// Whether an agent at `pos` on an axis, moving in the direction of the sign
/// of `heading`, is within `BORDER_MARGIN` of the edge `low` or `high` it is
/// moving toward.
pub open spec fn turns_back_spec(pos: int, heading: int, low: int, high: int) -> bool {
    (pos < low + BORDER_MARGIN && heading < 0) || (pos > high - BORDER_MARGIN && heading > 0)
}

impl Collider {
    /// A collider of side `radius` not yet filed under a handle.
    pub fn new(radius: i32) -> (r: Collider)
        ensures
            r.id.is_none(),
            r.radius == radius,
            r.nearby == 0,
    {
        Collider { id: None, radius, nearby: 0 }
    }

    /// The collision square of an agent at `(x, y)`.
    pub fn into_region(&self, x: i32, y: i32) -> (r: Region)
        requires
            square_fits(x as int, y as int, self.radius as int),
        ensures
            r == agent_square(x as int, y as int, self.radius as int),
    {
        let origin = Coord::new(x, y);
        let half = Coord::new(self.radius, self.radius).div(2);
        Region::new(origin.sub(half), origin.add(half))
    }
}

/// Empties `tree` and files each of `items`, a region and a payload, in
/// order; item `i` gets the handle `i`, which is returned at position `i`.
pub fn rebuild<T>(tree: &mut QuadTree<T>, items: Vec<(Region, T)>) -> (r: Vec<SlotId>)
    requires
        old(tree).wf(),
        items@.len() < u64::MAX,
        forall|i: int| 0 <= i < items@.len() ==> well_formed(#[trigger] items@[i].0),
    ensures
        final(tree).wf(),
        final(tree).world() == old(tree).world(),
        final(tree).regions() == items@.map_values(|it: (Region, T)| it.0),
        final(tree).values() == items@.map_values(|it: (Region, T)| it.1),
        r@.len() == items@.len(),
        forall|i: int| 0 <= i < r@.len() ==> #[trigger] r@[i]@ == i,
{
    let ghost all = items@;
    tree.clear();
    let mut handles: Vec<SlotId> = Vec::new();
    for item in it: items
        invariant
            it.seq() == all,
            all.len() < u64::MAX,
            forall|i: int| 0 <= i < all.len() ==> well_formed(#[trigger] all[i].0),
            tree.wf(),
            tree.world() == old(tree).world(),
            handles@.len() == it.index(),
            tree.regions() == all.take(it.index() as int).map_values(|it: (Region, T)| it.0),
            tree.values() == all.take(it.index() as int).map_values(|it: (Region, T)| it.1),
            forall|i: int| 0 <= i < handles@.len() ==> #[trigger] handles@[i]@ == i,
    {
        let ghost k = it.index() as int;
        let (region, payload) = item;
        let id = tree.insert(region, payload);
        handles.push(id);
        proof {
            assert(all.take(k + 1).map_values(|it: (Region, T)| it.0)
                =~= all.take(k).map_values(|it: (Region, T)| it.0).push(region));
            assert(all.take(k + 1).map_values(|it: (Region, T)| it.1)
                =~= all.take(k).map_values(|it: (Region, T)| it.1).push(payload));
        }
    }
    proof {
        assert(all.take(all.len() as int) =~= all);
    }
    handles
}

/// The payloads of the other agents near an agent whose collision square is
/// `region`: a query of `region` grown by `margin`, leaving out the agent's
/// own handle `own`.
pub fn neighbours<'a, T>(tree: &'a QuadTree<T>, region: &Region, margin: i32, own: &Option<SlotId>) -> (r: Vec<&'a T>)
    requires
        tree.wf(),
        i32::MIN <= region.min.x - margin <= i32::MAX,
        i32::MIN <= region.min.y - margin <= i32::MAX,
        i32::MIN <= region.max.x + margin <= i32::MAX,
        i32::MIN <= region.max.y + margin <= i32::MAX,
    ensures
        exists|hs: Seq<u64>| #[trigger] tree.answered_by(grown(*region, margin as int), own_list(*own), payloads(r@), hs),
{
    let window = region.with_margin(margin);
    let exclude = match own {
        Some(id) => vec![*id],
        None => Vec::new(),
    };
    proof {
        assert(window == grown(*region, margin as int));
        assert(exclude@ =~= own_list(*own));
    }
    tree.query(&window, &exclude)
}

/// Whether an agent at `pos` on one axis, moving with the sign of
/// `heading`, must have that component of its velocity reversed by the world
/// edges `low` and `high`.
pub fn turns_back(pos: i32, heading: i32, low: i32, high: i32) -> (r: bool)
    ensures
        r == turns_back_spec(pos as int, heading as int, low as int, high as int),
{
    let p = pos as i64;
    (p < low as i64 + BORDER_MARGIN as i64 && heading < 0) || (p > high as i64 - BORDER_MARGIN as i64 && heading > 0)
}

/// Which velocity components of an agent at `(x, y)` moving with the signs
/// `(sx, sy)` the borders of `world` reverse.
pub fn bounce(world: &Region, x: i32, y: i32, sx: i32, sy: i32) -> (r: (bool, bool))
    ensures
        r.0 == turns_back_spec(x as int, sx as int, world.min.x as int, world.max.x as int),
        r.1 == turns_back_spec(y as int, sy as int, world.min.y as int, world.max.y as int),
{
    (turns_back(x, sx, world.min.x, world.max.x), turns_back(y, sy, world.min.y, world.max.y))
}

/// An agent alone in its vision window gets nothing back from `neighbours`:
/// when no item but its own meets the window, the answer is empty.
pub proof fn lemma_isolated_agent_has_no_neighbours<T>(
    tree: QuadTree<T>,
    window: Region,
    own: SlotId,
    r: Seq<T>,
    hs: Seq<u64>,
)
    requires
        tree.wf(),
        tree.answered_by(window, own_list(Some(own)), r, hs),
        forall|h: int| 0 <= h < tree.regions().len() && h != own@ ==> !meets(#[trigger] tree.regions()[h], window),
    ensures
        r.len() == 0,
{
    tree.lemma_item_count();
    if hs.len() > 0 {
        let h = hs[0];
        assert(h < tree.values().len());
        assert(ids(own_list(Some(own))) =~= seq![own@]);
        assert(!excluded(own_list(Some(own)), h));
        assert(ids(own_list(Some(own)))[0] == own@);
        assert(h != own@);
        assert(meets(tree.regions()[h as int], window));
    }
}

/// An agent at least `BORDER_MARGIN` inside the world on both axes keeps
/// both velocity components, whatever its heading.
pub proof fn lemma_inner_agent_not_turned(world: Region, x: int, y: int, sx: int, sy: int)
    requires
        world.min.x + BORDER_MARGIN <= x <= world.max.x - BORDER_MARGIN,
        world.min.y + BORDER_MARGIN <= y <= world.max.y - BORDER_MARGIN,
    ensures
        !turns_back_spec(x, sx, world.min.x as int, world.max.x as int),
        !turns_back_spec(y, sy, world.min.y as int, world.max.y as int),
{
}

} // verus!
