//! Utilities for handling surfaces, subsurfaces and regions

pub mod calls;
pub mod order;
pub mod regions;
pub mod roles;
pub mod store;
pub mod tree;

pub use self::regions::{RegionId, Regions};
pub use self::store::Surfaces;
pub use self::tree::{SurfaceId, TraversalAction};

use self::roles::{Role, RoleType, WrongRole};
use self::store::{with_attributes, with_role};
use self::tree::{is_call, is_walk, lead_to, same_trees, Visit, Walk};
use crate::utils::{law_rectangle_covers_its_area, law_rectangle_spans_its_sides, Rectangle};
use vstd::prelude::*;

verus! {

/// `wayland_server`'s handle to a buffer of a client, which the compositor hands on
/// without looking inside
#[verifier::external_type_specification]
#[verifier::external_body]
pub struct ExWlBuffer(wayland_server::protocol::wl_buffer::WlBuffer);

/// `wayland_server`'s handle to a frame callback of a client, which the compositor
/// hands on without looking inside
#[verifier::external_type_specification]
#[verifier::external_body]
pub struct ExWlCallback(wayland_server::protocol::wl_callback::WlCallback);

/// `wayland_server`'s storage for values of arbitrary types
#[verifier::external_type_specification]
#[verifier::external_body]
pub struct ExUserDataMap(wayland_server::UserDataMap);

/// `UserDataMap::new` makes a map that holds no value. Nothing is stated of the result:
/// values are added through shared references, so what a map holds is not determined
/// by the map as a value.
pub assume_specification[ wayland_server::UserDataMap::new ]() -> wayland_server::UserDataMap;

/// Transform between the contents of a buffer and what is displayed of them
#[derive(Copy, Clone, Debug, PartialEq, Eq, Structural)]
pub enum Transform {
    /// no transform
    Normal,
    /// 90 degrees counter-clockwise
    _90,
    /// 180 degrees counter-clockwise
    _180,
    /// 270 degrees counter-clockwise
    _270,
    /// 180 degree flip around a vertical axis
    Flipped,
    /// flip and rotate 90 degrees counter-clockwise
    Flipped90,
    /// flip and rotate 180 degrees counter-clockwise
    Flipped180,
    /// flip and rotate 270 degrees counter-clockwise
    Flipped270,
}

/// Description of which part of a surface
/// should be considered damaged and needs to be redrawn
#[derive(Copy, Clone, Debug, PartialEq, Eq, Structural)]
pub enum Damage {
    /// The whole surface must be considered damaged (this is the default)
    Full,
    /// A rectangle containing the damaged zone, in surface coordinates
    Surface(Rectangle),
    /// A rectangle containing the damaged zone, in buffer coordinates
    ///
    /// Note: Buffer scaling must be taken into consideration
    Buffer(Rectangle),
}

/// New buffer assignation for a surface
pub enum BufferAssignment {
    /// The surface no longer has a buffer attached to it
    Removed,
    /// A new buffer has been attached
    NewBuffer {
        /// The buffer object
        buffer: wayland_server::protocol::wl_buffer::WlBuffer,
        /// location of the new buffer relative to the previous one
        delta: (i32, i32),
    },
}

/// Data associated with a surface, aggregated by the handlers
///
/// Most of the fields of this struct represent a double-buffered state, which
/// should only be applied once a [`Commit`](SurfaceEvent::Commit)
/// request is received from the surface.
///
/// You are responsible for setting those values as you see fit to avoid
/// processing them two times.
pub struct SurfaceAttributes {
    /// Buffer defining the contents of the surface
    ///
    /// You are free to set this field to `None` to avoid processing it several
    /// times. It'll be set to `Some(...)` if the user attaches a buffer (or `NULL`) to
    /// the surface, and be left to `None` if the user does not attach anything.
    pub buffer: Option<BufferAssignment>,
    /// Scale of the contents of the buffer, for higher-resolution contents.
    ///
    /// If it matches the one of the output displaying this surface, no change
    /// is necessary.
    pub buffer_scale: i32,
    /// Transform under which interpret the contents of the buffer
    ///
    /// If it matches the one of the output displaying this surface, no change
    /// is necessary.
    pub buffer_transform: Transform,
    /// Region of the surface that is guaranteed to be opaque
    ///
    /// By default the whole surface is potentially transparent
    pub opaque_region: Option<RegionAttributes>,
    /// Region of the surface that is sensitive to user input
    ///
    /// By default the whole surface should be sensitive
    pub input_region: Option<RegionAttributes>,
    /// Damage rectangle
    ///
    /// Hint provided by the client to suggest that only this part
    /// of the surface was changed and needs to be redrawn
    pub damage: Damage,
    /// The frame callback associated with this surface for the commit
    ///
    /// The be triggered to notify the client about when it would be a
    /// good time to start drawing its next frame.
    ///
    /// An example possibility would be to trigger it once the frame
    /// associated with this commit has been displayed on the screen.
    pub frame_callback: Option<wayland_server::protocol::wl_callback::WlCallback>,
    /// User-controlled data
    ///
    /// This is your field to host whatever you need.
    pub user_data: wayland_server::UserDataMap,
}

impl SurfaceAttributes {
    /// Whether these are the attributes of a surface of which the client has set nothing yet
    pub open spec fn untouched(self) -> bool {
        &&& self.buffer is None
        &&& self.buffer_scale == 1
        &&& self.buffer_transform == Transform::Normal
        &&& self.opaque_region is None
        &&& self.input_region is None
        &&& self.damage == Damage::Full
        &&& self.frame_callback is None
    }
}

/// A client that has set nothing has attached no buffer, at scale one and without a transform; has
/// set no regions and asked for no frame callback; and the whole surface counts as damaged.
pub proof fn law_untouched_attributes(attributes: SurfaceAttributes)
    ensures
        attributes.untouched() <==> {
            &&& attributes.buffer is None
            &&& attributes.buffer_scale == 1
            &&& attributes.buffer_transform is Normal
            &&& attributes.opaque_region is None
            &&& attributes.input_region is None
            &&& attributes.damage is Full
            &&& attributes.frame_callback is None
        },
{
}

impl Default for SurfaceAttributes {
    fn default() -> (attributes: SurfaceAttributes)
        ensures
            attributes.untouched(),
    {
        SurfaceAttributes {
            buffer: None,
            buffer_scale: 1,
            buffer_transform: Transform::Normal,
            opaque_region: None,
            input_region: None,
            damage: Damage::Full,
            frame_callback: None,
            user_data: wayland_server::UserDataMap::new(),
        }
    }
}

/// Attributes defining the behaviour of a sub-surface relative to its parent
#[derive(Copy, Clone, Debug, PartialEq, Eq)]
pub struct SubsurfaceRole {
    /// Location of the top-left corner of this sub-surface relative to
    /// the top-left corner of its parent
    pub location: (i32, i32),
    /// Sync status of this sub-surface
    ///
    /// If `true`, this surface should be repainted synchronously with its parent
    /// if `false`, it should be considered independent of its parent regarding
    /// repaint timings.
    pub sync: bool,
}

impl Default for SubsurfaceRole {
    fn default() -> (role: SubsurfaceRole)
        ensures
            role == (SubsurfaceRole { location: (0, 0), sync: true }),
    {
        SubsurfaceRole { location: (0, 0), sync: true }
    }
}

/// Kind of a rectangle part of a region
#[derive(Copy, Clone, Debug, PartialEq, Eq, Structural)]
pub enum RectangleKind {
    /// This rectangle should be added to the region
    Add,
    /// The intersection of this rectangle with the region should
    /// be removed from the region
    Subtract,
}

/// Description of the contents of a region
///
/// A region is defined as an union and difference of rectangle.
///
/// This struct contains an ordered `Vec` containing the rectangles defining
/// a region. They should be added or subtracted in this order to compute the
/// actual contents of the region.
#[derive(Debug)]
pub struct RegionAttributes {
    /// List of rectangle part of this region
    pub rects: Vec<(RectangleKind, Rectangle)>,
}

/// The points of the plane that a list of rectangles describes, when they are
/// added and subtracted one after the other
pub open spec fn region_points(rects: Seq<(RectangleKind, Rectangle)>) -> Set<(int, int)>
    decreases rects.len(),
{
    if rects.len() == 0 {
        Set::empty()
    } else {
        let before = region_points(rects.drop_last());
        let (kind, rect) = rects.last();
        match kind {
            RectangleKind::Add => before.union(rect.points()),
            RectangleKind::Subtract => before.difference(rect.points()),
        }
    }
}

impl Clone for RegionAttributes {
    fn clone(&self) -> (copy: RegionAttributes)
        ensures
            copy.rects@ == self.rects@,
    {
        let mut rects: Vec<(RectangleKind, Rectangle)> = Vec::new();
        let mut i: usize = 0;
        while i < self.rects.len()
            invariant
                i <= self.rects.len(),
                rects@ == self.rects@.take(i as int),
            decreases self.rects.len() - i,
        {
            rects.push(self.rects[i]);
            i = i + 1;
        }
        assert(rects@ == self.rects@);
        RegionAttributes { rects }
    }
}

impl Default for RegionAttributes {
    fn default() -> (region: RegionAttributes)
        ensures
            region.rects@ == Seq::<(RectangleKind, Rectangle)>::empty(),
    {
        RegionAttributes { rects: Vec::new() }
    }
}

impl RegionAttributes {
    /// The points of the plane inside the region
    pub open spec fn points(self) -> Set<(int, int)> {
        region_points(self.rects@)
    }

    /// Checks whether given point is inside the region.
    pub fn contains(&self, point: (i32, i32)) -> (inside: bool)
        ensures
            inside == self.points().contains((point.0 as int, point.1 as int)),
    {
        let mut contains = false;
        let mut i: usize = 0;
        while i < self.rects.len()
            invariant
                i <= self.rects.len(),
                contains == region_points(self.rects@.take(i as int)).contains(
                    (point.0 as int, point.1 as int),
                ),
            decreases self.rects.len() - i,
        {
            let (kind, rect) = self.rects[i];
            if rect.contains(point) {
                match kind {
                    RectangleKind::Add => contains = true,
                    RectangleKind::Subtract => contains = false,
                }
            }
            assert(self.rects@.take(i + 1).drop_last() == self.rects@.take(i as int));
            i = i + 1;
        }
        assert(self.rects@.take(i as int) == self.rects@);
        contains
    }
}

/// The last rectangle that covers a point decides whether the point is inside the region:
/// it is iff that rectangle is added. A point that no rectangle covers is outside.
pub proof fn law_last_rectangle_decides(
    rects: Seq<(RectangleKind, Rectangle)>,
    x: int,
    y: int,
)
    ensures
        region_points(rects).contains((x, y)) <==> exists|i: int|
            {
                &&& 0 <= i < rects.len()
                &&& rects[i].0 == RectangleKind::Add
                &&& #[trigger] rects[i].1.covers(x, y)
                &&& forall|j: int| i < j < rects.len() ==> !(#[trigger] rects[j].1.covers(x, y))
            },
    decreases rects.len(),
{
    if rects.len() > 0 {
        let front = rects.drop_last();
        let last = rects.len() - 1;
        law_last_rectangle_decides(front, x, y);
        if rects[last].1.covers(x, y) {
        } else if region_points(rects).contains((x, y)) {
            let i = choose|i: int|
                {
                    &&& 0 <= i < front.len()
                    &&& front[i].0 == RectangleKind::Add
                    &&& #[trigger] front[i].1.covers(x, y)
                    &&& forall|j: int| i < j < front.len() ==> !(#[trigger] front[j].1.covers(x, y))
                };
            assert(rects[i].1.covers(x, y));
            assert forall|j: int| i < j < rects.len() implies !(#[trigger] rects[j].1.covers(
                x,
                y,
            )) by {
                if j < last {
                    assert(!front[j].1.covers(x, y));
                }
            }
        } else {
            assert forall|i: int|
                !{
                    &&& 0 <= i < rects.len()
                    &&& rects[i].0 == RectangleKind::Add
                    &&& #[trigger] rects[i].1.covers(x, y)
                    &&& forall|j: int|
                        i < j < rects.len() ==> !(#[trigger] rects[j].1.covers(x, y))
                } by {
                if 0 <= i < last && rects[i].1.covers(x, y) {
                    assert(front[i].1.covers(x, y));
                    if forall|j: int| i < j < rects.len() ==> !(#[trigger] rects[j].1.covers(x, y)) {
                        assert forall|j: int| i < j < front.len() implies !(
                        #[trigger] front[j].1.covers(x, y)) by {
                            assert(!rects[j].1.covers(x, y));
                        }
                    }
                }
            }
        }
    }
}

/// A region that adds a single rectangle has the points of the rectangle, as many as the product of
/// its sides; in particular any point that is right of its left edge by less than its width, and
/// below its top edge by less than its height. One that subtracts a single rectangle is empty.
pub proof fn law_region_of_one_rectangle(rect: Rectangle, dx: int, dy: int)
    ensures
        region_points(seq![(RectangleKind::Add, rect)]).contains((rect.x + dx, rect.y + dy)) <==> 0
            <= dx < rect.width && 0 <= dy < rect.height,
        rect.width >= 0 && rect.height >= 0 ==> {
            &&& region_points(seq![(RectangleKind::Add, rect)]).finite()
            &&& region_points(seq![(RectangleKind::Add, rect)]).len() == rect.width * rect.height
        },
        region_points(seq![(RectangleKind::Subtract, rect)]) == Set::<(int, int)>::empty(),
{
    let none = Seq::<(RectangleKind, Rectangle)>::empty();
    law_region_algebra(none, rect);
    assert(none.push((RectangleKind::Add, rect)) == seq![(RectangleKind::Add, rect)]);
    assert(none.push((RectangleKind::Subtract, rect)) == seq![(RectangleKind::Subtract, rect)]);
    assert(region_points(seq![(RectangleKind::Add, rect)]) == rect.points());
    law_rectangle_spans_its_sides(rect, rect.x + dx, rect.y + dy);
    if rect.width >= 0 && rect.height >= 0 {
        law_rectangle_covers_its_area(rect);
    }
}

/// Whether a point is inside a region is decided by the last of its rectangles that the point is
/// in: between the left and the right edge, and between the top and the bottom edge. It is inside
/// if that rectangle is added; where it is subtracted, or there is none, the point is outside.
pub proof fn law_points_of_a_region(region: RegionAttributes, x: int, y: int)
    ensures
        region.points().contains((x, y)) <==> exists|i: int|
            {
                let rect = (#[trigger] region.rects@[i]).1;
                &&& 0 <= i < region.rects@.len()
                &&& region.rects@[i].0 == RectangleKind::Add
                &&& rect.x <= x < rect.x + rect.width
                &&& rect.y <= y < rect.y + rect.height
                &&& forall|j: int|
                    {
                        let later = (#[trigger] region.rects@[j]).1;
                        i < j < region.rects@.len() ==> !{
                            &&& later.x <= x < later.x + later.width
                            &&& later.y <= y < later.y + later.height
                        }
                    }
            },
{
    let rects = region.rects@;
    law_last_rectangle_decides(rects, x, y);
    if region.points().contains((x, y)) {
        let i = choose|i: int|
            {
                &&& 0 <= i < rects.len()
                &&& rects[i].0 == RectangleKind::Add
                &&& #[trigger] rects[i].1.covers(x, y)
                &&& forall|j: int| i < j < rects.len() ==> !(#[trigger] rects[j].1.covers(x, y))
            };
        assert forall|j: int|
            {
                let later = (#[trigger] rects[j]).1;
                i < j < rects.len() ==> !{
                    &&& later.x <= x < later.x + later.width
                    &&& later.y <= y < later.y + later.height
                }
            } by {
            if i < j < rects.len() {
                assert(!rects[j].1.covers(x, y));
            }
        }
        assert(rects[i].1.covers(x, y));
    } else {
        assert forall|i: int|
            !{
                let rect = (#[trigger] rects[i]).1;
                &&& 0 <= i < rects.len()
                &&& rects[i].0 == RectangleKind::Add
                &&& rect.x <= x < rect.x + rect.width
                &&& rect.y <= y < rect.y + rect.height
                &&& forall|j: int|
                    {
                        let later = (#[trigger] rects[j]).1;
                        i < j < rects.len() ==> !{
                            &&& later.x <= x < later.x + later.width
                            &&& later.y <= y < later.y + later.height
                        }
                    }
            } by {
            if 0 <= i < rects.len() && rects[i].1.covers(x, y) && rects[i].0 == RectangleKind::Add {
                let j = choose|j: int| i < j < rects.len() && #[trigger] rects[j].1.covers(x, y);
                assert(rects[j].1.covers(x, y));
            }
        }
    }
}

/// A region is built by union and difference: adding a rectangle unites the region with
/// it, subtracting one takes its points away, and the region without rectangles is empty.
pub proof fn law_region_algebra(rects: Seq<(RectangleKind, Rectangle)>, rect: Rectangle)
    ensures
        region_points(Seq::empty()) == Set::<(int, int)>::empty(),
        region_points(rects.push((RectangleKind::Add, rect))) == region_points(rects).union(
            rect.points(),
        ),
        region_points(rects.push((RectangleKind::Subtract, rect))) == region_points(
            rects,
        ).difference(rect.points()),
{
    assert(rects.push((RectangleKind::Add, rect)).drop_last() == rects);
    assert(rects.push((RectangleKind::Subtract, rect)).drop_last() == rects);
}

/// Ties a type to a marker that holds nothing, so that a struct can have the type as a parameter
/// without holding a value of it
trait Marked {
    /// The marker
    type Marker;
}

impl<R> Marked for R {
    type Marker = ();
}

/// A Compositor global token
///
/// It can be shared and sent between threads, whatever the type of the roles is.
///
/// This token can be cloned at will, and is the entry-point to
/// access data associated with the surfaces and regions of the compositor
/// that provided it. Surfaces and regions are managed by the compositor from
/// [`Surfaces::manage`] and [`Regions::manage`] on.
pub struct CompositorToken<R> {
    _role: <R as Marked>::Marker,
}

// we implement them manually because #[derive(..)] would require R: Clone
impl<R> Copy for CompositorToken<R> {

}

impl<R> Clone for CompositorToken<R> {
    fn clone(&self) -> (token: CompositorToken<R>)
        ensures
            token == *self,
    {
        *self
    }
}

impl<R> CompositorToken<R> {
    /// The token: there is one only
    pub closed spec fn token() -> CompositorToken<R> {
        CompositorToken { _role: () }
    }

    /// Creates the token of a compositor
    pub(crate) fn make() -> (token: CompositorToken<R>)
        ensures
            token == CompositorToken::<R>::token(),
    {
        CompositorToken { _role: () }
    }
}

impl<R> CompositorToken<R> {
    /// Access the data of a surface
    ///
    /// The closure will be called with the contents of the data associated with this surface.
    ///
    /// The surface has to be managed by the compositor.
    pub fn with_surface_data<F, T>(
        self,
        surfaces: &mut Surfaces<R>,
        surface: &SurfaceId,
        f: F,
    ) -> (result: T) where F: FnOnce(&mut SurfaceAttributes) -> T
        requires
            old(surfaces)@.contains_key(*surface),
            forall|attributes: &mut SurfaceAttributes|
                *attributes == old(surfaces)@[*surface].attributes ==> #[trigger] call_requires(
                    f,
                    (attributes,),
                ),
        ensures
            old(surfaces).wf() ==> final(surfaces).wf(),
            exists|attributes: &mut SurfaceAttributes|
                {
                    &&& *attributes == old(surfaces)@[*surface].attributes
                    &&& #[trigger] call_ensures(f, (attributes,), result)
                    &&& final(surfaces)@ == with_attributes(
                        old(surfaces)@,
                        *surface,
                        *final(attributes),
                    )
                },
    {
        surfaces.with_data(surface, f)
    }
}

impl<R> CompositorToken<R> where R: RoleType + Role<SubsurfaceRole> {
    /// Access the data of a surface tree from bottom to top
    ///
    /// You provide three closures, a "filter", a "processor" and a "post filter".
    ///
    /// The first closure is initially called on a surface to determine if its children
    /// should be processed as well. It returns a `TraversalAction<T>` reflecting that.
    ///
    /// The second closure is supposed to do the actual processing. The processing closure for
    /// a surface may be called after the processing closure of some of its children, depending
    /// on the stack ordering the client requested. Here the surfaces are processed in the same
    /// order as they are supposed to be drawn: from the farthest of the screen to the nearest.
    ///
    /// The third closure is called once all the subtree of a node has been processed, and gives
    /// an opportunity for early-stopping. If it returns `true` the processing will continue,
    /// while if it returns `false` it'll stop.
    ///
    /// The arguments provided to the closures are, in this order:
    ///
    /// - The surface itself
    /// - a mutable reference to its surface attribute data
    /// - a mutable reference to its role data,
    /// - a custom value that is passed in a fold-like manner, but only from the output of a parent
    ///   to its children. See [`TraversalAction`] for details.
    ///
    /// The surface has to be managed by the compositor.
    pub fn with_surface_tree_upward<F1, F2, F3, T>(
        self,
        surfaces: &mut Surfaces<R>,
        surface: &SurfaceId,
        initial: T,
        filter: F1,
        processor: F2,
        post_filter: F3,
    ) where
        F1: FnMut(&SurfaceId, &mut SurfaceAttributes, &mut R, &T) -> TraversalAction<T>,
        F2: FnMut(&SurfaceId, &mut SurfaceAttributes, &mut R, &T),
        F3: FnMut(&SurfaceId, &mut SurfaceAttributes, &mut R, &T) -> bool,

        requires
            old(surfaces).wf(),
            old(surfaces)@.contains_key(*surface),
            forall|s: &SurfaceId, a: &mut SurfaceAttributes, r: &mut R, t: &T|
                old(surfaces)@.contains_key(*s) ==> #[trigger] call_requires(filter, (s, a, r, t)),
            forall|s: &SurfaceId, a: &mut SurfaceAttributes, r: &mut R, t: &T|
                old(surfaces)@.contains_key(*s) ==> #[trigger] call_requires(processor, (s, a, r, t)),
            forall|s: &SurfaceId, a: &mut SurfaceAttributes, r: &mut R, t: &T|
                old(surfaces)@.contains_key(*s) ==> #[trigger] call_requires(post_filter, (s, a, r, t)),
        ensures
            final(surfaces).wf(),
            same_trees(old(surfaces)@, final(surfaces)@),
            exists|walk: Walk<R, T>|
                {
                    &&& #[trigger] is_walk(old(surfaces)@, *surface, initial, false, walk)
                    &&& lead_to(old(surfaces)@, walk.calls(), final(surfaces)@)
                    &&& forall|visit: Visit<R, T>| #[trigger]
                        walk.calls().contains(visit) ==> exists|
                            attributes: &mut SurfaceAttributes,
                            role: &mut R,
                        |
                            {
                                &&& *attributes == visit.attributes.0
                                &&& *final(attributes) == visit.attributes.1
                                &&& *role == visit.role.0
                                &&& *final(role) == visit.role.1
                                &&& #[trigger] is_call(
                                    filter,
                                    processor,
                                    post_filter,
                                    visit,
                                    attributes,
                                    role,
                                )
                            }
                },
    {
        surfaces.map_tree(surface, &initial, filter, processor, post_filter, false);
    }

    /// Access the data of a surface tree from top to bottom
    ///
    /// Behavior is the same as
    /// [`with_surface_tree_upward`](CompositorToken::with_surface_tree_upward), but
    /// the processing is done in the reverse order, from the nearest of the screen to the deepest.
    ///
    /// This would typically be used to find out which surface of a subsurface tree has been
    /// clicked for example.
    pub fn with_surface_tree_downward<F1, F2, F3, T>(
        self,
        surfaces: &mut Surfaces<R>,
        surface: &SurfaceId,
        initial: T,
        filter: F1,
        processor: F2,
        post_filter: F3,
    ) where
        F1: FnMut(&SurfaceId, &mut SurfaceAttributes, &mut R, &T) -> TraversalAction<T>,
        F2: FnMut(&SurfaceId, &mut SurfaceAttributes, &mut R, &T),
        F3: FnMut(&SurfaceId, &mut SurfaceAttributes, &mut R, &T) -> bool,

        requires
            old(surfaces).wf(),
            old(surfaces)@.contains_key(*surface),
            forall|s: &SurfaceId, a: &mut SurfaceAttributes, r: &mut R, t: &T|
                old(surfaces)@.contains_key(*s) ==> #[trigger] call_requires(filter, (s, a, r, t)),
            forall|s: &SurfaceId, a: &mut SurfaceAttributes, r: &mut R, t: &T|
                old(surfaces)@.contains_key(*s) ==> #[trigger] call_requires(processor, (s, a, r, t)),
            forall|s: &SurfaceId, a: &mut SurfaceAttributes, r: &mut R, t: &T|
                old(surfaces)@.contains_key(*s) ==> #[trigger] call_requires(post_filter, (s, a, r, t)),
        ensures
            final(surfaces).wf(),
            same_trees(old(surfaces)@, final(surfaces)@),
            exists|walk: Walk<R, T>|
                {
                    &&& #[trigger] is_walk(old(surfaces)@, *surface, initial, true, walk)
                    &&& lead_to(old(surfaces)@, walk.calls(), final(surfaces)@)
                    &&& forall|visit: Visit<R, T>| #[trigger]
                        walk.calls().contains(visit) ==> exists|
                            attributes: &mut SurfaceAttributes,
                            role: &mut R,
                        |
                            {
                                &&& *attributes == visit.attributes.0
                                &&& *final(attributes) == visit.attributes.1
                                &&& *role == visit.role.0
                                &&& *final(role) == visit.role.1
                                &&& #[trigger] is_call(
                                    filter,
                                    processor,
                                    post_filter,
                                    visit,
                                    attributes,
                                    role,
                                )
                            }
                },
    {
        surfaces.map_tree(surface, &initial, filter, processor, post_filter, true);
    }

    /// Retrieve the parent of this surface
    ///
    /// Returns `None` is this surface is a root surface
    ///
    /// The surface has to be managed by the compositor.
    pub fn get_parent(self, surfaces: &Surfaces<R>, surface: &SurfaceId) -> (parent: Option<
        SurfaceId,
    >)
        requires
            surfaces@.contains_key(*surface),
        ensures
            parent == surfaces@[*surface].parent,
    {
        surfaces.get_parent(surface)
    }

    /// Retrieve the children of this surface
    ///
    /// The surface has to be managed by the compositor.
    pub fn get_children(self, surfaces: &Surfaces<R>, surface: &SurfaceId) -> (children: Vec<
        SurfaceId,
    >)
        requires
            surfaces@.contains_key(*surface),
        ensures
            children@ == surfaces@[*surface].stack@.filter(|entry: SurfaceId| entry != *surface),
    {
        surfaces.get_children(surface)
    }
}

impl<R: RoleType> CompositorToken<R> {
    /// Check whether this surface as a role or not
    ///
    /// The surface has to be managed by the compositor.
    pub fn has_a_role(self, surfaces: &Surfaces<R>, surface: &SurfaceId) -> (has: bool)
        requires
            surfaces@.contains_key(*surface),
        ensures
            has == (surfaces@[*surface].role != R::no_role()),
    {
        surfaces.has_a_role(surface)
    }

    /// Check whether this surface as a specific role
    ///
    /// The surface has to be managed by the compositor.
    pub fn has_role<RoleData>(self, surfaces: &Surfaces<R>, surface: &SurfaceId) -> (has: bool) where
        R: Role<RoleData>,

        requires
            surfaces@.contains_key(*surface),
        ensures
            has == (<R as Role<RoleData>>::role_data(surfaces@[*surface].role) is Some),
    {
        surfaces.has_role::<RoleData>(surface)
    }

    /// Register that this surface has given role with default data
    ///
    /// Fails if the surface already has a role.
    ///
    /// The surface has to be managed by the compositor.
    pub fn give_role<RoleData>(
        self,
        surfaces: &mut Surfaces<R>,
        surface: &SurfaceId,
    ) -> (outcome: Result<(), ()>) where R: Role<RoleData>, RoleData: Default
        requires
            old(surfaces)@.contains_key(*surface),
        ensures
            old(surfaces).wf() ==> final(surfaces).wf(),
            old(surfaces)@[*surface].role == R::no_role() ==> {
                &&& outcome == Ok::<(), ()>(())
                &&& exists|data: RoleData|
                    {
                        &&& #[trigger] call_ensures(RoleData::default, (), data)
                        &&& final(surfaces)@ == with_role(
                            old(surfaces)@,
                            *surface,
                            R::with_data(data),
                        )
                    }
            },
            old(surfaces)@[*surface].role != R::no_role() ==> {
                &&& outcome == Err::<(), ()>(())
                &&& final(surfaces)@ == old(surfaces)@
            },
    {
        surfaces.give_role::<RoleData>(surface)
    }

    /// Register that this surface has given role with given data
    ///
    /// Fails if the surface already has a role and returns the data.
    ///
    /// The surface has to be managed by the compositor.
    pub fn give_role_with<RoleData>(
        self,
        surfaces: &mut Surfaces<R>,
        surface: &SurfaceId,
        data: RoleData,
    ) -> (outcome: Result<(), RoleData>) where R: Role<RoleData>
        requires
            old(surfaces)@.contains_key(*surface),
        ensures
            old(surfaces).wf() ==> final(surfaces).wf(),
            old(surfaces)@[*surface].role == R::no_role() ==> {
                &&& outcome == Ok::<(), RoleData>(())
                &&& final(surfaces)@ == with_role(old(surfaces)@, *surface, R::with_data(data))
            },
            old(surfaces)@[*surface].role != R::no_role() ==> {
                &&& outcome == Err::<(), RoleData>(data)
                &&& final(surfaces)@ == old(surfaces)@
            },
    {
        surfaces.give_role_with::<RoleData>(surface, data)
    }

    /// Access the role data of a surface
    ///
    /// Fails and don't call the closure if the surface doesn't have this role
    ///
    /// The surface has to be managed by the compositor.
    pub fn with_role_data<RoleData, F, T>(
        self,
        surfaces: &mut Surfaces<R>,
        surface: &SurfaceId,
        f: F,
    ) -> (outcome: Result<T, WrongRole>) where R: Role<RoleData>, F: FnOnce(&mut RoleData) -> T
        requires
            old(surfaces)@.contains_key(*surface),
            forall|data: &mut RoleData|
                <R as Role<RoleData>>::role_data(old(surfaces)@[*surface].role) == Some(*data)
                    ==> #[trigger] call_requires(f, (data,)),
        ensures
            old(surfaces).wf() ==> final(surfaces).wf(),
            match <R as Role<RoleData>>::role_data(old(surfaces)@[*surface].role) {
                Some(before) => {
                    &&& outcome is Ok
                    &&& exists|data: &mut RoleData|
                        {
                            &&& *data == before
                            &&& #[trigger] call_ensures(f, (data,), outcome->Ok_0)
                            &&& final(surfaces)@ == with_role(
                                old(surfaces)@,
                                *surface,
                                R::with_data(*final(data)),
                            )
                        }
                },
                None => {
                    &&& outcome == Err::<T, WrongRole>(WrongRole)
                    &&& final(surfaces)@ == old(surfaces)@
                },
            },
    {
        surfaces.with_role_data::<RoleData, F, T>(surface, f)
    }

    /// Register that this surface does not have a role any longer and retrieve the data
    ///
    /// Fails if the surface didn't already have this role.
    ///
    /// The surface has to be managed by the compositor.
    pub fn remove_role<RoleData>(
        self,
        surfaces: &mut Surfaces<R>,
        surface: &SurfaceId,
    ) -> (outcome: Result<RoleData, WrongRole>) where R: Role<RoleData>
        requires
            old(surfaces)@.contains_key(*surface),
        ensures
            old(surfaces).wf() ==> final(surfaces).wf(),
            match <R as Role<RoleData>>::role_data(old(surfaces)@[*surface].role) {
                Some(data) => {
                    &&& outcome == Ok::<RoleData, WrongRole>(data)
                    &&& final(surfaces)@ == with_role(old(surfaces)@, *surface, R::no_role())
                },
                None => {
                    &&& outcome == Err::<RoleData, WrongRole>(WrongRole)
                    &&& final(surfaces)@ == old(surfaces)@
                },
            },
    {
        surfaces.remove_role::<RoleData>(surface)
    }

    /// Retrieve the metadata associated with a region
    ///
    /// The region has to be managed by the compositor.
    pub fn get_region_attributes(self, regions: &Regions, region: &RegionId) -> (attributes:
        RegionAttributes)
        requires
            regions@.contains_key(*region),
        ensures
            attributes.rects@ == regions@[*region],
    {
        regions.get(region)
    }
}

/// An interface of which a global can be announced to the clients
#[derive(Copy, Clone, Debug, PartialEq, Eq, Structural)]
pub enum Interface {
    /// `wl_compositor`
    WlCompositor,
    /// `wl_subcompositor`
    WlSubcompositor,
}

/// A global to be announced to the clients
#[derive(Copy, Clone, Debug, PartialEq, Eq, Structural)]
pub struct GlobalRequest {
    /// The interface of the global
    pub interface: Interface,
    /// The highest version of the interface that the global supports
    pub version: u32,
}

/// Prepare new `wl_compositor` and `wl_subcompositor` globals.
///
/// This function returns a [`CompositorToken`] which you'll need access the data associated to
/// the surfaces, and the two globals to register into the event loop.
pub fn compositor_init<R>() -> (globals: (CompositorToken<R>, GlobalRequest, GlobalRequest))
    ensures
        globals.0 == CompositorToken::<R>::token(),
        globals.1 == (GlobalRequest { interface: Interface::WlCompositor, version: 4 }),
        globals.2 == (GlobalRequest { interface: Interface::WlSubcompositor, version: 1 }),
{
    let compositor = GlobalRequest { interface: Interface::WlCompositor, version: 4 };
    let subcompositor = GlobalRequest { interface: Interface::WlSubcompositor, version: 1 };
    (CompositorToken::make(), compositor, subcompositor)
}

/// User-handled events for surfaces
///
/// The global provided by smithay cannot process these events for you, so
/// they are forwarded directly via your provided implementation, and are
/// described by this global.
#[derive(Copy, Clone, Debug, PartialEq, Eq, Structural)]
pub enum SurfaceEvent {
    /// The double-buffered state has been validated by the client
    ///
    /// At this point, the pending state that has been accumulated in the [`SurfaceAttributes`]
    /// associated to this surface should be atomically integrated into the current state of the
    /// surface.
    Commit,
}

} // verus!
