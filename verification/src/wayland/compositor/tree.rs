//! The trees that surfaces and their subsurfaces form
//!
//! Each surface has at most one parent, and keeps its children in a stack together with
//! itself: the stack lists them in the order in which they are drawn, from the
//! farthest of the screen to the nearest.

use super::SurfaceAttributes;
use vstd::prelude::*;

verus! {

/// Identifier of a surface, unique among the surfaces of all clients
pub type SurfaceId = u64;

/// Possible actions to do after handling a node during tree traversal
pub enum TraversalAction<T> {
    /// Traverse its children as well, providing them the data T
    DoChildren(T),
    /// Skip its children
    SkipChildren,
    /// Stop traversal completely
    Break,
}

/// Everything known of a surface
pub struct SurfaceData<R> {
    /// The surface that this one is a subsurface of, if any
    pub parent: Option<SurfaceId>,
    /// The surface itself and its children, from the farthest to the nearest
    pub stack: Vec<SurfaceId>,
    /// The role of the surface
    pub role: R,
    /// The attributes of the surface
    pub attributes: SurfaceAttributes,
}

/// Whether `surface` is `depth` steps below the root of its tree
pub open spec fn at_depth<R>(
    surfaces: Map<SurfaceId, SurfaceData<R>>,
    surface: SurfaceId,
    depth: nat,
) -> bool
    decreases depth,
{
    &&& surfaces.contains_key(surface)
    &&& match surfaces[surface].parent {
        None => depth == 0,
        Some(parent) => depth > 0 && at_depth(surfaces, parent, (depth - 1) as nat),
    }
}

/// Whether every tree of surfaces is at most `height` deep
pub open spec fn no_deeper_than<R>(
    surfaces: Map<SurfaceId, SurfaceData<R>>,
    height: nat,
) -> bool {
    forall|surface: SurfaceId| #[trigger]
        surfaces.contains_key(surface) ==> exists|depth: nat|
            depth <= height && #[trigger] at_depth(surfaces, surface, depth)
}

/// Whether the stack of `surface` lists the surface and its children, each once
pub open spec fn stack_is_coherent<R>(
    surfaces: Map<SurfaceId, SurfaceData<R>>,
    surface: SurfaceId,
) -> bool {
    let stack = surfaces[surface].stack@;
    &&& stack.no_duplicates()
    &&& forall|other: SurfaceId| #[trigger]
        stack.contains(other) <==> other == surface || (surfaces.contains_key(other)
            && surfaces[other].parent == Some(surface))
}

/// Whether the surfaces form trees: parents and stacks agree with each other, and following
/// the parents of any surface ends at a root
pub open spec fn are_trees<R>(surfaces: Map<SurfaceId, SurfaceData<R>>) -> bool {
    &&& forall|surface: SurfaceId| #[trigger]
        surfaces.contains_key(surface) ==> stack_is_coherent(surfaces, surface)
    &&& exists|height: nat| no_deeper_than(surfaces, height)
}

/// How many steps `surface` is below the root of its tree
pub open spec fn depth_of<R>(surfaces: Map<SurfaceId, SurfaceData<R>>, surface: SurfaceId) -> nat {
    choose|depth: nat| at_depth(surfaces, surface, depth)
}

/// A bound on the depth of every surface
pub open spec fn height_of<R>(surfaces: Map<SurfaceId, SurfaceData<R>>) -> nat {
    choose|height: nat| no_deeper_than(surfaces, height)
}

/// A surface has one depth only
pub proof fn lemma_depth_is_unique<R>(
    surfaces: Map<SurfaceId, SurfaceData<R>>,
    surface: SurfaceId,
    a: nat,
    b: nat,
)
    requires
        at_depth(surfaces, surface, a),
        at_depth(surfaces, surface, b),
    ensures
        a == b,
    decreases a,
{
    match surfaces[surface].parent {
        None => {},
        Some(parent) => {
            lemma_depth_is_unique(surfaces, parent, (a - 1) as nat, (b - 1) as nat);
        },
    }
}

/// In trees, the depth of a surface exists, is bounded by the height, and is one more
/// than the depth of its parent
pub proof fn lemma_depth<R>(surfaces: Map<SurfaceId, SurfaceData<R>>, surface: SurfaceId)
    requires
        are_trees(surfaces),
        surfaces.contains_key(surface),
    ensures
        at_depth(surfaces, surface, depth_of(surfaces, surface)),
        depth_of(surfaces, surface) <= height_of(surfaces),
        match surfaces[surface].parent {
            None => depth_of(surfaces, surface) == 0,
            Some(parent) => surfaces.contains_key(parent) && depth_of(surfaces, surface)
                == depth_of(surfaces, parent) + 1,
        },
{
    let height = height_of(surfaces);
    assert(no_deeper_than(surfaces, height));
    let depth = choose|depth: nat| depth <= height && #[trigger] at_depth(surfaces, surface, depth);
    lemma_depth_is_unique(surfaces, surface, depth, depth_of(surfaces, surface));
    if let Some(parent) = surfaces[surface].parent {
        let above = (depth - 1) as nat;
        assert(at_depth(surfaces, parent, above));
        lemma_depth_is_unique(surfaces, parent, above, depth_of(surfaces, parent));
    }
}

/// Whether `surface` is `root` or below it: going up from parent to parent meets `root`
pub open spec fn is_below<R>(
    surfaces: Map<SurfaceId, SurfaceData<R>>,
    surface: SurfaceId,
    root: SurfaceId,
) -> bool
    decreases depth_of(surfaces, surface),
    when are_trees(surfaces) && surfaces.contains_key(surface)
    via is_below_decreases::<R>
{
    surface == root || match surfaces[surface].parent {
        None => false,
        Some(parent) => is_below(surfaces, parent, root),
    }
}

#[via_fn]
proof fn is_below_decreases<R>(
    surfaces: Map<SurfaceId, SurfaceData<R>>,
    surface: SurfaceId,
    root: SurfaceId,
) {
    lemma_depth(surfaces, surface);
}

/// The stack of `surface` in the order in which a traversal goes through it
pub open spec fn stack_in_order<R>(
    surfaces: Map<SurfaceId, SurfaceData<R>>,
    surface: SurfaceId,
    reverse: bool,
) -> Seq<SurfaceId> {
    if reverse {
        surfaces[surface].stack@.reverse()
    } else {
        surfaces[surface].stack@
    }
}

/// The surfaces that the first `count` entries of the stack of `surface` stand for, a child
/// standing for all of its own subtree
pub open spec fn order_of_first<R>(
    surfaces: Map<SurfaceId, SurfaceData<R>>,
    surface: SurfaceId,
    count: nat,
    reverse: bool,
) -> Seq<SurfaceId>
    decreases height_of(surfaces) - depth_of(surfaces, surface), count,
    when are_trees(surfaces) && surfaces.contains_key(surface) && count
        <= surfaces[surface].stack@.len()
    via order_of_first_decreases::<R>
{
    if count == 0 {
        Seq::empty()
    } else {
        let before = order_of_first(surfaces, surface, (count - 1) as nat, reverse);
        let entry = stack_in_order(surfaces, surface, reverse)[count - 1];
        if entry == surface {
            before.push(surface)
        } else {
            before + order_of_first(surfaces, entry, surfaces[entry].stack@.len(), reverse)
        }
    }
}

#[via_fn]
proof fn order_of_first_decreases<R>(
    surfaces: Map<SurfaceId, SurfaceData<R>>,
    surface: SurfaceId,
    count: nat,
    reverse: bool,
) {
    if count > 0 {
        let entry = stack_in_order(surfaces, surface, reverse)[count - 1];
        lemma_entry_of_stack(surfaces, surface, reverse, count - 1);
        if entry != surface {
            lemma_depth(surfaces, entry);
        }
    }
}

/// The entries of the stack of a surface are the surface or children of it
pub proof fn lemma_entry_of_stack<R>(
    surfaces: Map<SurfaceId, SurfaceData<R>>,
    surface: SurfaceId,
    reverse: bool,
    i: int,
)
    requires
        are_trees(surfaces),
        surfaces.contains_key(surface),
        0 <= i < surfaces[surface].stack@.len(),
    ensures
        ({
            let entry = stack_in_order(surfaces, surface, reverse)[i];
            entry == surface || (surfaces.contains_key(entry) && surfaces[entry].parent == Some(
                surface,
            ))
        }),
{
    let stack = surfaces[surface].stack@;
    let entry = stack_in_order(surfaces, surface, reverse)[i];
    assert(stack_is_coherent(surfaces, surface));
    if reverse {
        assert(entry == stack[stack.len() - 1 - i]);
    }
    assert(stack.contains(entry));
}

/// The surfaces of the subtree of `surface` in the order in which they are drawn, from the
/// farthest of the screen to the nearest, or from the nearest to the farthest
pub open spec fn drawing_order<R>(
    surfaces: Map<SurfaceId, SurfaceData<R>>,
    surface: SurfaceId,
    reverse: bool,
) -> Seq<SurfaceId> {
    order_of_first(surfaces, surface, surfaces[surface].stack@.len(), reverse)
}

/// One of the three closures of a traversal, with what it answered
#[verifier::reject_recursive_types(T)]
pub enum Call<T> {
    /// The filter
    Filter(TraversalAction<T>),
    /// The processor
    Process,
    /// The post filter
    PostFilter(bool),
}

/// A call that a traversal makes: on which surface, with which value, and what the call
/// made of the attributes and the role of the surface
#[verifier::reject_recursive_types(R)]
#[verifier::reject_recursive_types(T)]
pub struct Visit<R, T> {
    pub surface: SurfaceId,
    pub value: T,
    pub attributes: (SurfaceAttributes, SurfaceAttributes),
    pub role: (R, R),
    pub call: Call<T>,
}

/// The calls that a traversal makes for a surface and its subtree
#[verifier::reject_recursive_types(R)]
#[verifier::reject_recursive_types(T)]
pub enum Walk<R, T> {
    /// The filter broke the traversal off
    Stop { filter: Visit<R, T> },
    /// The filter skipped the children
    Alone { filter: Visit<R, T>, process: Visit<R, T> },
    /// The entries of the stack were gone through, up to one that stopped the traversal,
    /// and if none did the post filter was called
    Subtree { filter: Visit<R, T>, steps: Seq<Step<R, T>>, post_filter: Option<Visit<R, T>> },
}

/// The calls that a traversal makes for an entry of the stack of a surface
#[verifier::reject_recursive_types(R)]
#[verifier::reject_recursive_types(T)]
pub enum Step<R, T> {
    /// The surface itself
    Own(Visit<R, T>),
    /// A child
    Child(Walk<R, T>),
}

/// The calls of the steps, in the order in which they are made
pub open spec fn calls_of_steps<R, T>(steps: Seq<Step<R, T>>) -> Seq<Visit<R, T>>
    decreases steps,
{
    if steps.len() == 0 {
        Seq::empty()
    } else {
        calls_of_steps(steps.drop_last()) + steps.last().calls()
    }
}

impl<R, T> Step<R, T> {
    /// The calls of the step, in the order in which they are made
    pub open spec fn calls(self) -> Seq<Visit<R, T>>
        decreases self,
    {
        match self {
            Step::Own(process) => seq![process],
            Step::Child(walk) => walk.calls(),
        }
    }

    /// Whether the traversal goes on after the step
    pub open spec fn goes_on(self) -> bool {
        match self {
            Step::Own(_) => true,
            Step::Child(walk) => walk.goes_on(),
        }
    }
}

impl<R, T> Walk<R, T> {
    /// The calls of the walk, in the order in which they are made
    pub open spec fn calls(self) -> Seq<Visit<R, T>>
        decreases self,
    {
        match self {
            Walk::Stop { filter } => seq![filter],
            Walk::Alone { filter, process } => seq![filter, process],
            Walk::Subtree { filter, steps, post_filter } => seq![filter] + calls_of_steps(steps) + (
            match post_filter {
                Some(visit) => seq![visit],
                None => Seq::empty(),
            }),
        }
    }

    /// Whether the traversal goes on after the walk
    pub open spec fn goes_on(self) -> bool {
        match self {
            Walk::Stop { .. } => false,
            Walk::Alone { .. } => true,
            Walk::Subtree { post_filter: Some(visit), .. } => visit.call == Call::<T>::PostFilter(
                true,
            ),
            Walk::Subtree { post_filter: None, .. } => false,
        }
    }
}

impl<R, T> Visit<R, T> {
    /// Whether this is a call for `surface` with `value`
    pub open spec fn is_for(self, surface: SurfaceId, value: T) -> bool {
        self.surface == surface && self.value == value
    }
}

/// Whether `walk` is what a traversal does for `surface` and its subtree, given `value`
///
/// The filter is called first, with the value. When it answers with a value for the
/// children, the entries of the stack are gone through in order: the processor is called
/// for the surface itself, with the value that the surface was given, and each child is
/// walked in turn with the value for the children. The post filter comes last. When the filter
/// skips the children only the processor is called after it, and when it breaks nothing is.
/// As soon as a child stops the traversal, nothing more is called.
pub open spec fn is_walk<R, T>(
    surfaces: Map<SurfaceId, SurfaceData<R>>,
    surface: SurfaceId,
    value: T,
    reverse: bool,
    walk: Walk<R, T>,
) -> bool
    decreases walk,
{
    match walk {
        Walk::Stop { filter } => {
            &&& filter.is_for(surface, value)
            &&& filter.call == Call::Filter(TraversalAction::<T>::Break)
        },
        Walk::Alone { filter, process } => {
            &&& filter.is_for(surface, value)
            &&& filter.call == Call::Filter(TraversalAction::<T>::SkipChildren)
            &&& process.is_for(surface, value)
            &&& process.call == Call::<T>::Process
        },
        Walk::Subtree { filter, steps, post_filter } => {
            let order = stack_in_order(surfaces, surface, reverse);
            &&& filter.is_for(surface, value)
            &&& filter.call is Filter
            &&& filter.call->Filter_0 is DoChildren
            &&& steps.len() <= order.len()
            &&& forall|i: int|
                0 <= i < steps.len() ==> match #[trigger] steps[i] {
                    Step::Own(process) => {
                        &&& order[i] == surface
                        &&& process.is_for(surface, value)
                        &&& process.call == Call::<T>::Process
                    },
                    Step::Child(child) => {
                        &&& order[i] != surface
                        &&& is_walk(
                            surfaces,
                            order[i],
                            filter.call->Filter_0->DoChildren_0,
                            reverse,
                            child,
                        )
                    },
                }
            &&& forall|i: int| 0 <= i < steps.len() - 1 ==> (#[trigger] steps[i]).goes_on()
            &&& match post_filter {
                Some(visit) => {
                    &&& steps.len() == order.len()
                    &&& steps.len() > 0 ==> steps.last().goes_on()
                    &&& visit.is_for(surface, value)
                    &&& visit.call is PostFilter
                },
                None => steps.len() > 0 && !steps.last().goes_on(),
            }
        },
    }
}

/// Whether the closure that `visit` says, called on `attributes` and `role`, may give the
/// answer that it says
pub open spec fn is_call<R, T, F1, F2, F3>(
    filter: F1,
    processor: F2,
    post_filter: F3,
    visit: Visit<R, T>,
    attributes: &mut SurfaceAttributes,
    role: &mut R,
) -> bool where
    F1: FnMut(&SurfaceId, &mut SurfaceAttributes, &mut R, &T) -> TraversalAction<T>,
    F2: FnMut(&SurfaceId, &mut SurfaceAttributes, &mut R, &T),
    F3: FnMut(&SurfaceId, &mut SurfaceAttributes, &mut R, &T) -> bool,
 {
    let args = (&visit.surface, attributes, role, &visit.value);
    match visit.call {
        Call::Filter(action) => call_ensures(filter, args, action),
        Call::Process => call_ensures(processor, args, ()),
        Call::PostFilter(go_on) => call_ensures(post_filter, args, go_on),
    }
}

/// Whether the calls, one after the other, lead from the surfaces `from` to the surfaces `to`
pub open spec fn lead_to<R, T>(
    from: Map<SurfaceId, SurfaceData<R>>,
    calls: Seq<Visit<R, T>>,
    to: Map<SurfaceId, SurfaceData<R>>,
) -> bool
    decreases calls.len(),
{
    if calls.len() == 0 {
        from == to
    } else {
        let visit = calls.first();
        let data = from[visit.surface];
        &&& from.contains_key(visit.surface)
        &&& visit.attributes.0 == data.attributes
        &&& visit.role.0 == data.role
        &&& lead_to(
            from.insert(
                visit.surface,
                SurfaceData { attributes: visit.attributes.1, role: visit.role.1, ..data },
            ),
            calls.drop_first(),
            to,
        )
    }
}

/// Calls that lead somewhere, followed by calls that lead on from there
pub proof fn lemma_lead_to_concat<R, T>(
    from: Map<SurfaceId, SurfaceData<R>>,
    a: Seq<Visit<R, T>>,
    mid: Map<SurfaceId, SurfaceData<R>>,
    b: Seq<Visit<R, T>>,
    to: Map<SurfaceId, SurfaceData<R>>,
)
    requires
        lead_to(from, a, mid),
        lead_to(mid, b, to),
    ensures
        lead_to(from, a + b, to),
    decreases a.len(),
{
    if a.len() == 0 {
        assert(a + b == b);
    } else {
        let visit = a.first();
        let next = from.insert(
            visit.surface,
            SurfaceData {
                attributes: visit.attributes.1,
                role: visit.role.1,
                ..from[visit.surface]
            },
        );
        lemma_lead_to_concat(next, a.drop_first(), mid, b, to);
        assert((a + b).drop_first() == a.drop_first() + b);
    }
}

/// Calls made by the closures, followed by calls made by the closures
pub proof fn lemma_calls_concat<R, T, F1, F2, F3>(
    filter: F1,
    processor: F2,
    post_filter: F3,
    a: Seq<Visit<R, T>>,
    b: Seq<Visit<R, T>>,
) where
    F1: FnMut(&SurfaceId, &mut SurfaceAttributes, &mut R, &T) -> TraversalAction<T>,
    F2: FnMut(&SurfaceId, &mut SurfaceAttributes, &mut R, &T),
    F3: FnMut(&SurfaceId, &mut SurfaceAttributes, &mut R, &T) -> bool,

    requires
        forall|visit: Visit<R, T>| #[trigger]
            a.contains(visit) ==> exists|attributes: &mut SurfaceAttributes, role: &mut R|
                {
                    &&& *attributes == visit.attributes.0
                    &&& *final(attributes) == visit.attributes.1
                    &&& *role == visit.role.0
                    &&& *final(role) == visit.role.1
                    &&& #[trigger] is_call(
                        filter,
                        processor,
                        post_filter,
                        visit,
                        attributes,
                        role,
                    )
                },
        forall|visit: Visit<R, T>| #[trigger]
            b.contains(visit) ==> exists|attributes: &mut SurfaceAttributes, role: &mut R|
                {
                    &&& *attributes == visit.attributes.0
                    &&& *final(attributes) == visit.attributes.1
                    &&& *role == visit.role.0
                    &&& *final(role) == visit.role.1
                    &&& #[trigger] is_call(
                        filter,
                        processor,
                        post_filter,
                        visit,
                        attributes,
                        role,
                    )
                },
    ensures
        forall|visit: Visit<R, T>| #[trigger]
            (a + b).contains(visit) ==> exists|attributes: &mut SurfaceAttributes, role: &mut R|
                {
                    &&& *attributes == visit.attributes.0
                    &&& *final(attributes) == visit.attributes.1
                    &&& *role == visit.role.0
                    &&& *final(role) == visit.role.1
                    &&& #[trigger] is_call(
                        filter,
                        processor,
                        post_filter,
                        visit,
                        attributes,
                        role,
                    )
                },
{
    assert forall|visit: Visit<R, T>| #[trigger]
        (a + b).contains(visit) implies exists|attributes: &mut SurfaceAttributes, role: &mut R|
            {
                &&& *attributes == visit.attributes.0
                &&& *final(attributes) == visit.attributes.1
                &&& *role == visit.role.0
                &&& *final(role) == visit.role.1
                &&& #[trigger] is_call(
                    filter,
                    processor,
                    post_filter,
                    visit,
                    attributes,
                    role,
                )
            } by {
        let i = choose|i: int| 0 <= i < (a + b).len() && (a + b)[i] == visit;
        if i < a.len() {
            assert(a[i] == visit);
            assert(a.contains(visit));
        } else {
            assert(b[i - a.len()] == visit);
            assert(b.contains(visit));
        }
    }
}

/// Whether two sets of surfaces form the same trees, whatever their roles and attributes
pub open spec fn same_trees<R>(
    a: Map<SurfaceId, SurfaceData<R>>,
    b: Map<SurfaceId, SurfaceData<R>>,
) -> bool {
    &&& a.dom() == b.dom()
    &&& forall|surface: SurfaceId| #[trigger]
        a.contains_key(surface) ==> a[surface].parent == b[surface].parent && a[surface].stack
            == b[surface].stack
}

/// In the same trees a surface has the same depth
pub proof fn lemma_same_depth<R>(
    a: Map<SurfaceId, SurfaceData<R>>,
    b: Map<SurfaceId, SurfaceData<R>>,
    surface: SurfaceId,
    depth: nat,
)
    requires
        same_trees(a, b),
        at_depth(a, surface, depth),
    ensures
        at_depth(b, surface, depth),
    decreases depth,
{
    assert(b.dom().contains(surface));
    if let Some(parent) = a[surface].parent {
        lemma_same_depth(a, b, parent, (depth - 1) as nat);
    }
}

/// What forms the same trees as trees do forms trees
pub proof fn lemma_same_trees<R>(
    a: Map<SurfaceId, SurfaceData<R>>,
    b: Map<SurfaceId, SurfaceData<R>>,
)
    requires
        are_trees(a),
        same_trees(a, b),
    ensures
        are_trees(b),
{
    assert forall|surface: SurfaceId| #[trigger] b.contains_key(surface) implies stack_is_coherent(
        b,
        surface,
    ) by {
        assert(a.dom().contains(surface));
        assert(stack_is_coherent(a, surface));
        let stack = b[surface].stack@;
        assert forall|other: SurfaceId| #[trigger] stack.contains(other) <==> other == surface || (
        b.contains_key(other) && b[other].parent == Some(surface)) by {
            assert(a[surface].stack@.contains(other) <==> other == surface || (a.contains_key(other)
                && a[other].parent == Some(surface)));
            assert(a.dom().contains(other) == b.dom().contains(other));
        }
    }
    let height = height_of(a);
    assert(no_deeper_than(a, height));
    assert forall|surface: SurfaceId| #[trigger] b.contains_key(surface) implies exists|
        depth: nat,
    | depth <= height && #[trigger] at_depth(b, surface, depth) by {
        assert(a.dom().contains(surface));
        let depth = choose|depth: nat| depth <= height && #[trigger] at_depth(a, surface, depth);
        lemma_same_depth(a, b, surface, depth);
    }
    assert(no_deeper_than(b, height));
}

} // verus!
