//! Laws of the calls that a traversal makes, one after the other
//!
//! A traversal calls its closures on the surfaces of a tree. The laws say, of the list of these
//! calls, which call comes first, which one follows on which and where the list ends, which values
//! the calls are given, and what becomes of the surfaces.

use super::order::{
    law_nothing_after_the_end, lemma_below_child, lemma_below_is_deeper, lemma_one_above,
};
use super::tree::{
    are_trees, calls_of_steps, depth_of, is_below, is_call, is_walk, lead_to, lemma_depth,
    lemma_entry_of_stack, stack_in_order, stack_is_coherent, Call, Step, SurfaceData, SurfaceId,
    TraversalAction, Visit, Walk,
};
use super::SurfaceAttributes;
use vstd::prelude::*;

verus! {

/// Where among the steps a call of them is made: in which step, and how far in it
proof fn lemma_locate<R, T>(steps: Seq<Step<R, T>>, i: int) -> (place: (int, int))
    requires
        0 <= i < calls_of_steps(steps).len(),
    ensures
        0 <= place.0 < steps.len(),
        0 <= place.1 < steps[place.0].calls().len(),
        calls_of_steps(steps)[i] == steps[place.0].calls()[place.1],
        i == calls_of_steps(steps.take(place.0)).len() + place.1,
    decreases steps.len(),
{
    let front = steps.drop_last();
    let before = calls_of_steps(front).len() as int;
    let last = steps.len() - 1;
    assert(calls_of_steps(steps) == calls_of_steps(front) + steps.last().calls());
    if i < before {
        let place = lemma_locate(front, i);
        assert(front.take(place.0) == steps.take(place.0));
        place
    } else {
        assert(steps.take(last) == front);
        (last, i - before)
    }
}

/// Where the calls of a step are among those of all steps
proof fn lemma_calls_of_step<R, T>(steps: Seq<Step<R, T>>, k: int, offset: int)
    requires
        0 <= k < steps.len(),
        0 <= offset < steps[k].calls().len(),
    ensures
        calls_of_steps(steps.take(k)).len() + offset < calls_of_steps(steps).len(),
        calls_of_steps(steps)[calls_of_steps(steps.take(k)).len() + offset]
            == steps[k].calls()[offset],
    decreases steps.len(),
{
    let front = steps.drop_last();
    assert(calls_of_steps(steps) == calls_of_steps(front) + steps.last().calls());
    if k < steps.len() - 1 {
        assert(front.take(k) == steps.take(k));
        lemma_calls_of_step(front, k, offset);
    } else {
        assert(steps.take(k) == front);
    }
}

/// How many calls come before a step
proof fn lemma_calls_before_step<R, T>(steps: Seq<Step<R, T>>, k: int)
    requires
        0 <= k < steps.len(),
    ensures
        calls_of_steps(steps.take(k + 1)).len() == calls_of_steps(steps.take(k)).len()
            + steps[k].calls().len(),
{
    let up_to = steps.take(k + 1);
    assert(up_to.drop_last() == steps.take(k));
    assert(up_to.last() == steps[k]);
}

/// The first call of a traversal is a call of the filter on the surface where it starts, with the
/// initial value.
pub proof fn law_first_call<R, T>(
    surfaces: Map<SurfaceId, SurfaceData<R>>,
    surface: SurfaceId,
    initial: T,
    reverse: bool,
    walk: Walk<R, T>,
)
    requires
        is_walk(surfaces, surface, initial, reverse, walk),
    ensures
        walk.calls().len() > 0,
        walk.calls()[0].surface == surface,
        walk.calls()[0].value == initial,
        walk.calls()[0].call is Filter,
{
}

/// The calls of a walk are made on the surface of the walk and on surfaces below it
proof fn lemma_calls_are_below<R, T>(
    surfaces: Map<SurfaceId, SurfaceData<R>>,
    surface: SurfaceId,
    value: T,
    reverse: bool,
    walk: Walk<R, T>,
    i: int,
)
    requires
        are_trees(surfaces),
        surfaces.contains_key(surface),
        is_walk(surfaces, surface, value, reverse, walk),
        0 <= i < walk.calls().len(),
    ensures
        surfaces.contains_key(walk.calls()[i].surface),
        is_below(surfaces, walk.calls()[i].surface, surface),
    decreases walk,
{
    if let Walk::Subtree { filter, steps, post_filter } = walk {
        let body = calls_of_steps(steps);
        if 0 < i <= body.len() {
            let (k, offset) = lemma_locate(steps, i - 1);
            assert(walk.calls()[i] == body[i - 1]);
            if let Step::Child(child) = steps[k] {
                let entry = stack_in_order(surfaces, surface, reverse)[k];
                lemma_entry_of_stack(surfaces, surface, reverse, k);
                lemma_calls_are_below(
                    surfaces,
                    entry,
                    filter.call->Filter_0->DoChildren_0,
                    reverse,
                    child,
                    offset,
                );
                lemma_below_child(surfaces, walk.calls()[i].surface, entry);
            }
        }
    }
}

/// The calls for a child are made on surfaces that are deeper than the surface
proof fn lemma_child_calls_are_deeper<R, T>(
    surfaces: Map<SurfaceId, SurfaceData<R>>,
    surface: SurfaceId,
    child: SurfaceId,
    value: T,
    reverse: bool,
    walk: Walk<R, T>,
    i: int,
)
    requires
        are_trees(surfaces),
        surfaces.contains_key(surface),
        surfaces.contains_key(child),
        surfaces[child].parent == Some(surface),
        is_walk(surfaces, child, value, reverse, walk),
        0 <= i < walk.calls().len(),
    ensures
        surfaces.contains_key(walk.calls()[i].surface),
        is_below(surfaces, walk.calls()[i].surface, child),
        depth_of(surfaces, child) == depth_of(surfaces, surface) + 1,
        depth_of(surfaces, walk.calls()[i].surface) > depth_of(surfaces, surface),
        walk.calls()[i].surface != surface,
{
    lemma_calls_are_below(surfaces, child, value, reverse, walk, i);
    lemma_depth(surfaces, child);
    lemma_below_is_deeper(surfaces, walk.calls()[i].surface, child);
}

/// Values go from parents to children: each call on the surface where the traversal starts is
/// given the initial value, and each call on another surface the value with which an earlier call
/// of the filter on the parent of that surface asked for the children. This holds in either
/// direction.
pub proof fn law_values_come_from_the_parent<R, T>(
    surfaces: Map<SurfaceId, SurfaceData<R>>,
    surface: SurfaceId,
    initial: T,
    reverse: bool,
    walk: Walk<R, T>,
    i: int,
)
    requires
        are_trees(surfaces),
        surfaces.contains_key(surface),
        is_walk(surfaces, surface, initial, reverse, walk),
        0 <= i < walk.calls().len(),
    ensures
        walk.calls()[i].surface == surface ==> walk.calls()[i].value == initial,
        walk.calls()[i].surface != surface ==> {
            &&& surfaces.contains_key(walk.calls()[i].surface)
            &&& surfaces[walk.calls()[i].surface].parent is Some
            &&& exists|j: int|
                {
                    &&& 0 <= j < i
                    &&& (#[trigger] walk.calls()[j]).surface
                        == surfaces[walk.calls()[i].surface].parent->0
                    &&& walk.calls()[j].call == Call::Filter(
                        TraversalAction::DoChildren(walk.calls()[i].value),
                    )
                }
        },
    decreases walk,
{
    let calls = walk.calls();
    if let Walk::Subtree { filter, steps, post_filter } = walk {
        let body = calls_of_steps(steps);
        if 0 < i <= body.len() {
            let (k, offset) = lemma_locate(steps, i - 1);
            assert(calls[i] == body[i - 1]);
            if let Step::Child(child) = steps[k] {
                let entry = stack_in_order(surfaces, surface, reverse)[k];
                let inner = filter.call->Filter_0->DoChildren_0;
                lemma_entry_of_stack(surfaces, surface, reverse, k);
                lemma_child_calls_are_deeper(
                    surfaces,
                    surface,
                    entry,
                    inner,
                    reverse,
                    child,
                    offset,
                );
                law_values_come_from_the_parent(surfaces, entry, inner, reverse, child, offset);
                if calls[i].surface == entry {
                    assert(calls[0] == filter);
                    assert(calls[0].call == Call::Filter(TraversalAction::DoChildren(inner)));
                } else {
                    let j = choose|j: int|
                        {
                            &&& 0 <= j < offset
                            &&& (#[trigger] child.calls()[j]).surface
                                == surfaces[child.calls()[offset].surface].parent->0
                            &&& child.calls()[j].call == Call::Filter(
                                TraversalAction::DoChildren(child.calls()[offset].value),
                            )
                        };
                    lemma_calls_of_step(steps, k, j);
                    let at = calls_of_steps(steps.take(k)).len() + j;
                    assert(calls[at + 1] == body[at]);
                    assert(calls[at + 1] == child.calls()[j]);
                }
            }
        }
    }
}

/// After the filter has skipped the children of a surface, the processor is called on it.
pub proof fn law_skipped_surfaces_are_processed<R, T>(
    surfaces: Map<SurfaceId, SurfaceData<R>>,
    surface: SurfaceId,
    initial: T,
    reverse: bool,
    walk: Walk<R, T>,
    i: int,
)
    requires
        is_walk(surfaces, surface, initial, reverse, walk),
        0 <= i < walk.calls().len(),
        walk.calls()[i].call == Call::Filter(TraversalAction::<T>::SkipChildren),
    ensures
        i + 1 < walk.calls().len(),
        walk.calls()[i + 1].surface == walk.calls()[i].surface,
        walk.calls()[i + 1].call is Process,
    decreases walk,
{
    let calls = walk.calls();
    if let Walk::Subtree { filter, steps, post_filter } = walk {
        let body = calls_of_steps(steps);
        if 0 < i <= body.len() {
            let (k, offset) = lemma_locate(steps, i - 1);
            assert(calls[i] == body[i - 1]);
            if let Step::Child(child) = steps[k] {
                law_skipped_surfaces_are_processed(
                    surfaces,
                    stack_in_order(surfaces, surface, reverse)[k],
                    filter.call->Filter_0->DoChildren_0,
                    reverse,
                    child,
                    offset,
                );
                lemma_calls_of_step(steps, k, offset + 1);
                assert(calls[i + 1] == body[i]);
            }
        }
    }
}

/// Once the surface of a walk is finished, by its post filter or because its children are skipped,
/// nothing more is called in the walk, and the traversal goes on unless the post filter stops it
proof fn lemma_finish_is_last<R, T>(
    surfaces: Map<SurfaceId, SurfaceData<R>>,
    surface: SurfaceId,
    value: T,
    reverse: bool,
    walk: Walk<R, T>,
    i: int,
)
    requires
        are_trees(surfaces),
        surfaces.contains_key(surface),
        is_walk(surfaces, surface, value, reverse, walk),
        0 <= i < walk.calls().len(),
        walk.calls()[i].surface == surface,
        walk.calls()[i].call is PostFilter || (walk.calls()[i].call is Process && i > 0
            && walk.calls()[i - 1].surface == surface && walk.calls()[i - 1].call == Call::Filter(
            TraversalAction::<T>::SkipChildren,
        )),
    ensures
        i == walk.calls().len() - 1,
        walk.calls()[i].call != Call::<T>::PostFilter(false) ==> walk.goes_on(),
{
    let calls = walk.calls();
    if let Walk::Subtree { filter, steps, post_filter } = walk {
        let body = calls_of_steps(steps);
        let inner = filter.call->Filter_0->DoChildren_0;
        if 0 < i <= body.len() {
            let (k, offset) = lemma_locate(steps, i - 1);
            assert(calls[i] == body[i - 1]);
            let entry = stack_in_order(surfaces, surface, reverse)[k];
            lemma_entry_of_stack(surfaces, surface, reverse, k);
            if let Step::Child(child) = steps[k] {
                lemma_child_calls_are_deeper(
                    surfaces,
                    surface,
                    entry,
                    inner,
                    reverse,
                    child,
                    offset,
                );
            } else if i > 1 {
                let (before, at) = lemma_locate(steps, i - 2);
                assert(calls[i - 1] == body[i - 2]);
                if let Step::Child(child) = steps[before] {
                    lemma_entry_of_stack(surfaces, surface, reverse, before);
                    lemma_child_calls_are_deeper(
                        surfaces,
                        surface,
                        stack_in_order(surfaces, surface, reverse)[before],
                        inner,
                        reverse,
                        child,
                        at,
                    );
                }
            }
        }
    }
}

/// What is called after the first `count` steps of a walk, if the traversal goes on
proof fn lemma_after_steps<R, T>(
    surfaces: Map<SurfaceId, SurfaceData<R>>,
    surface: SurfaceId,
    value: T,
    reverse: bool,
    walk: Walk<R, T>,
    count: int,
)
    requires
        is_walk(surfaces, surface, value, reverse, walk),
        walk is Subtree,
        0 <= count <= walk->steps.len(),
        count > 0 ==> walk->steps[count - 1].goes_on(),
    ensures
        ({
            let order = stack_in_order(surfaces, surface, reverse);
            let next = 1 + calls_of_steps(walk->steps.take(count)).len() as int;
            &&& count <= order.len()
            &&& next < walk.calls().len()
            &&& if count < order.len() {
                if order[count] == surface {
                    walk.calls()[next].surface == surface && walk.calls()[next].call is Process
                } else {
                    walk.calls()[next].surface == order[count] && walk.calls()[next].call is Filter
                }
            } else {
                walk.calls()[next].surface == surface && walk.calls()[next].call is PostFilter
            }
        }),
{
    let calls = walk.calls();
    if let Walk::Subtree { filter, steps, post_filter } = walk {
        let body = calls_of_steps(steps);
        if count < steps.len() {
            if let Step::Child(child) = steps[count] {
                law_first_call(
                    surfaces,
                    stack_in_order(surfaces, surface, reverse)[count],
                    filter.call->Filter_0->DoChildren_0,
                    reverse,
                    child,
                );
            }
            lemma_calls_of_step(steps, count, 0);
            let at = calls_of_steps(steps.take(count)).len() as int;
            assert(calls[at + 1] == body[at]);
        } else {
            assert(steps.take(count) == steps);
        }
    }
}

/// Which call follows on which: a surface whose children are to be done is gone through entry by
/// entry of its stack, in order, or in reverse order when going downward. An entry that
/// is the surface itself is a call of the processor on it; one that is a child starts with a call
/// of the filter on the child, and is over when the post filter of the child lets the traversal
/// continue, or when the child was processed after its own children were skipped. After the last
/// entry the post filter is called on the surface.
///
/// Here `i` is the call of the filter that asks for the children of `parent`, with `k` zero, or the
/// call with which the entry before `k` is over; the call after it is the one for entry `k`.
pub proof fn law_next_call<R, T>(
    surfaces: Map<SurfaceId, SurfaceData<R>>,
    surface: SurfaceId,
    initial: T,
    reverse: bool,
    walk: Walk<R, T>,
    i: int,
    parent: SurfaceId,
    k: int,
)
    requires
        are_trees(surfaces),
        surfaces.contains_key(surface),
        is_walk(surfaces, surface, initial, reverse, walk),
        0 <= i < walk.calls().len(),
        surfaces.contains_key(parent),
        0 <= k <= surfaces[parent].stack@.len(),
        ({
            let stack = surfaces[parent].stack@;
            let order = if reverse {
                stack.reverse()
            } else {
                stack
            };
            let here = walk.calls()[i];
            let after_skipping = i > 0 && walk.calls()[i - 1].surface == here.surface
                && walk.calls()[i - 1].call == Call::Filter(TraversalAction::<T>::SkipChildren);
            ||| {
                &&& k == 0
                &&& here.surface == parent
                &&& here.call is Filter
                &&& here.call->Filter_0 is DoChildren
            }
            ||| {
                &&& k > 0
                &&& order[k - 1] == parent
                &&& here.surface == parent
                &&& here.call is Process
                &&& !after_skipping
            }
            ||| {
                &&& k > 0
                &&& order[k - 1] != parent
                &&& order[k - 1] == here.surface
                &&& here.surface != surface
                &&& here.call == Call::<T>::PostFilter(true) || (here.call is Process
                    && after_skipping)
            }
        }),
    ensures
        i + 1 < walk.calls().len(),
        ({
            let stack = surfaces[parent].stack@;
            let order = if reverse {
                stack.reverse()
            } else {
                stack
            };
            let next = walk.calls()[i + 1];
            if k == order.len() {
                next.surface == parent && next.call is PostFilter
            } else if order[k] == parent {
                next.surface == parent && next.call is Process
            } else {
                next.surface == order[k] && next.call is Filter
            }
        }),
    decreases walk,
{
    let calls = walk.calls();
    let order = stack_in_order(surfaces, parent, reverse);
    assert(stack_is_coherent(surfaces, parent));
    assert(order.no_duplicates());
    if let Walk::Subtree { filter, steps, post_filter } = walk {
        let body = calls_of_steps(steps);
        let inner = filter.call->Filter_0->DoChildren_0;
        if i == 0 {
            assert(steps.take(0) == Seq::<Step<R, T>>::empty());
            lemma_after_steps(surfaces, surface, initial, reverse, walk, 0);
        } else if i <= body.len() {
            let (at, offset) = lemma_locate(steps, i - 1);
            assert(calls[i] == body[i - 1]);
            lemma_entry_of_stack(surfaces, surface, reverse, at);
            lemma_calls_before_step(steps, at);
            match steps[at] {
                Step::Own(_) => {
                    assert(k - 1 == at);
                    lemma_after_steps(surfaces, surface, initial, reverse, walk, k);
                },
                Step::Child(child) => {
                    let entry = stack_in_order(surfaces, surface, reverse)[at];
                    lemma_child_calls_are_deeper(
                        surfaces,
                        surface,
                        entry,
                        inner,
                        reverse,
                        child,
                        offset,
                    );
                    law_first_call(surfaces, entry, inner, reverse, child);
                    if offset > 0 {
                        lemma_calls_of_step(steps, at, offset - 1);
                        assert(calls[i - 1] == body[i - 2]);
                        assert(calls[i - 1] == child.calls()[offset - 1]);
                    }
                    if calls[i].surface == entry && k > 0 && order[k - 1] != parent {
                        lemma_finish_is_last(surfaces, entry, inner, reverse, child, offset);
                        lemma_entry_of_stack(surfaces, parent, reverse, k - 1);
                        assert(parent == surface);
                        assert(k - 1 == at);
                        lemma_after_steps(surfaces, surface, initial, reverse, walk, k);
                    } else {
                        law_next_call(
                            surfaces,
                            entry,
                            inner,
                            reverse,
                            child,
                            offset,
                            parent,
                            k,
                        );
                        lemma_calls_of_step(steps, at, offset + 1);
                        assert(calls[i + 1] == body[i]);
                    }
                },
            }
        }
    }
}

/// Where a traversal ends: with the first call of the filter that breaks it off or of the post
/// filter that stops it, or else with the post filter on the surface where it started, or with the
/// processor on that surface if its children were skipped; and nowhere else.
pub proof fn law_last_call<R, T>(
    surfaces: Map<SurfaceId, SurfaceData<R>>,
    surface: SurfaceId,
    initial: T,
    reverse: bool,
    walk: Walk<R, T>,
    i: int,
)
    requires
        are_trees(surfaces),
        surfaces.contains_key(surface),
        is_walk(surfaces, surface, initial, reverse, walk),
        0 <= i < walk.calls().len(),
    ensures
        i == walk.calls().len() - 1 <==> {
            let here = walk.calls()[i];
            ||| here.call == Call::Filter(TraversalAction::<T>::Break)
            ||| here.call == Call::<T>::PostFilter(false)
            ||| here.surface == surface && here.call is PostFilter
            ||| {
                &&& here.surface == surface
                &&& here.call is Process
                &&& i > 0
                &&& walk.calls()[i - 1].surface == surface
                &&& walk.calls()[i - 1].call == Call::Filter(TraversalAction::<T>::SkipChildren)
            }
        },
{
    let calls = walk.calls();
    let here = calls[i];
    law_nothing_after_the_end(surfaces, surface, initial, reverse, walk);
    if here.surface == surface && (here.call is PostFilter || (here.call is Process && i > 0
        && calls[i - 1].surface == surface && calls[i - 1].call == Call::Filter(
        TraversalAction::<T>::SkipChildren,
    ))) {
        lemma_finish_is_last(surfaces, surface, initial, reverse, walk, i);
    }
}

/// Each closure is called at most once on each surface.
pub proof fn law_called_at_most_once<R, T>(
    surfaces: Map<SurfaceId, SurfaceData<R>>,
    surface: SurfaceId,
    initial: T,
    reverse: bool,
    walk: Walk<R, T>,
    i: int,
    j: int,
)
    requires
        are_trees(surfaces),
        surfaces.contains_key(surface),
        is_walk(surfaces, surface, initial, reverse, walk),
        0 <= i < j < walk.calls().len(),
        walk.calls()[i].surface == walk.calls()[j].surface,
    ensures
        !(walk.calls()[i].call is Filter && walk.calls()[j].call is Filter),
        !(walk.calls()[i].call is Process && walk.calls()[j].call is Process),
        !(walk.calls()[i].call is PostFilter && walk.calls()[j].call is PostFilter),
    decreases walk,
{
    let calls = walk.calls();
    if let Walk::Subtree { filter, steps, post_filter } = walk {
        let body = calls_of_steps(steps);
        let inner = filter.call->Filter_0->DoChildren_0;
        let order = stack_in_order(surfaces, surface, reverse);
        assert(stack_is_coherent(surfaces, surface));
        assert(order.no_duplicates());
        let a = if 0 < i <= body.len() {
            lemma_locate(steps, i - 1)
        } else {
            (-1, 0)
        };
        let b = if 0 < j <= body.len() {
            lemma_locate(steps, j - 1)
        } else {
            (-1, 0)
        };
        if 0 < i <= body.len() {
            assert(calls[i] == body[i - 1]);
            lemma_entry_of_stack(surfaces, surface, reverse, a.0);
            if let Step::Child(child) = steps[a.0] {
                lemma_child_calls_are_deeper(
                    surfaces,
                    surface,
                    order[a.0],
                    inner,
                    reverse,
                    child,
                    a.1,
                );
            }
        }
        if 0 < j <= body.len() {
            assert(calls[j] == body[j - 1]);
            lemma_entry_of_stack(surfaces, surface, reverse, b.0);
            if let Step::Child(child) = steps[b.0] {
                lemma_child_calls_are_deeper(
                    surfaces,
                    surface,
                    order[b.0],
                    inner,
                    reverse,
                    child,
                    b.1,
                );
            }
        }
        if 0 < i && j <= body.len() && steps[a.0] is Child && steps[b.0] is Child {
            lemma_one_above(surfaces, calls[i].surface, order[a.0], order[b.0]);
            assert(a.0 == b.0);
            law_called_at_most_once(
                surfaces,
                order[a.0],
                inner,
                reverse,
                steps[a.0]->Child_0,
                a.1,
                b.1,
            );
        }
    }
}

/// The closure that a call of a traversal is said to be made to is called on the surface and with
/// the value of the call, and gives the answer of the call.
pub proof fn law_calls_are_made_to_the_closures<R, T, F1, F2, F3>(
    filter: F1,
    processor: F2,
    post_filter: F3,
    visit: Visit<R, T>,
    attributes: &mut SurfaceAttributes,
    role: &mut R,
    action: TraversalAction<T>,
    go_on: bool,
) where
    F1: FnMut(&SurfaceId, &mut SurfaceAttributes, &mut R, &T) -> TraversalAction<T>,
    F2: FnMut(&SurfaceId, &mut SurfaceAttributes, &mut R, &T),
    F3: FnMut(&SurfaceId, &mut SurfaceAttributes, &mut R, &T) -> bool,

    requires
        is_call(filter, processor, post_filter, visit, attributes, role),
    ensures
        visit.call == Call::Filter(action) ==> call_ensures(
            filter,
            (&visit.surface, attributes, role, &visit.value),
            action,
        ),
        visit.call is Process ==> call_ensures(
            processor,
            (&visit.surface, attributes, role, &visit.value),
            (),
        ),
        visit.call == Call::<T>::PostFilter(go_on) ==> call_ensures(
            post_filter,
            (&visit.surface, attributes, role, &visit.value),
            go_on,
        ),
{
}

/// Calls are made on surfaces that there are. They change nothing but the attributes and the role
/// of the surfaces that they are made on: no surface comes or goes, and all keep their parents
/// and stacks.
pub proof fn law_calls_change_attributes_and_roles_only<R, T>(
    from: Map<SurfaceId, SurfaceData<R>>,
    calls: Seq<Visit<R, T>>,
    to: Map<SurfaceId, SurfaceData<R>>,
    surface: SurfaceId,
)
    requires
        lead_to(from, calls, to),
    ensures
        from.contains_key(surface) <==> to.contains_key(surface),
        from.contains_key(surface) ==> to[surface].parent == from[surface].parent
            && to[surface].stack == from[surface].stack,
        from.contains_key(surface) && (forall|i: int|
            0 <= i < calls.len() ==> (#[trigger] calls[i]).surface != surface) ==> to[surface]
            == from[surface],
        forall|i: int|
            0 <= i < calls.len() ==> from.contains_key((#[trigger] calls[i]).surface),
    decreases calls.len(),
{
    if calls.len() > 0 {
        let visit = calls.first();
        let next = from.insert(
            visit.surface,
            SurfaceData {
                attributes: visit.attributes.1,
                role: visit.role.1,
                ..from[visit.surface]
            },
        );
        let rest = calls.drop_first();
        law_calls_change_attributes_and_roles_only(next, rest, to, surface);
        assert forall|i: int| 0 <= i < calls.len() implies from.contains_key(
            (#[trigger] calls[i]).surface,
        ) by {
            if i > 0 {
                assert(rest[i - 1] == calls[i]);
            }
        }
        if forall|i: int| 0 <= i < calls.len() ==> (#[trigger] calls[i]).surface != surface {
            assert(calls[0].surface != surface);
            assert forall|i: int| 0 <= i < rest.len() implies (#[trigger] rest[i]).surface
                != surface by {
                assert(calls[i + 1].surface != surface);
            }
        }
    }
}

/// The surfaces between the first `count` calls and the others
proof fn lemma_split<R, T>(
    from: Map<SurfaceId, SurfaceData<R>>,
    calls: Seq<Visit<R, T>>,
    to: Map<SurfaceId, SurfaceData<R>>,
    count: int,
) -> (between: Map<SurfaceId, SurfaceData<R>>)
    requires
        lead_to(from, calls, to),
        0 <= count <= calls.len(),
    ensures
        lead_to(from, calls.take(count), between),
        lead_to(between, calls.skip(count), to),
    decreases count,
{
    if count == 0 {
        assert(calls.skip(0) == calls);
        from
    } else {
        let visit = calls.first();
        let next = from.insert(
            visit.surface,
            SurfaceData {
                attributes: visit.attributes.1,
                role: visit.role.1,
                ..from[visit.surface]
            },
        );
        let between = lemma_split(next, calls.drop_first(), to, count - 1);
        assert(calls.take(count).drop_first() == calls.drop_first().take(count - 1));
        assert(calls.skip(count) == calls.drop_first().skip(count - 1));
        between
    }
}

/// The first call on a surface finds the attributes and the role that the surface had, and the last
/// one leaves those that it has in the end.
pub proof fn law_first_and_last_call_on_a_surface<R, T>(
    from: Map<SurfaceId, SurfaceData<R>>,
    calls: Seq<Visit<R, T>>,
    to: Map<SurfaceId, SurfaceData<R>>,
    i: int,
)
    requires
        lead_to(from, calls, to),
        0 <= i < calls.len(),
    ensures
        (forall|j: int| 0 <= j < i ==> (#[trigger] calls[j]).surface != calls[i].surface) ==> {
            &&& calls[i].attributes.0 == from[calls[i].surface].attributes
            &&& calls[i].role.0 == from[calls[i].surface].role
        },
        (forall|j: int|
            i < j < calls.len() ==> (#[trigger] calls[j]).surface != calls[i].surface) ==> {
            &&& to[calls[i].surface].attributes == calls[i].attributes.1
            &&& to[calls[i].surface].role == calls[i].role.1
        },
{
    let surface = calls[i].surface;
    let before = lemma_split(from, calls, to, i);
    let rest = calls.skip(i);
    assert(rest.first() == calls[i]);
    let after = before.insert(
        surface,
        SurfaceData {
            attributes: calls[i].attributes.1,
            role: calls[i].role.1,
            ..before[surface]
        },
    );
    law_calls_change_attributes_and_roles_only(from, calls.take(i), before, surface);
    law_calls_change_attributes_and_roles_only(after, rest.drop_first(), to, surface);
    if forall|j: int| 0 <= j < i ==> (#[trigger] calls[j]).surface != surface {
        assert forall|j: int| 0 <= j < calls.take(i).len() implies (#[trigger] calls.take(
            i,
        )[j]).surface != surface by {
            assert(calls[j].surface != surface);
        }
    }
    if forall|j: int| i < j < calls.len() ==> (#[trigger] calls[j]).surface != surface {
        assert forall|j: int| 0 <= j < rest.drop_first().len() implies (
        #[trigger] rest.drop_first()[j]).surface != surface by {
            assert(calls[i + 1 + j].surface != surface);
        }
    }
}

/// A call on a surface finds the attributes and the role that the call before it on the same
/// surface left.
pub proof fn law_calls_find_what_the_last_one_left<R, T>(
    from: Map<SurfaceId, SurfaceData<R>>,
    calls: Seq<Visit<R, T>>,
    to: Map<SurfaceId, SurfaceData<R>>,
    i: int,
    j: int,
)
    requires
        lead_to(from, calls, to),
        0 <= i < j < calls.len(),
        calls[i].surface == calls[j].surface,
        forall|between: int|
            i < between < j ==> (#[trigger] calls[between]).surface != calls[i].surface,
    ensures
        calls[j].attributes.0 == calls[i].attributes.1,
        calls[j].role.0 == calls[i].role.1,
{
    let between = lemma_split(from, calls, to, j);
    let first = calls.take(j);
    assert(first[i] == calls[i]);
    assert forall|k: int| i < k < first.len() implies (#[trigger] first[k]).surface
        != first[i].surface by {
        assert(calls[k].surface != calls[i].surface);
    }
    law_first_and_last_call_on_a_surface(from, first, between, i);
    assert(calls.skip(j).first() == calls[j]);
}

} // verus!
