//! Laws of the order in which surface trees are traversed

use super::tree::{
    are_trees, calls_of_steps, depth_of, drawing_order, height_of, is_below, is_walk, lemma_depth,
    lemma_entry_of_stack, order_of_first, stack_in_order, stack_is_coherent, Call, Step,
    SurfaceData, SurfaceId, Visit, Walk,
};
use vstd::prelude::*;

verus! {

/// What an entry of the stack of `surface` stands for
spec fn part<R>(
    surfaces: Map<SurfaceId, SurfaceData<R>>,
    surface: SurfaceId,
    entry: SurfaceId,
    reverse: bool,
) -> Seq<SurfaceId> {
    if entry == surface {
        seq![surface]
    } else {
        drawing_order(surfaces, entry, reverse)
    }
}

/// One more entry of the stack adds what the entry stands for
proof fn lemma_order_step<R>(
    surfaces: Map<SurfaceId, SurfaceData<R>>,
    surface: SurfaceId,
    count: nat,
    reverse: bool,
)
    requires
        are_trees(surfaces),
        surfaces.contains_key(surface),
        0 < count <= surfaces[surface].stack@.len(),
    ensures
        order_of_first(surfaces, surface, count, reverse) == order_of_first(
            surfaces,
            surface,
            (count - 1) as nat,
            reverse,
        ) + part(surfaces, surface, stack_in_order(surfaces, surface, reverse)[count - 1], reverse),
{
    let before = order_of_first(surfaces, surface, (count - 1) as nat, reverse);
    lemma_entry_of_stack(surfaces, surface, reverse, count - 1);
    assert(before.push(surface) == before + seq![surface]);
}

/// The reverse of two sequences, one after the other
proof fn lemma_reverse_concat<A>(a: Seq<A>, b: Seq<A>)
    ensures
        (a + b).reverse() == b.reverse() + a.reverse(),
{
}

/// Going down through the last `count` entries of a stack is the reverse of going up
/// through them
proof fn lemma_downward<R>(
    surfaces: Map<SurfaceId, SurfaceData<R>>,
    surface: SurfaceId,
    count: nat,
)
    requires
        are_trees(surfaces),
        surfaces.contains_key(surface),
        count <= surfaces[surface].stack@.len(),
    ensures
        drawing_order(surfaces, surface, false) == order_of_first(
            surfaces,
            surface,
            (surfaces[surface].stack@.len() - count) as nat,
            false,
        ) + order_of_first(surfaces, surface, count, true).reverse(),
    decreases height_of(surfaces) - depth_of(surfaces, surface), count,
{
    let len = surfaces[surface].stack@.len();
    let up = drawing_order(surfaces, surface, false);
    if count == 0 {
        assert(up == up + Seq::<SurfaceId>::empty().reverse());
    } else {
        let less = (count - 1) as nat;
        lemma_downward(surfaces, surface, less);
        let rest = (len - less) as nat;
        lemma_order_step(surfaces, surface, rest, false);
        lemma_order_step(surfaces, surface, count, true);
        let entry = stack_in_order(surfaces, surface, false)[rest - 1];
        assert(entry == stack_in_order(surfaces, surface, true)[count - 1]);
        lemma_entry_of_stack(surfaces, surface, false, rest - 1);
        let front = order_of_first(surfaces, surface, (rest - 1) as nat, false);
        let back = order_of_first(surfaces, surface, less, true);
        let there = part(surfaces, surface, entry, false);
        if entry != surface {
            lemma_depth(surfaces, entry);
            lemma_downward(surfaces, entry, surfaces[entry].stack@.len());
            assert(there == part(surfaces, surface, entry, true).reverse());
        } else {
            assert(there == part(surfaces, surface, entry, true).reverse());
        }
        lemma_reverse_concat(back, part(surfaces, surface, entry, true));
        assert(up == front + there + back.reverse());
        assert(front + there + back.reverse() == front + (there + back.reverse()));
    }
}

/// Going from the nearest surface to the farthest is the reverse of going from the farthest
/// to the nearest.
pub proof fn law_downward_is_upward_reversed<R>(
    surfaces: Map<SurfaceId, SurfaceData<R>>,
    surface: SurfaceId,
)
    requires
        are_trees(surfaces),
        surfaces.contains_key(surface),
    ensures
        drawing_order(surfaces, surface, true) == drawing_order(surfaces, surface, false).reverse(),
{
    let len = surfaces[surface].stack@.len();
    lemma_downward(surfaces, surface, len);
    let down = drawing_order(surfaces, surface, true);
    assert(order_of_first(surfaces, surface, 0, false) == Seq::<SurfaceId>::empty());
    assert(drawing_order(surfaces, surface, false) == down.reverse());
    assert(down.reverse().reverse() == down);
}

/// A surface below another is at least as deep
pub proof fn lemma_below_is_deeper<R>(
    surfaces: Map<SurfaceId, SurfaceData<R>>,
    surface: SurfaceId,
    root: SurfaceId,
)
    requires
        are_trees(surfaces),
        surfaces.contains_key(surface),
        is_below(surfaces, surface, root),
    ensures
        surfaces.contains_key(root),
        depth_of(surfaces, surface) >= depth_of(surfaces, root),
    decreases depth_of(surfaces, surface),
{
    if surface != root {
        lemma_depth(surfaces, surface);
        lemma_below_is_deeper(surfaces, surfaces[surface].parent->0, root);
    }
}

/// Going up from a surface meets one surface only at each depth
pub proof fn lemma_one_above<R>(
    surfaces: Map<SurfaceId, SurfaceData<R>>,
    surface: SurfaceId,
    a: SurfaceId,
    b: SurfaceId,
)
    requires
        are_trees(surfaces),
        surfaces.contains_key(surface),
        is_below(surfaces, surface, a),
        is_below(surfaces, surface, b),
        depth_of(surfaces, a) == depth_of(surfaces, b),
    ensures
        a == b,
    decreases depth_of(surfaces, surface),
{
    lemma_depth(surfaces, surface);
    if surface == a {
        if surface != b {
            lemma_below_is_deeper(surfaces, surfaces[surface].parent->0, b);
        }
    } else if surface == b {
        lemma_below_is_deeper(surfaces, surfaces[surface].parent->0, a);
    } else {
        lemma_one_above(surfaces, surfaces[surface].parent->0, a, b);
    }
}

/// What is below a child is below its parent
pub proof fn lemma_below_child<R>(
    surfaces: Map<SurfaceId, SurfaceData<R>>,
    surface: SurfaceId,
    child: SurfaceId,
)
    requires
        are_trees(surfaces),
        surfaces.contains_key(surface),
        surfaces.contains_key(child),
        surfaces[child].parent is Some,
        is_below(surfaces, surface, child),
    ensures
        is_below(surfaces, surface, surfaces[child].parent->0),
    decreases depth_of(surfaces, surface),
{
    lemma_depth(surfaces, surface);
    if surface != child {
        lemma_below_child(surfaces, surfaces[surface].parent->0, child);
    } else {
        let parent = surfaces[child].parent->0;
        assert(is_below(surfaces, parent, parent));
    }
}

/// What is below a surface, and not the surface itself, is below one of its children
proof fn lemma_child_above<R>(
    surfaces: Map<SurfaceId, SurfaceData<R>>,
    surface: SurfaceId,
    root: SurfaceId,
) -> (child: SurfaceId)
    requires
        are_trees(surfaces),
        surfaces.contains_key(surface),
        surface != root,
        is_below(surfaces, surface, root),
    ensures
        surfaces.contains_key(child),
        surfaces[child].parent == Some(root),
        is_below(surfaces, surface, child),
    decreases depth_of(surfaces, surface),
{
    lemma_depth(surfaces, surface);
    let parent = surfaces[surface].parent->0;
    if parent == root {
        surface
    } else {
        lemma_child_above(surfaces, parent, root)
    }
}

/// The first entries of a stack stand for the surfaces that are one of them or, for the
/// children among them, below one of them; each comes once
proof fn lemma_order_of_first<R>(
    surfaces: Map<SurfaceId, SurfaceData<R>>,
    surface: SurfaceId,
    count: nat,
    reverse: bool,
)
    requires
        are_trees(surfaces),
        surfaces.contains_key(surface),
        count <= surfaces[surface].stack@.len(),
    ensures
        order_of_first(surfaces, surface, count, reverse).no_duplicates(),
        forall|other: SurfaceId| #[trigger]
            order_of_first(surfaces, surface, count, reverse).contains(other) <==> {
                &&& surfaces.contains_key(other)
                &&& exists|i: int|
                    {
                        let entry = #[trigger] stack_in_order(surfaces, surface, reverse)[i];
                        &&& 0 <= i < count
                        &&& if entry == surface {
                            other == surface
                        } else {
                            is_below(surfaces, other, entry)
                        }
                    }
            },
        count == surfaces[surface].stack@.len() ==> forall|other: SurfaceId| #[trigger]
            order_of_first(surfaces, surface, count, reverse).contains(other)
                <==> surfaces.contains_key(other) && is_below(surfaces, other, surface),
    decreases height_of(surfaces) - depth_of(surfaces, surface), count,
{
    let stack = stack_in_order(surfaces, surface, reverse);
    let order = order_of_first(surfaces, surface, count, reverse);
    lemma_depth(surfaces, surface);
    assert(stack_is_coherent(surfaces, surface));
    assert(stack.no_duplicates());
    if count > 0 {
        let less = (count - 1) as nat;
        let before = order_of_first(surfaces, surface, less, reverse);
        let entry = stack[count - 1];
        let here = part(surfaces, surface, entry, reverse);
        lemma_order_of_first(surfaces, surface, less, reverse);
        lemma_order_step(surfaces, surface, count, reverse);
        lemma_entry_of_stack(surfaces, surface, reverse, count - 1);
        if entry != surface {
            lemma_depth(surfaces, entry);
            lemma_order_of_first(surfaces, entry, surfaces[entry].stack@.len(), reverse);
        }
        assert forall|other: SurfaceId| #[trigger] here.contains(other) <==> surfaces.contains_key(
            other,
        ) && (if entry == surface {
            other == surface
        } else {
            is_below(surfaces, other, entry)
        }) by {
            if entry == surface {
                assert(here == seq![surface]);
                assert(here[0] == surface);
            }
        }
        assert forall|other: SurfaceId| #[trigger] before.contains(other) implies !here.contains(
            other,
        ) by {
            if here.contains(other) {
                let i = choose|i: int|
                    {
                        let entry = #[trigger] stack[i];
                        &&& 0 <= i < less
                        &&& if entry == surface {
                            other == surface
                        } else {
                            is_below(surfaces, other, entry)
                        }
                    };
                lemma_entry_of_stack(surfaces, surface, reverse, i);
                let earlier = stack[i];
                assert(earlier != entry);
                if earlier != surface {
                    lemma_depth(surfaces, earlier);
                    lemma_below_is_deeper(surfaces, other, earlier);
                }
                if entry != surface {
                    lemma_below_is_deeper(surfaces, other, entry);
                }
                if earlier != surface && entry != surface {
                    lemma_one_above(surfaces, other, earlier, entry);
                }
            }
        }
        assert(order == before + here);
        assert forall|other: SurfaceId| #[trigger] order.contains(other) <==> before.contains(other)
            || here.contains(other) by {
            if before.contains(other) {
                let i = choose|i: int| 0 <= i < before.len() && before[i] == other;
                assert(order[i] == other);
            }
            if here.contains(other) {
                let i = choose|i: int| 0 <= i < here.len() && here[i] == other;
                assert(order[before.len() + i] == other);
            }
        }
        assert(order.no_duplicates()) by {
            assert forall|i: int, j: int| 0 <= i < j < order.len() implies order[i] != order[j] by {
                if i < before.len() && j >= before.len() {
                    assert(before.contains(before[i]));
                    assert(here.contains(here[j - before.len()]));
                }
            }
        }
        assert forall|other: SurfaceId| #[trigger] order.contains(other) <==> {
            &&& surfaces.contains_key(other)
            &&& exists|i: int|
                {
                    let entry = #[trigger] stack[i];
                    &&& 0 <= i < count
                    &&& if entry == surface {
                        other == surface
                    } else {
                        is_below(surfaces, other, entry)
                    }
                }
        } by {
            if here.contains(other) {
                assert(stack[count - 1] == entry);
            }
        }
    }
    if count == surfaces[surface].stack@.len() {
        assert forall|other: SurfaceId| #[trigger] order.contains(other)
            <==> surfaces.contains_key(other) && is_below(surfaces, other, surface) by {
            if order.contains(other) {
                let i = choose|i: int|
                    {
                        let entry = #[trigger] stack[i];
                        &&& 0 <= i < count
                        &&& if entry == surface {
                            other == surface
                        } else {
                            is_below(surfaces, other, entry)
                        }
                    };
                lemma_entry_of_stack(surfaces, surface, reverse, i);
                if stack[i] != surface {
                    lemma_below_child(surfaces, other, stack[i]);
                }
            }
            if surfaces.contains_key(other) && is_below(surfaces, other, surface) {
                let entry = if other == surface {
                    surface
                } else {
                    lemma_child_above(surfaces, other, surface)
                };
                if entry != surface {
                    lemma_depth(surfaces, entry);
                }
                let listed = surfaces[surface].stack@;
                assert(listed.contains(entry));
                let at = choose|at: int| 0 <= at < listed.len() && listed[at] == entry;
                let i = if reverse {
                    listed.len() - 1 - at
                } else {
                    at
                };
                assert(stack[i] == entry);
            }
        }
    }
}

/// The surfaces that the processor is called for, in the order of the calls
pub open spec fn processed<R, T>(calls: Seq<Visit<R, T>>) -> Seq<SurfaceId>
    decreases calls.len(),
{
    if calls.len() == 0 {
        Seq::empty()
    } else {
        let before = processed(calls.drop_last());
        if calls.last().call is Process {
            before.push(calls.last().surface)
        } else {
            before
        }
    }
}

/// Whether the call lets the traversal go through everything: the filter asks for the
/// children, and the post filter asks to continue
pub open spec fn lets_through<R, T>(visit: Visit<R, T>) -> bool {
    match visit.call {
        Call::Filter(action) => action is DoChildren,
        Call::Process => true,
        Call::PostFilter(go_on) => go_on,
    }
}

/// Whether the call ends the traversal: the filter breaks it off, or the post filter asks
/// to stop
pub open spec fn ends_traversal<R, T>(visit: Visit<R, T>) -> bool {
    match visit.call {
        Call::Filter(action) => action is Break,
        Call::Process => false,
        Call::PostFilter(go_on) => !go_on,
    }
}

/// What is processed by calls followed by other calls
proof fn lemma_processed_concat<R, T>(a: Seq<Visit<R, T>>, b: Seq<Visit<R, T>>)
    ensures
        processed(a + b) == processed(a) + processed(b),
    decreases b.len(),
{
    if b.len() == 0 {
        assert(a + b == a);
        assert(processed(a) + processed(b) == processed(a));
    } else {
        lemma_processed_concat(a, b.drop_last());
        assert((a + b).drop_last() == a + b.drop_last());
        assert((a + b).last() == b.last());
        if b.last().call is Process {
            assert((processed(a) + processed(b.drop_last())).push(b.last().surface) == processed(a)
                + processed(b));
        }
    }
}

/// What is processed by a single call
proof fn lemma_processed_one<R, T>(visit: Visit<R, T>)
    ensures
        processed(seq![visit]) == (if visit.call is Process {
            seq![visit.surface]
        } else {
            Seq::empty()
        }),
{
    assert(seq![visit].drop_last() == Seq::<Visit<R, T>>::empty());
    assert(processed(seq![visit].drop_last()) == Seq::<SurfaceId>::empty());
    assert(Seq::<SurfaceId>::empty().push(visit.surface) == seq![visit.surface]);
}

/// A walk that is let through processes the subtree of the surface in drawing order, and goes on
proof fn lemma_walk_in_order<R, T>(
    surfaces: Map<SurfaceId, SurfaceData<R>>,
    surface: SurfaceId,
    value: T,
    reverse: bool,
    walk: Walk<R, T>,
)
    requires
        are_trees(surfaces),
        surfaces.contains_key(surface),
        is_walk(surfaces, surface, value, reverse, walk),
        forall|i: int| 0 <= i < walk.calls().len() ==> lets_through(#[trigger] walk.calls()[i]),
    ensures
        processed(walk.calls()) == drawing_order(surfaces, surface, reverse),
        walk.goes_on(),
    decreases walk, 1nat, 0nat,
{
    let calls = walk.calls();
    assert(calls.len() > 0);
    assert(lets_through(calls[0]));
    match walk {
        Walk::Stop { filter } => {},
        Walk::Alone { filter, process } => {},
        Walk::Subtree { filter, steps, post_filter } => {
            let post = match post_filter {
                Some(visit) => seq![visit],
                None => Seq::empty(),
            };
            let body = calls_of_steps(steps);
            assert(calls == seq![filter] + body + post);
            assert forall|i: int| 0 <= i < body.len() implies lets_through(#[trigger] body[i]) by {
                assert(calls[i + 1] == body[i]);
            }
            assert(steps.take(steps.len() as int) == steps);
            lemma_steps_in_order(surfaces, surface, value, reverse, walk, steps.len());
            if let Some(visit) = post_filter {
                assert(calls[calls.len() - 1] == visit);
                assert(lets_through(visit));
                lemma_processed_one(visit);
            }
            lemma_processed_one(filter);
            lemma_processed_concat(seq![filter], body);
            lemma_processed_concat(seq![filter] + body, post);
            assert(processed(calls) == drawing_order(surfaces, surface, reverse));
        },
    }
}

/// The first steps of a walk, let through, process what the first entries of the stack stand for
proof fn lemma_steps_in_order<R, T>(
    surfaces: Map<SurfaceId, SurfaceData<R>>,
    surface: SurfaceId,
    value: T,
    reverse: bool,
    walk: Walk<R, T>,
    count: nat,
)
    requires
        are_trees(surfaces),
        surfaces.contains_key(surface),
        is_walk(surfaces, surface, value, reverse, walk),
        walk is Subtree,
        count <= walk->steps.len(),
        forall|i: int|
            0 <= i < calls_of_steps(walk->steps.take(count as int)).len() ==> lets_through(
                #[trigger] calls_of_steps(walk->steps.take(count as int))[i],
            ),
    ensures
        processed(calls_of_steps(walk->steps.take(count as int))) == order_of_first(
            surfaces,
            surface,
            count,
            reverse,
        ),
        forall|i: int| 0 <= i < count ==> (#[trigger] walk->steps[i]).goes_on(),
    decreases walk, 0nat, count,
{
    let steps = walk->steps.take(count as int);
    if count > 0 {
        let less = (count - 1) as nat;
        let before = walk->steps.take(less as int);
        let step = walk->steps[less as int];
        let calls = calls_of_steps(steps);
        assert(steps.drop_last() == before);
        assert(steps.last() == step);
        assert(calls == calls_of_steps(before) + step.calls());
        assert forall|i: int| 0 <= i < calls_of_steps(before).len() implies lets_through(
            #[trigger] calls_of_steps(before)[i],
        ) by {
            assert(calls[i] == calls_of_steps(before)[i]);
        }
        assert forall|i: int| 0 <= i < step.calls().len() implies lets_through(
            #[trigger] step.calls()[i],
        ) by {
            assert(calls[calls_of_steps(before).len() + i] == step.calls()[i]);
        }
        lemma_steps_in_order(surfaces, surface, value, reverse, walk, less);
        lemma_processed_concat(calls_of_steps(before), step.calls());
        lemma_order_step(surfaces, surface, count, reverse);
        let entry = stack_in_order(surfaces, surface, reverse)[less as int];
        lemma_entry_of_stack(surfaces, surface, reverse, less as int);
        match step {
            Step::Own(process) => {
                lemma_processed_one(process);
            },
            Step::Child(child) => {
                lemma_walk_in_order(
                    surfaces,
                    entry,
                    walk->Subtree_filter.call->Filter_0->DoChildren_0,
                    reverse,
                    child,
                );
            },
        }
    } else {
        assert(steps == Seq::<Step<R, T>>::empty());
    }
}

/// A traversal whose closures let it through processes the whole subtree of the surface, in
/// drawing order.
pub proof fn law_traversal_follows_drawing_order<R, T>(
    surfaces: Map<SurfaceId, SurfaceData<R>>,
    surface: SurfaceId,
    initial: T,
    reverse: bool,
    walk: Walk<R, T>,
)
    requires
        are_trees(surfaces),
        surfaces.contains_key(surface),
        is_walk(surfaces, surface, initial, reverse, walk),
        forall|i: int| 0 <= i < walk.calls().len() ==> lets_through(#[trigger] walk.calls()[i]),
    ensures
        processed(walk.calls()) == drawing_order(surfaces, surface, reverse),
{
    lemma_walk_in_order(surfaces, surface, initial, reverse, walk);
}

/// The drawing order of a surface has each surface of its subtree once, and no other.
pub proof fn law_drawing_order_is_the_subtree<R>(
    surfaces: Map<SurfaceId, SurfaceData<R>>,
    surface: SurfaceId,
    reverse: bool,
)
    requires
        are_trees(surfaces),
        surfaces.contains_key(surface),
    ensures
        drawing_order(surfaces, surface, reverse).no_duplicates(),
        forall|other: SurfaceId| #[trigger]
            drawing_order(surfaces, surface, reverse).contains(other) <==> surfaces.contains_key(
                other,
            ) && is_below(surfaces, other, surface),
{
    lemma_order_of_first(surfaces, surface, surfaces[surface].stack@.len(), reverse);
}

/// Whether `at` picks the elements of `picked` out of `all`, in order
pub open spec fn picks(picked: Seq<SurfaceId>, all: Seq<SurfaceId>, at: Seq<int>) -> bool {
    &&& at.len() == picked.len()
    &&& forall|i: int|
        0 <= i < at.len() ==> 0 <= #[trigger] at[i] < all.len() && all[at[i]] == picked[i]
    &&& forall|i: int, j: int| 0 <= i < j < at.len() ==> at[i] < at[j]
}

/// Whether `picked` consists of elements of `all`, in the order that they have there
pub open spec fn is_part_in_order(picked: Seq<SurfaceId>, all: Seq<SurfaceId>) -> bool {
    exists|at: Seq<int>| picks(picked, all, at)
}

/// Parts of two sequences, one after the other, are part of the sequences one after the other
proof fn lemma_parts_concat(
    a: Seq<SurfaceId>,
    all_a: Seq<SurfaceId>,
    b: Seq<SurfaceId>,
    all_b: Seq<SurfaceId>,
)
    requires
        is_part_in_order(a, all_a),
        is_part_in_order(b, all_b),
    ensures
        is_part_in_order(a + b, all_a + all_b),
{
    let at_a = choose|at: Seq<int>| picks(a, all_a, at);
    let at_b = choose|at: Seq<int>| picks(b, all_b, at);
    let at = at_a + at_b.map_values(|i: int| all_a.len() + i);
    let all = all_a + all_b;
    assert forall|i: int| 0 <= i < at.len() implies 0 <= #[trigger] at[i] < all.len() && all[at[i]]
        == (a + b)[i] by {
        if i < at_a.len() {
            assert(at[i] == at_a[i]);
        } else {
            assert(at[i] == all_a.len() + at_b[i - at_a.len()]);
        }
    }
    assert forall|i: int, j: int| 0 <= i < j < at.len() implies at[i] < at[j] by {
        if j < at_a.len() {
            assert(at_a[i] < at_a[j]);
        } else if i >= at_a.len() {
            assert(at_b[i - at_a.len()] < at_b[j - at_a.len()]);
        } else {
            assert(at[i] == at_a[i]);
            assert(at[j] == all_a.len() + at_b[j - at_a.len()]);
        }
    }
    assert(picks(a + b, all, at));
}

/// The empty sequence is part of any sequence
proof fn lemma_nothing_is_a_part(all: Seq<SurfaceId>)
    ensures
        is_part_in_order(Seq::empty(), all),
{
    assert(picks(Seq::empty(), all, Seq::empty()));
}

/// An element is part of the sequence that it is in
proof fn lemma_element_is_a_part(all: Seq<SurfaceId>, surface: SurfaceId)
    requires
        all.contains(surface),
    ensures
        is_part_in_order(seq![surface], all),
{
    let i = choose|i: int| 0 <= i < all.len() && all[i] == surface;
    assert(picks(seq![surface], all, seq![i]));
}

/// Parts of the order of the first entries are parts of the whole drawing order
proof fn lemma_first_are_a_part<R>(
    surfaces: Map<SurfaceId, SurfaceData<R>>,
    surface: SurfaceId,
    picked: Seq<SurfaceId>,
    count: nat,
    reverse: bool,
)
    requires
        are_trees(surfaces),
        surfaces.contains_key(surface),
        count <= surfaces[surface].stack@.len(),
        is_part_in_order(picked, order_of_first(surfaces, surface, count, reverse)),
    ensures
        is_part_in_order(picked, drawing_order(surfaces, surface, reverse)),
    decreases surfaces[surface].stack@.len() - count,
{
    if count < surfaces[surface].stack@.len() {
        lemma_order_step(surfaces, surface, count + 1, reverse);
        let next = part(
            surfaces,
            surface,
            stack_in_order(surfaces, surface, reverse)[count as int],
            reverse,
        );
        lemma_nothing_is_a_part(next);
        lemma_parts_concat(
            picked,
            order_of_first(surfaces, surface, count, reverse),
            Seq::empty(),
            next,
        );
        assert(picked + Seq::<SurfaceId>::empty() == picked);
        lemma_first_are_a_part(surfaces, surface, picked, count + 1, reverse);
    }
}

/// The first steps of a walk process part of what the first entries of the stack stand for
proof fn lemma_steps_are_a_part<R, T>(
    surfaces: Map<SurfaceId, SurfaceData<R>>,
    surface: SurfaceId,
    value: T,
    reverse: bool,
    walk: Walk<R, T>,
    count: nat,
)
    requires
        are_trees(surfaces),
        surfaces.contains_key(surface),
        is_walk(surfaces, surface, value, reverse, walk),
        walk is Subtree,
        count <= walk->steps.len(),
    ensures
        is_part_in_order(
            processed(calls_of_steps(walk->steps.take(count as int))),
            order_of_first(surfaces, surface, count, reverse),
        ),
    decreases walk, 0nat, count,
{
    let steps = walk->steps.take(count as int);
    if count > 0 {
        let less = (count - 1) as nat;
        let before = walk->steps.take(less as int);
        let step = walk->steps[less as int];
        assert(steps.drop_last() == before);
        assert(steps.last() == step);
        lemma_steps_are_a_part(surfaces, surface, value, reverse, walk, less);
        lemma_processed_concat(calls_of_steps(before), step.calls());
        lemma_order_step(surfaces, surface, count, reverse);
        let entry = stack_in_order(surfaces, surface, reverse)[less as int];
        lemma_entry_of_stack(surfaces, surface, reverse, less as int);
        match step {
            Step::Own(process) => {
                lemma_processed_one(process);
                assert(seq![surface][0] == surface);
                lemma_element_is_a_part(seq![surface], surface);
            },
            Step::Child(child) => {
                law_traversal_keeps_drawing_order(
                    surfaces,
                    entry,
                    walk->Subtree_filter.call->Filter_0->DoChildren_0,
                    reverse,
                    child,
                );
            },
        }
        lemma_parts_concat(
            processed(calls_of_steps(before)),
            order_of_first(surfaces, surface, less, reverse),
            processed(step.calls()),
            part(surfaces, surface, entry, reverse),
        );
    } else {
        assert(steps == Seq::<Step<R, T>>::empty());
        lemma_nothing_is_a_part(order_of_first(surfaces, surface, count, reverse));
    }
}

/// Whatever the closures answer, the surfaces that a traversal processes are surfaces of the
/// subtree, processed in the order in which they are drawn.
pub proof fn law_traversal_keeps_drawing_order<R, T>(
    surfaces: Map<SurfaceId, SurfaceData<R>>,
    surface: SurfaceId,
    initial: T,
    reverse: bool,
    walk: Walk<R, T>,
)
    requires
        are_trees(surfaces),
        surfaces.contains_key(surface),
        is_walk(surfaces, surface, initial, reverse, walk),
    ensures
        is_part_in_order(
            processed(walk.calls()),
            drawing_order(surfaces, surface, reverse),
        ),
    decreases walk, 1nat, 0nat,
{
    let order = drawing_order(surfaces, surface, reverse);
    match walk {
        Walk::Stop { filter } => {
            lemma_processed_one(filter);
            lemma_nothing_is_a_part(order);
        },
        Walk::Alone { filter, process } => {
            lemma_processed_one(filter);
            lemma_processed_one(process);
            lemma_processed_concat(seq![filter], seq![process]);
            assert(walk.calls() == seq![filter] + seq![process]);
            assert(processed(walk.calls()) == seq![surface]);
            law_drawing_order_is_the_subtree(surfaces, surface, reverse);
            assert(is_below(surfaces, surface, surface));
            lemma_element_is_a_part(order, surface);
        },
        Walk::Subtree { filter, steps, post_filter } => {
            let post = match post_filter {
                Some(visit) => seq![visit],
                None => Seq::empty(),
            };
            let body = calls_of_steps(steps);
            assert(steps.take(steps.len() as int) == steps);
            lemma_steps_are_a_part(surfaces, surface, initial, reverse, walk, steps.len());
            lemma_first_are_a_part(surfaces, surface, processed(body), steps.len(), reverse);
            if let Some(visit) = post_filter {
                lemma_processed_one(visit);
            }
            lemma_processed_one(filter);
            lemma_processed_concat(seq![filter], body);
            lemma_processed_concat(seq![filter] + body, post);
            assert(processed(walk.calls()) == processed(body));
        },
    }
}

/// Among the calls of the first steps of a walk, at most the last one ends the traversal
proof fn lemma_steps_end<R, T>(
    surfaces: Map<SurfaceId, SurfaceData<R>>,
    surface: SurfaceId,
    value: T,
    reverse: bool,
    walk: Walk<R, T>,
    count: nat,
)
    requires
        is_walk(surfaces, surface, value, reverse, walk),
        walk is Subtree,
        count <= walk->steps.len(),
    ensures
        ({
            let calls = calls_of_steps(walk->steps.take(count as int));
            &&& count > 0 ==> calls.len() > 0
            &&& forall|i: int|
                0 <= i < calls.len() - 1 ==> !ends_traversal(#[trigger] calls[i])
            &&& count > 0 ==> (ends_traversal(calls.last()) <==> !walk->steps[count - 1].goes_on())
        }),
    decreases walk, 0nat, count,
{
    let steps = walk->steps.take(count as int);
    if count > 0 {
        let less = (count - 1) as nat;
        let before = walk->steps.take(less as int);
        let step = walk->steps[less as int];
        assert(steps.drop_last() == before);
        assert(steps.last() == step);
        lemma_steps_end(surfaces, surface, value, reverse, walk, less);
        if let Step::Child(child) = step {
            law_nothing_after_the_end(
                surfaces,
                stack_in_order(surfaces, surface, reverse)[less as int],
                walk->Subtree_filter.call->Filter_0->DoChildren_0,
                reverse,
                child,
            );
        }
        let calls = calls_of_steps(steps);
        let front = calls_of_steps(before);
        assert(calls == front + step.calls());
        assert(calls.last() == step.calls().last());
        assert forall|i: int| 0 <= i < calls.len() - 1 implies !ends_traversal(
            #[trigger] calls[i],
        ) by {
            if i < front.len() {
                assert(calls[i] == front[i]);
                if i == front.len() - 1 {
                    assert(walk->steps[less - 1].goes_on());
                }
            } else {
                assert(calls[i] == step.calls()[i - front.len()]);
            }
        }
    } else {
        assert(steps == Seq::<Step<R, T>>::empty());
    }
}

/// Once the filter breaks the traversal off, or the post filter asks to stop, nothing more is
/// called; and a traversal stops early for no other reason.
pub proof fn law_nothing_after_the_end<R, T>(
    surfaces: Map<SurfaceId, SurfaceData<R>>,
    surface: SurfaceId,
    initial: T,
    reverse: bool,
    walk: Walk<R, T>,
)
    requires
        is_walk(surfaces, surface, initial, reverse, walk),
    ensures
        walk.calls().len() > 0,
        forall|i: int|
            0 <= i < walk.calls().len() - 1 ==> !ends_traversal(#[trigger] walk.calls()[i]),
        walk.goes_on() <==> !ends_traversal(walk.calls().last()),
    decreases walk, 1nat, 0nat,
{
    if let Walk::Subtree { filter, steps, post_filter } = walk {
        let body = calls_of_steps(steps);
        let calls = walk.calls();
        assert(steps.take(steps.len() as int) == steps);
        lemma_steps_end(surfaces, surface, initial, reverse, walk, steps.len());
        assert forall|i: int| 0 <= i < calls.len() - 1 implies !ends_traversal(
            #[trigger] calls[i],
        ) by {
            if i > 0 {
                assert(calls[i] == body[i - 1]);
            }
        }
        if post_filter is None {
            assert(calls.last() == body.last());
        }
    }
}

} // verus!
