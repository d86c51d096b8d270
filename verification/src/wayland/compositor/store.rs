//! The surfaces of a compositor

use super::roles::{Role, RoleType, WrongRole};
use super::tree::{
    are_trees, at_depth, calls_of_steps, depth_of, height_of, is_below, is_call, is_walk, lead_to,
    lemma_calls_concat, lemma_depth, lemma_entry_of_stack, lemma_lead_to_concat, lemma_same_trees,
    no_deeper_than, same_trees, stack_in_order, stack_is_coherent, Call, Step, SurfaceData,
    SurfaceId, TraversalAction, Visit, Walk,
};
use super::{SubsurfaceRole, SurfaceAttributes};
use std::collections::HashMap;
use vstd::prelude::*;

verus! {

broadcast use vstd::std_specs::hash::group_hash_axioms;

/// The surfaces after the role of one of them has been replaced
pub open spec fn with_role<R>(
    surfaces: Map<SurfaceId, SurfaceData<R>>,
    surface: SurfaceId,
    role: R,
) -> Map<SurfaceId, SurfaceData<R>> {
    surfaces.insert(surface, SurfaceData { role, ..surfaces[surface] })
}

/// The surfaces after the attributes of one of them have been replaced
pub open spec fn with_attributes<R>(
    surfaces: Map<SurfaceId, SurfaceData<R>>,
    surface: SurfaceId,
    attributes: SurfaceAttributes,
) -> Map<SurfaceId, SurfaceData<R>> {
    surfaces.insert(surface, SurfaceData { attributes, ..surfaces[surface] })
}

/// Where to place a surface in a stack, relative to another surface
#[derive(Copy, Clone, Debug, PartialEq, Eq, Structural)]
pub enum Location {
    /// Just before the other surface: farther than it
    Before,
    /// Just after the other surface: nearer than it
    After,
}

/// The stack in which `surface` has been moved next to `relative_to`
pub open spec fn moved_in_stack(
    stack: Seq<SurfaceId>,
    surface: SurfaceId,
    to: Location,
    relative_to: SurfaceId,
) -> Seq<SurfaceId> {
    let others = stack.remove(stack.index_of(surface));
    let at = others.index_of(relative_to);
    match to {
        Location::Before => others.insert(at, surface),
        Location::After => others.insert(at + 1, surface),
    }
}

/// The surfaces of a compositor
pub struct Surfaces<R> {
    surfaces: HashMap<SurfaceId, SurfaceData<R>>,
}

/// Where in a stack a surface is
fn index_in(stack: &Vec<SurfaceId>, surface: SurfaceId) -> (found: Option<usize>)
    ensures
        match found {
            Some(at) => at < stack.len() && stack@[at as int] == surface,
            None => !stack@.contains(surface),
        },
{
    let mut i: usize = 0;
    while i < stack.len()
        invariant
            i <= stack.len(),
            forall|j: int| 0 <= j < i ==> stack@[j] != surface,
        decreases stack.len() - i,
    {
        if stack[i] == surface {
            return Some(i);
        }
        i = i + 1;
    }
    None
}

impl<R> View for Surfaces<R> {
    type V = Map<SurfaceId, SurfaceData<R>>;

    closed spec fn view(&self) -> Map<SurfaceId, SurfaceData<R>> {
        self.surfaces@
    }
}

impl<R> Surfaces<R> {
    /// Whether the surfaces form trees
    pub open spec fn wf(self) -> bool {
        are_trees(self@)
    }

    /// Creates a set of surfaces that holds none yet
    pub fn new() -> (surfaces: Surfaces<R>)
        ensures
            surfaces@ == Map::<SurfaceId, SurfaceData<R>>::empty(),
            surfaces.wf(),
    {
        let surfaces = Surfaces { surfaces: HashMap::new() };
        proof {
            assert(surfaces@ == Map::<SurfaceId, SurfaceData<R>>::empty());
            assert(no_deeper_than(surfaces@, 0));
        }
        surfaces
    }

    /// Whether the surface is managed by the compositor
    pub fn is_managed(&self, surface: &SurfaceId) -> (managed: bool)
        ensures
            managed == self@.contains_key(*surface),
    {
        self.surfaces.contains_key(surface)
    }

    /// Starts managing a surface, as the root of a tree of its own, with the default role of `R`
    /// and default attributes
    ///
    /// Does nothing and returns `false` if the surface is managed already.
    pub fn manage(&mut self, surface: SurfaceId) -> (is_new: bool) where R: Default
        requires
            old(self).wf(),
        ensures
            final(self).wf(),
            is_new == !old(self)@.contains_key(surface),
            !is_new ==> final(self)@ == old(self)@,
            is_new ==> {
                let data = final(self)@[surface];
                &&& final(self)@ == old(self)@.insert(surface, data)
                &&& data.parent is None
                &&& data.stack@ == seq![surface]
                &&& call_ensures(R::default, (), data.role)
                &&& data.attributes.untouched()
            },
    {
        if self.surfaces.contains_key(&surface) {
            return false;
        }
        let mut stack: Vec<SurfaceId> = Vec::new();
        stack.push(surface);
        let data = SurfaceData {
            parent: None,
            stack,
            role: R::default(),
            attributes: SurfaceAttributes::default(),
        };
        let ghost before = self@;
        self.surfaces.insert(surface, data);
        proof {
            assert(self@ == before.insert(surface, data));
            lemma_managed(before, surface, data);
        }
        true
    }

    /// Sets the parent of a surface
    ///
    /// Fails if this surface already has a role or a parent, or if the parent is
    /// below it in its tree. Otherwise its role is now to be a subsurface, and it is the nearest of
    /// the children of the parent.
    pub fn set_parent(&mut self, child: &SurfaceId, parent: &SurfaceId) -> (outcome: Result<
        (),
        (),
    >) where R: Role<SubsurfaceRole>
        requires
            old(self).wf(),
            old(self)@.contains_key(*child),
            old(self)@.contains_key(*parent),
        ensures
            final(self).wf(),
            outcome is Ok <==> {
                &&& old(self)@[*child].role == R::no_role()
                &&& old(self)@[*child].parent is None
                &&& !is_below(old(self)@, *parent, *child)
            },
            outcome is Err ==> final(self)@ == old(self)@,
            outcome is Ok ==> {
                let stack = final(self)@[*parent].stack;
                &&& stack@ == old(self)@[*parent].stack@.push(*child)
                &&& final(self)@ == old(self)@.insert(
                    *child,
                    SurfaceData {
                        parent: Some(*parent),
                        role: R::with_data(SubsurfaceRole { location: (0, 0), sync: true }),
                        ..old(self)@[*child]
                    },
                ).insert(*parent, SurfaceData { stack, ..old(self)@[*parent] })
            },
    {
        let data = self.surfaces.get(child).unwrap();
        if data.role.has_role() || data.parent.is_some() || self.is_ancestor(*child, *parent) {
            return Err(());
        }
        let ghost before = self@;
        let mut child_data = self.surfaces.remove(child).unwrap();
        let _ = child_data.role.set_with(SubsurfaceRole::default());
        child_data.parent = Some(*parent);
        self.surfaces.insert(*child, child_data);
        assert(is_below(before, *child, *child));
        let mut parent_data = self.surfaces.remove(parent).unwrap();
        parent_data.stack.push(*child);
        self.surfaces.insert(*parent, parent_data);
        proof {
            assert(self@ == before.insert(*child, child_data).insert(*parent, parent_data));
            lemma_parent_set(before, self@, *child, *parent);
        }
        Ok(())
    }

    /// Checks if the first surface is the second or an ancestor of it
    fn is_ancestor(&self, a: SurfaceId, b: SurfaceId) -> (is: bool)
        requires
            self.wf(),
            self@.contains_key(b),
        ensures
            is == is_below(self@, b, a),
    {
        let mut at: SurfaceId = b;
        while at != a
            invariant
                self.wf(),
                self@.contains_key(at),
                is_below(self@, b, a) == is_below(self@, at, a),
            decreases depth_of(self@, at),
        {
            proof {
                lemma_depth(self@, at);
            }
            match self.surfaces.get(&at).unwrap().parent {
                None => {
                    return false;
                },
                Some(parent) => {
                    at = parent;
                },
            }
        }
        true
    }

    /// Reorders a surface relative to one of its sibling, or to its parent
    ///
    /// Fails if the surface has no parent, or if the other surface is the surface itself or
    /// neither its parent nor a sibling.
    pub fn reorder(
        &mut self,
        surface: &SurfaceId,
        to: Location,
        relative_to: &SurfaceId,
    ) -> (outcome: Result<(), ()>)
        requires
            old(self).wf(),
            old(self)@.contains_key(*surface),
        ensures
            final(self).wf(),
            outcome is Ok <==> {
                &&& old(self)@[*surface].parent is Some
                &&& *relative_to != *surface
                &&& old(self)@[old(self)@[*surface].parent->0].stack@.contains(*relative_to)
            },
            outcome is Err ==> final(self)@ == old(self)@,
            outcome is Ok ==> {
                let parent = old(self)@[*surface].parent->0;
                let stack = final(self)@[parent].stack;
                &&& stack@ == moved_in_stack(
                    old(self)@[parent].stack@,
                    *surface,
                    to,
                    *relative_to,
                )
                &&& final(self)@ == old(self)@.insert(
                    parent,
                    SurfaceData { stack, ..old(self)@[parent] },
                )
            },
    {
        let parent: SurfaceId = match self.surfaces.get(surface).unwrap().parent {
            None => {
                return Err(());
            },
            Some(parent) => parent,
        };
        proof {
            lemma_depth(self@, *surface);
            assert(stack_is_coherent(self@, parent));
            assert(self@[parent].stack@.contains(*surface));
        }
        if *relative_to == *surface {
            return Err(());
        }
        let found = index_in(&self.surfaces.get(&parent).unwrap().stack, *relative_to);
        if found.is_none() {
            return Err(());
        }
        let ghost before = self@;
        let mut data = self.surfaces.remove(&parent).unwrap();
        let ghost stack = data.stack@;
        let own: usize = index_in(&data.stack, *surface).unwrap();
        let me: SurfaceId = data.stack.remove(own);
        assert(stack.index_of(*surface) == own);
        let ghost others = data.stack@;
        proof {
            assert(stack.contains(*relative_to));
            let at = stack.index_of(*relative_to);
            assert(others[if at < own { at } else { at - 1 }] == *relative_to);
            assert(others.no_duplicates());
        }
        let other: usize = index_in(&data.stack, *relative_to).unwrap();
        assert(others.index_of(*relative_to) == other);
        match to {
            Location::Before => data.stack.insert(other, me),
            Location::After => data.stack.insert(other + 1, me),
        }
        self.surfaces.insert(parent, data);
        proof {
            assert(data.stack@ == moved_in_stack(stack, *surface, to, *relative_to));
            assert(self@ == before.insert(parent, data));
            lemma_moved(before, self@, parent, own as int, others, *surface);
        }
        Ok(())
    }

    /// Retrieve the parent surface (if any) of this surface
    pub fn get_parent(&self, surface: &SurfaceId) -> (parent: Option<SurfaceId>)
        requires
            self@.contains_key(*surface),
        ensures
            parent == self@[*surface].parent,
    {
        self.surfaces.get(surface).unwrap().parent
    }

    /// Retrieve the children of this surface, from the farthest to the nearest
    pub fn get_children(&self, surface: &SurfaceId) -> (children: Vec<SurfaceId>)
        requires
            self@.contains_key(*surface),
        ensures
            children@ == self@[*surface].stack@.filter(|entry: SurfaceId| entry != *surface),
    {
        let stack = &self.surfaces.get(surface).unwrap().stack;
        let ghost is_child = |entry: SurfaceId| entry != *surface;
        let mut children: Vec<SurfaceId> = Vec::new();
        let mut i: usize = 0;
        while i < stack.len()
            invariant
                i <= stack.len(),
                is_child == (|entry: SurfaceId| entry != *surface),
                children@ == stack@.take(i as int).filter(is_child),
            decreases stack.len() - i,
        {
            proof {
                assert(stack@.take(i + 1).drop_last() == stack@.take(i as int));
                reveal(Seq::filter);
            }
            if stack[i] != *surface {
                children.push(stack[i]);
            }
            i = i + 1;
        }
        assert(stack@.take(i as int) == stack@);
        children
    }

    /// Access the attributes associated with a surface
    ///
    /// The closure is called with the attributes, and its result is returned.
    pub fn with_data<F, T>(&mut self, surface: &SurfaceId, f: F) -> (result: T) where
        F: FnOnce(&mut SurfaceAttributes) -> T,

        requires
            old(self)@.contains_key(*surface),
            forall|attributes: &mut SurfaceAttributes|
                *attributes == old(self)@[*surface].attributes ==> #[trigger] call_requires(
                    f,
                    (attributes,),
                ),
        ensures
            old(self).wf() ==> final(self).wf(),
            exists|attributes: &mut SurfaceAttributes|
                {
                    &&& *attributes == old(self)@[*surface].attributes
                    &&& #[trigger] call_ensures(f, (attributes,), result)
                    &&& final(self)@ == with_attributes(old(self)@, *surface, *final(attributes))
                },
    {
        let mut data = self.surfaces.remove(surface).unwrap();
        let result = f(&mut data.attributes);
        self.surfaces.insert(*surface, data);
        proof {
            assert(self@ == with_attributes(old(self)@, *surface, data.attributes));
            if old(self).wf() {
                lemma_same_trees(old(self)@, self@);
            }
        }
        result
    }

    /// Checks whether the surface has a role
    pub fn has_a_role(&self, surface: &SurfaceId) -> (has: bool) where R: RoleType
        requires
            self@.contains_key(*surface),
        ensures
            has == (self@[*surface].role != R::no_role()),
    {
        self.surfaces.get(surface).unwrap().role.has_role()
    }

    /// Checks whether the surface has a specific role
    pub fn has_role<RoleData>(&self, surface: &SurfaceId) -> (has: bool) where R: Role<RoleData>
        requires
            self@.contains_key(*surface),
        ensures
            has == (<R as Role<RoleData>>::role_data(self@[*surface].role) is Some),
    {
        <R as Role<RoleData>>::has(&self.surfaces.get(surface).unwrap().role)
    }

    /// Registers that this surface has a role, with given data
    ///
    /// Fails if it already has one and returns the data.
    pub fn give_role_with<RoleData>(
        &mut self,
        surface: &SurfaceId,
        data: RoleData,
    ) -> (outcome: Result<(), RoleData>) where R: Role<RoleData>
        requires
            old(self)@.contains_key(*surface),
        ensures
            old(self).wf() ==> final(self).wf(),
            old(self)@[*surface].role == R::no_role() ==> {
                &&& outcome == Ok::<(), RoleData>(())
                &&& final(self)@ == with_role(old(self)@, *surface, R::with_data(data))
            },
            old(self)@[*surface].role != R::no_role() ==> {
                &&& outcome == Err::<(), RoleData>(data)
                &&& final(self)@ == old(self)@
            },
    {
        let mut surface_data = self.surfaces.remove(surface).unwrap();
        let outcome = <R as Role<RoleData>>::set_with(&mut surface_data.role, data);
        self.surfaces.insert(*surface, surface_data);
        proof {
            assert(self@ == with_role(old(self)@, *surface, surface_data.role));
            if old(self)@[*surface].role != R::no_role() {
                assert(self@ == old(self)@);
            }
            if old(self).wf() {
                lemma_same_trees(old(self)@, self@);
            }
        }
        outcome
    }

    /// Registers that this surface has a role, with default data
    ///
    /// Fails if it already has one.
    pub fn give_role<RoleData>(&mut self, surface: &SurfaceId) -> (outcome: Result<(), ()>) where
        R: Role<RoleData>,
        RoleData: Default,

        requires
            old(self)@.contains_key(*surface),
        ensures
            old(self).wf() ==> final(self).wf(),
            old(self)@[*surface].role == R::no_role() ==> {
                &&& outcome == Ok::<(), ()>(())
                &&& exists|data: RoleData|
                    {
                        &&& #[trigger] call_ensures(RoleData::default, (), data)
                        &&& final(self)@ == with_role(old(self)@, *surface, R::with_data(data))
                    }
            },
            old(self)@[*surface].role != R::no_role() ==> {
                &&& outcome == Err::<(), ()>(())
                &&& final(self)@ == old(self)@
            },
    {
        match self.give_role_with(surface, RoleData::default()) {
            Ok(()) => Ok(()),
            Err(_) => Err(()),
        }
    }

    /// Accesses the role data of the surface
    ///
    /// Fails and doesn't call the closure if the surface doesn't have this role.
    pub fn with_role_data<RoleData, F, T>(&mut self, surface: &SurfaceId, f: F) -> (outcome: Result<
        T,
        WrongRole,
    >) where R: Role<RoleData>, F: FnOnce(&mut RoleData) -> T
        requires
            old(self)@.contains_key(*surface),
            forall|data: &mut RoleData|
                <R as Role<RoleData>>::role_data(old(self)@[*surface].role) == Some(*data)
                    ==> #[trigger] call_requires(f, (data,)),
        ensures
            old(self).wf() ==> final(self).wf(),
            match <R as Role<RoleData>>::role_data(old(self)@[*surface].role) {
                Some(before) => {
                    &&& outcome is Ok
                    &&& exists|data: &mut RoleData|
                        {
                            &&& *data == before
                            &&& #[trigger] call_ensures(f, (data,), outcome->Ok_0)
                            &&& final(self)@ == with_role(
                                old(self)@,
                                *surface,
                                R::with_data(*final(data)),
                            )
                        }
                },
                None => {
                    &&& outcome == Err::<T, WrongRole>(WrongRole)
                    &&& final(self)@ == old(self)@
                },
            },
    {
        let mut surface_data = self.surfaces.remove(surface).unwrap();
        let outcome = match <R as Role<RoleData>>::data_mut(&mut surface_data.role) {
            Ok(data) => {
                let ghost before = *data;
                let result = f(data);
                assert(exists|accessed: &mut RoleData|
                    {
                        &&& *accessed == before
                        &&& #[trigger] call_ensures(f, (accessed,), result)
                        &&& *final(accessed) == *data
                    });
                Ok(result)
            },
            Err(error) => Err(error),
        };
        self.surfaces.insert(*surface, surface_data);
        proof {
            assert(self@ == with_role(old(self)@, *surface, surface_data.role));
            if outcome is Err {
                assert(self@ == old(self)@);
            } else {
                let result = outcome->Ok_0;
                assert(outcome == Ok::<T, WrongRole>(result));
            }
            if old(self).wf() {
                lemma_same_trees(old(self)@, self@);
            }
        }
        outcome
    }

    /// Registers that this surface does not have a role any longer and retrieves the data
    ///
    /// Fails if the surface didn't already have this role.
    pub fn remove_role<RoleData>(&mut self, surface: &SurfaceId) -> (outcome: Result<
        RoleData,
        WrongRole,
    >) where R: Role<RoleData>
        requires
            old(self)@.contains_key(*surface),
        ensures
            old(self).wf() ==> final(self).wf(),
            match <R as Role<RoleData>>::role_data(old(self)@[*surface].role) {
                Some(data) => {
                    &&& outcome == Ok::<RoleData, WrongRole>(data)
                    &&& final(self)@ == with_role(old(self)@, *surface, R::no_role())
                },
                None => {
                    &&& outcome == Err::<RoleData, WrongRole>(WrongRole)
                    &&& final(self)@ == old(self)@
                },
            },
    {
        let mut surface_data = self.surfaces.remove(surface).unwrap();
        let outcome = <R as Role<RoleData>>::unset(&mut surface_data.role);
        self.surfaces.insert(*surface, surface_data);
        proof {
            assert(self@ == with_role(old(self)@, *surface, surface_data.role));
            if outcome is Err {
                assert(self@ == old(self)@);
            }
            if old(self).wf() {
                lemma_same_trees(old(self)@, self@);
            }
        }
        outcome
    }

    /// Calls the filter for a surface
    fn call_filter<T, F1, F2, F3>(
        &mut self,
        surface: SurfaceId,
        value: &T,
        filter: &mut F1,
        Ghost(processor): Ghost<F2>,
        Ghost(post_filter): Ghost<F3>,
    ) -> (answer: (TraversalAction<T>, Ghost<Visit<R, T>>)) where
        F1: FnMut(&SurfaceId, &mut SurfaceAttributes, &mut R, &T) -> TraversalAction<T>,
        F2: FnMut(&SurfaceId, &mut SurfaceAttributes, &mut R, &T),
        F3: FnMut(&SurfaceId, &mut SurfaceAttributes, &mut R, &T) -> bool,

        requires
            old(self)@.contains_key(surface),
            forall|s: &SurfaceId, a: &mut SurfaceAttributes, r: &mut R, t: &T|
                old(self)@.contains_key(*s) ==> #[trigger] call_requires(*old(filter), (s, a, r, t)),
        ensures
            *final(filter) == *old(filter),
            same_trees(old(self)@, final(self)@),
            answer.1@.is_for(surface, *value),
            answer.1@.call == Call::Filter(answer.0),
            exists|attributes: &mut SurfaceAttributes, role: &mut R|
                {
                    &&& *attributes == answer.1@.attributes.0
                    &&& *final(attributes) == answer.1@.attributes.1
                    &&& *role == answer.1@.role.0
                    &&& *final(role) == answer.1@.role.1
                    &&& #[trigger] is_call(
                        *old(filter),
                        processor,
                        post_filter,
                        answer.1@,
                        attributes,
                        role,
                    )
                },
            lead_to(old(self)@, seq![answer.1@], final(self)@),
    {
        let mut data = self.surfaces.remove(&surface).unwrap();
        let ghost before = data;
        let answer = filter(&surface, &mut data.attributes, &mut data.role, value);
        self.surfaces.insert(surface, data);
        let ghost visit = Visit {
            surface,
            value: *value,
            attributes: (before.attributes, data.attributes),
            role: (before.role, data.role),
            call: Call::Filter(answer),
        };
        proof {
            let (attributes, role) = choose|attributes: &mut SurfaceAttributes, role: &mut R|
                {
                    &&& *attributes == visit.attributes.0
                    &&& *final(attributes) == visit.attributes.1
                    &&& *role == visit.role.0
                    &&& *final(role) == visit.role.1
                    &&& #[trigger] call_ensures(
                        *old(filter),
                        (&surface, attributes, role, value),
                        answer,
                    )
                };
            assert(is_call(*old(filter), processor, post_filter, visit, attributes, role));
            assert(self@ == old(self)@.insert(surface, data));
            reveal_with_fuel(lead_to, 2);
            assert(seq![visit].drop_first() == Seq::<Visit<R, T>>::empty());
        }
        (answer, Ghost(visit))
    }

    /// Calls the processor for a surface
    fn call_processor<T, F1, F2, F3>(
        &mut self,
        surface: SurfaceId,
        value: &T,
        Ghost(filter): Ghost<F1>,
        processor: &mut F2,
        Ghost(post_filter): Ghost<F3>,
    ) -> (visit: Ghost<Visit<R, T>>) where
        F1: FnMut(&SurfaceId, &mut SurfaceAttributes, &mut R, &T) -> TraversalAction<T>,
        F2: FnMut(&SurfaceId, &mut SurfaceAttributes, &mut R, &T),
        F3: FnMut(&SurfaceId, &mut SurfaceAttributes, &mut R, &T) -> bool,

        requires
            old(self)@.contains_key(surface),
            forall|s: &SurfaceId, a: &mut SurfaceAttributes, r: &mut R, t: &T|
                old(self)@.contains_key(*s) ==> #[trigger] call_requires(*old(processor), (s, a, r, t)),
        ensures
            *final(processor) == *old(processor),
            same_trees(old(self)@, final(self)@),
            visit@.is_for(surface, *value),
            visit@.call == Call::<T>::Process,
            exists|attributes: &mut SurfaceAttributes, role: &mut R|
                {
                    &&& *attributes == visit@.attributes.0
                    &&& *final(attributes) == visit@.attributes.1
                    &&& *role == visit@.role.0
                    &&& *final(role) == visit@.role.1
                    &&& #[trigger] is_call(
                        filter,
                        *old(processor),
                        post_filter,
                        visit@,
                        attributes,
                        role,
                    )
                },
            lead_to(old(self)@, seq![visit@], final(self)@),
    {
        let mut data = self.surfaces.remove(&surface).unwrap();
        let ghost before = data;
        processor(&surface, &mut data.attributes, &mut data.role, value);
        self.surfaces.insert(surface, data);
        let ghost visit = Visit {
            surface,
            value: *value,
            attributes: (before.attributes, data.attributes),
            role: (before.role, data.role),
            call: Call::Process,
        };
        proof {
            let (attributes, role) = choose|attributes: &mut SurfaceAttributes, role: &mut R|
                {
                    &&& *attributes == visit.attributes.0
                    &&& *final(attributes) == visit.attributes.1
                    &&& *role == visit.role.0
                    &&& *final(role) == visit.role.1
                    &&& #[trigger] call_ensures(
                        *old(processor),
                        (&surface, attributes, role, value),
                        (),
                    )
                };
            assert(is_call(filter, *old(processor), post_filter, visit, attributes, role));
            assert(self@ == old(self)@.insert(surface, data));
            reveal_with_fuel(lead_to, 2);
            assert(seq![visit].drop_first() == Seq::<Visit<R, T>>::empty());
        }
        Ghost(visit)
    }

    /// Calls the post filter for a surface
    fn call_post_filter<T, F1, F2, F3>(
        &mut self,
        surface: SurfaceId,
        value: &T,
        Ghost(filter): Ghost<F1>,
        Ghost(processor): Ghost<F2>,
        post_filter: &mut F3,
    ) -> (answer: (bool, Ghost<Visit<R, T>>)) where
        F1: FnMut(&SurfaceId, &mut SurfaceAttributes, &mut R, &T) -> TraversalAction<T>,
        F2: FnMut(&SurfaceId, &mut SurfaceAttributes, &mut R, &T),
        F3: FnMut(&SurfaceId, &mut SurfaceAttributes, &mut R, &T) -> bool,

        requires
            old(self)@.contains_key(surface),
            forall|s: &SurfaceId, a: &mut SurfaceAttributes, r: &mut R, t: &T|
                old(self)@.contains_key(*s) ==> #[trigger] call_requires(*old(post_filter), (s, a, r, t)),
        ensures
            *final(post_filter) == *old(post_filter),
            same_trees(old(self)@, final(self)@),
            answer.1@.is_for(surface, *value),
            answer.1@.call == Call::<T>::PostFilter(answer.0),
            exists|attributes: &mut SurfaceAttributes, role: &mut R|
                {
                    &&& *attributes == answer.1@.attributes.0
                    &&& *final(attributes) == answer.1@.attributes.1
                    &&& *role == answer.1@.role.0
                    &&& *final(role) == answer.1@.role.1
                    &&& #[trigger] is_call(
                        filter,
                        processor,
                        *old(post_filter),
                        answer.1@,
                        attributes,
                        role,
                    )
                },
            lead_to(old(self)@, seq![answer.1@], final(self)@),
    {
        let mut data = self.surfaces.remove(&surface).unwrap();
        let ghost before = data;
        let answer = post_filter(&surface, &mut data.attributes, &mut data.role, value);
        self.surfaces.insert(surface, data);
        let ghost visit = Visit {
            surface,
            value: *value,
            attributes: (before.attributes, data.attributes),
            role: (before.role, data.role),
            call: Call::PostFilter(answer),
        };
        proof {
            let (attributes, role) = choose|attributes: &mut SurfaceAttributes, role: &mut R|
                {
                    &&& *attributes == visit.attributes.0
                    &&& *final(attributes) == visit.attributes.1
                    &&& *role == visit.role.0
                    &&& *final(role) == visit.role.1
                    &&& #[trigger] call_ensures(
                        *old(post_filter),
                        (&surface, attributes, role, value),
                        answer,
                    )
                };
            assert(is_call(filter, processor, *old(post_filter), visit, attributes, role));
            assert(self@ == old(self)@.insert(surface, data));
            reveal_with_fuel(lead_to, 2);
            assert(seq![visit].drop_first() == Seq::<Visit<R, T>>::empty());
        }
        (answer, Ghost(visit))
    }

    /// Traverses the subtree of a surface, and says whether the traversal goes on after it
    fn walk<T, F1, F2, F3>(
        &mut self,
        surface: SurfaceId,
        value: &T,
        filter: &mut F1,
        processor: &mut F2,
        post_filter: &mut F3,
        reverse: bool,
        Ghost(trees): Ghost<Map<SurfaceId, SurfaceData<R>>>,
    ) -> (outcome: (bool, Ghost<Walk<R, T>>)) where
        F1: FnMut(&SurfaceId, &mut SurfaceAttributes, &mut R, &T) -> TraversalAction<T>,
        F2: FnMut(&SurfaceId, &mut SurfaceAttributes, &mut R, &T),
        F3: FnMut(&SurfaceId, &mut SurfaceAttributes, &mut R, &T) -> bool,

        requires
            are_trees(trees),
            same_trees(trees, old(self)@),
            trees.contains_key(surface),
            forall|s: &SurfaceId, a: &mut SurfaceAttributes, r: &mut R, t: &T|
                trees.contains_key(*s) ==> #[trigger] call_requires(*old(filter), (s, a, r, t)),
            forall|s: &SurfaceId, a: &mut SurfaceAttributes, r: &mut R, t: &T|
                trees.contains_key(*s) ==> #[trigger] call_requires(*old(processor), (s, a, r, t)),
            forall|s: &SurfaceId, a: &mut SurfaceAttributes, r: &mut R, t: &T|
                trees.contains_key(*s) ==> #[trigger] call_requires(*old(post_filter), (s, a, r, t)),
        ensures
            *final(filter) == *old(filter),
            *final(processor) == *old(processor),
            *final(post_filter) == *old(post_filter),
            same_trees(trees, final(self)@),
            is_walk(trees, surface, *value, reverse, outcome.1@),
            outcome.0 == outcome.1@.goes_on(),
            lead_to(old(self)@, outcome.1@.calls(), final(self)@),
            forall|visit: Visit<R, T>| #[trigger]
                outcome.1@.calls().contains(visit) ==> exists|attributes: &mut SurfaceAttributes, role: &mut R|
                    {
                        &&& *attributes == visit.attributes.0
                        &&& *final(attributes) == visit.attributes.1
                        &&& *role == visit.role.0
                        &&& *final(role) == visit.role.1
                        &&& #[trigger] is_call(
                            *old(filter),
                            *old(processor),
                            *old(post_filter),
                            visit,
                            attributes,
                            role,
                        )
                    },
        decreases height_of(trees) - depth_of(trees, surface),
    {
        let (action, filtered) = self.call_filter::<T, F1, F2, F3>(
            surface,
            value,
            filter,
            Ghost(*processor),
            Ghost(*post_filter),
        );
        match action {
            TraversalAction::Break => { (false, Ghost(Walk::Stop { filter: filtered@ })) },
            TraversalAction::SkipChildren => {
                let ghost between = self@;
                let processed = self.call_processor::<T, F1, F2, F3>(
                    surface,
                    value,
                    Ghost(*filter),
                    processor,
                    Ghost(*post_filter),
                );
                let ghost walk = Walk::Alone { filter: filtered@, process: processed@ };
                proof {
                    lemma_lead_to_concat(
                        old(self)@,
                        seq![filtered@],
                        between,
                        seq![processed@],
                        self@,
                    );
                    lemma_calls_concat(
                        *filter,
                        *processor,
                        *post_filter,
                        seq![filtered@],
                        seq![processed@],
                    );
                    assert(walk.calls() == seq![filtered@] + seq![processed@]);
                }
                (true, Ghost(walk))
            },
            TraversalAction::DoChildren(inner) => {
                let ghost order = stack_in_order(trees, surface, reverse);
                let ghost mut steps: Seq<Step<R, T>> = Seq::empty();
                let ghost mut calls = seq![filtered@];
                let count: usize = self.surfaces.get(&surface).unwrap().stack.len();
                let mut next: usize = 0;
                assert(calls_of_steps(steps) == Seq::<Visit<R, T>>::empty());
                while next < count
                    invariant
                        next <= count,
                        count == order.len(),
                        order == stack_in_order(trees, surface, reverse),
                        are_trees(trees),
                        same_trees(trees, self@),
                        trees.contains_key(surface),
                        *filter == *old(filter),
                        *processor == *old(processor),
                        *post_filter == *old(post_filter),
                        forall|s: &SurfaceId, a: &mut SurfaceAttributes, r: &mut R, t: &T|
                            trees.contains_key(*s) ==> #[trigger] call_requires(
                                *filter,
                                (s, a, r, t),
                            ),
                        forall|s: &SurfaceId, a: &mut SurfaceAttributes, r: &mut R, t: &T|
                            trees.contains_key(*s) ==> #[trigger] call_requires(
                                *processor,
                                (s, a, r, t),
                            ),
                        forall|s: &SurfaceId, a: &mut SurfaceAttributes, r: &mut R, t: &T|
                            trees.contains_key(*s) ==> #[trigger] call_requires(
                                *post_filter,
                                (s, a, r, t),
                            ),
                        filtered@.is_for(surface, *value),
                        filtered@.call == Call::Filter(TraversalAction::DoChildren(inner)),
                        steps.len() == next,
                        forall|i: int|
                            0 <= i < steps.len() ==> match #[trigger] steps[i] {
                                Step::Own(process) => {
                                    &&& order[i] == surface
                                    &&& process.is_for(surface, *value)
                                    &&& process.call == Call::<T>::Process
                                },
                                Step::Child(child) => {
                                    &&& order[i] != surface
                                    &&& is_walk(trees, order[i], inner, reverse, child)
                                },
                            },
                        forall|i: int| 0 <= i < steps.len() ==> (#[trigger] steps[i]).goes_on(),
                        calls == seq![filtered@] + calls_of_steps(steps),
                        lead_to(old(self)@, calls, self@),
                        forall|visit: Visit<R, T>| #[trigger]
                            calls.contains(visit) ==> exists|attributes: &mut SurfaceAttributes, role: &mut R|
                                {
                                    &&& *attributes == visit.attributes.0
                                    &&& *final(attributes) == visit.attributes.1
                                    &&& *role == visit.role.0
                                    &&& *final(role) == visit.role.1
                                    &&& #[trigger] is_call(
                                        *filter,
                                        *processor,
                                        *post_filter,
                                        visit,
                                        attributes,
                                        role,
                                    )
                                },
                    decreases count - next,
                {
                    let at: usize = if reverse {
                        count - 1 - next
                    } else {
                        next
                    };
                    let ghost before = self@;
                    let ghost steps_before = steps;
                    let ghost calls_before = calls;
                    let entry: SurfaceId = self.surfaces.get(&surface).unwrap().stack[at];
                    proof {
                        lemma_entry_of_stack(trees, surface, reverse, next as int);
                        assert(entry == order[next as int]);
                    }
                    if entry == surface {
                        let processed = self.call_processor::<T, F1, F2, F3>(
                            surface,
                            value,
                            Ghost(*filter),
                            processor,
                            Ghost(*post_filter),
                        );
                        proof {
                            let step = Step::Own(processed@);
                            steps = steps.push(step);
                            calls = calls + step.calls();
                            assert(steps.drop_last() == steps_before);
                            lemma_lead_to_concat(
                                old(self)@,
                                calls_before,
                                before,
                                step.calls(),
                                self@,
                            );
                            lemma_calls_concat(
                                *filter,
                                *processor,
                                *post_filter,
                                calls_before,
                                step.calls(),
                            );
                        }
                    } else {
                        proof {
                            lemma_depth(trees, entry);
                        }
                        let (go_on, walked) = self.walk(
                            entry,
                            &inner,
                            filter,
                            processor,
                            post_filter,
                            reverse,
                            Ghost(trees),
                        );
                        proof {
                            let step = Step::Child(walked@);
                            steps = steps.push(step);
                            calls = calls + step.calls();
                            assert(steps.drop_last() == steps_before);
                            lemma_lead_to_concat(
                                old(self)@,
                                calls_before,
                                before,
                                step.calls(),
                                self@,
                            );
                            lemma_calls_concat(
                                *filter,
                                *processor,
                                *post_filter,
                                calls_before,
                                step.calls(),
                            );
                        }
                        if !go_on {
                            let ghost walk = Walk::Subtree {
                                filter: filtered@,
                                steps,
                                post_filter: None,
                            };
                            assert(walk.calls() == calls);
                            return (false, Ghost(walk));
                        }
                    }
                    next = next + 1;
                }
                let ghost between = self@;
                let (go_on, post_filtered) = self.call_post_filter::<T, F1, F2, F3>(
                    surface,
                    value,
                    Ghost(*filter),
                    Ghost(*processor),
                    post_filter,
                );
                let ghost walk = Walk::Subtree {
                    filter: filtered@,
                    steps,
                    post_filter: Some(post_filtered@),
                };
                proof {
                    lemma_lead_to_concat(
                        old(self)@,
                        calls,
                        between,
                        seq![post_filtered@],
                        self@,
                    );
                    lemma_calls_concat(
                        *filter,
                        *processor,
                        *post_filter,
                        calls,
                        seq![post_filtered@],
                    );
                    assert(walk.calls() == calls + seq![post_filtered@]);
                }
                (go_on, Ghost(walk))
            },
        }
    }

    /// Access sequentially the attributes associated with a surface tree
    ///
    /// The first closure is initially called on a surface to determine if its children
    /// should be processed as well. The second one does the actual processing, and the third
    /// one is called once all the subtree of a surface has been processed. With `reverse` the
    /// traversal goes from the nearest of the screen to the farthest.
    pub fn map_tree<F1, F2, F3, T>(
        &mut self,
        surface: &SurfaceId,
        initial: &T,
        filter: F1,
        processor: F2,
        post_filter: F3,
        reverse: bool,
    ) where
        F1: FnMut(&SurfaceId, &mut SurfaceAttributes, &mut R, &T) -> TraversalAction<T>,
        F2: FnMut(&SurfaceId, &mut SurfaceAttributes, &mut R, &T),
        F3: FnMut(&SurfaceId, &mut SurfaceAttributes, &mut R, &T) -> bool,

        requires
            old(self).wf(),
            old(self)@.contains_key(*surface),
            forall|s: &SurfaceId, a: &mut SurfaceAttributes, r: &mut R, t: &T|
                old(self)@.contains_key(*s) ==> #[trigger] call_requires(filter, (s, a, r, t)),
            forall|s: &SurfaceId, a: &mut SurfaceAttributes, r: &mut R, t: &T|
                old(self)@.contains_key(*s) ==> #[trigger] call_requires(processor, (s, a, r, t)),
            forall|s: &SurfaceId, a: &mut SurfaceAttributes, r: &mut R, t: &T|
                old(self)@.contains_key(*s) ==> #[trigger] call_requires(post_filter, (s, a, r, t)),
        ensures
            final(self).wf(),
            same_trees(old(self)@, final(self)@),
            exists|walk: Walk<R, T>|
                {
                    &&& #[trigger] is_walk(old(self)@, *surface, *initial, reverse, walk)
                    &&& lead_to(old(self)@, walk.calls(), final(self)@)
                    &&& forall|visit: Visit<R, T>| #[trigger]
                        walk.calls().contains(visit) ==> exists|
                            attributes: &mut SurfaceAttributes,
                            role: &mut R,
                        |
                            {
                                &&& *attributes == visit.attributes.0
                                &&& *final(attributes) == visit.attributes.1
                                &&& *role == visit.role.0
                                &&& *final(role) == visit.role.1
                                &&& #[trigger] is_call(
                                    filter,
                                    processor,
                                    post_filter,
                                    visit,
                                    attributes,
                                    role,
                                )
                            }
                },
    {
        let mut filter = filter;
        let mut processor = processor;
        let mut post_filter = post_filter;
        let ghost trees = self@;
        let (_, walk) = self.walk(
            *surface,
            initial,
            &mut filter,
            &mut processor,
            &mut post_filter,
            reverse,
            Ghost(trees),
        );
        proof {
            lemma_same_trees(trees, self@);
            assert(is_walk(trees, *surface, *initial, reverse, walk@));
        }
    }
}

/// A new surface without parent and children is a tree of its own
proof fn lemma_managed<R>(
    before: Map<SurfaceId, SurfaceData<R>>,
    surface: SurfaceId,
    data: SurfaceData<R>,
)
    requires
        are_trees(before),
        !before.contains_key(surface),
        data.parent is None,
        data.stack@ == seq![surface],
    ensures
        are_trees(before.insert(surface, data)),
{
    let after = before.insert(surface, data);
    let height = height_of(before);
    assert(no_deeper_than(before, height));
    assert forall|other: SurfaceId| #[trigger] after.contains_key(other) implies exists|
        depth: nat,
    | depth <= height && #[trigger] at_depth(after, other, depth) by {
        if other == surface {
            assert(at_depth(after, surface, 0));
        } else {
            assert(before.contains_key(other));
            lemma_depth(before, other);
            let depth = depth_of(before, other);
            lemma_depth_kept(before, after, other, depth);
        }
    }
    assert(no_deeper_than(after, height));
    assert forall|other: SurfaceId| #[trigger] after.contains_key(other) implies stack_is_coherent(
        after,
        other,
    ) by {
        let stack = after[other].stack@;
        if other == surface {
            assert(stack == seq![surface]);
            assert(stack[0] == surface);
            assert forall|entry: SurfaceId| #[trigger] stack.contains(entry) <==> entry == other || (
            after.contains_key(entry) && after[entry].parent == Some(other)) by {
                if after.contains_key(entry) && after[entry].parent == Some(other) {
                    lemma_depth(before, entry);
                }
            }
        } else {
            assert(stack_is_coherent(before, other));
            assert forall|entry: SurfaceId| #[trigger] stack.contains(entry) <==> entry == other || (
            after.contains_key(entry) && after[entry].parent == Some(other)) by {
                assert(before[other].stack@.contains(entry) <==> entry == other || (
                before.contains_key(entry) && before[entry].parent == Some(other)));
            }
        }
    }
}

/// Depths stay where the surfaces on the way to the root keep their parents
proof fn lemma_depth_kept<R>(
    before: Map<SurfaceId, SurfaceData<R>>,
    after: Map<SurfaceId, SurfaceData<R>>,
    surface: SurfaceId,
    depth: nat,
)
    requires
        at_depth(before, surface, depth),
        forall|other: SurfaceId| #[trigger]
            before.contains_key(other) ==> after.contains_key(other) && after[other].parent
                == before[other].parent,
    ensures
        at_depth(after, surface, depth),
    decreases depth,
{
    if let Some(parent) = before[surface].parent {
        lemma_depth_kept(before, after, parent, (depth - 1) as nat);
    }
}

/// When a root becomes a child, what is below it gets deeper by as much as the root does, and
/// everything else stays at its depth
proof fn lemma_depth_with_parent<R>(
    before: Map<SurfaceId, SurfaceData<R>>,
    after: Map<SurfaceId, SurfaceData<R>>,
    child: SurfaceId,
    parent: SurfaceId,
    surface: SurfaceId,
)
    requires
        are_trees(before),
        before.contains_key(child),
        before.contains_key(parent),
        before[child].parent is None,
        !is_below(before, parent, child),
        after.dom() == before.dom(),
        after[child].parent == Some(parent),
        forall|other: SurfaceId| #[trigger]
            before.contains_key(other) && other != child ==> after[other].parent
                == before[other].parent,
        before.contains_key(surface),
    ensures
        at_depth(
            after,
            surface,
            if is_below(before, surface, child) {
                depth_of(before, surface) + depth_of(before, parent) + 1
            } else {
                depth_of(before, surface)
            },
        ),
    decreases
        (if is_below(before, surface, child) {
            1nat
        } else {
            0nat
        }),
        depth_of(before, surface),
{
    lemma_depth(before, surface);
    assert(after.dom().contains(surface));
    if surface == child {
        lemma_depth_with_parent(before, after, child, parent, parent);
    } else if let Some(above) = before[surface].parent {
        lemma_depth_with_parent(before, after, child, parent, above);
    }
}

/// Making a root the nearest child of a surface outside its tree keeps trees
proof fn lemma_parent_set<R>(
    before: Map<SurfaceId, SurfaceData<R>>,
    after: Map<SurfaceId, SurfaceData<R>>,
    child: SurfaceId,
    parent: SurfaceId,
)
    requires
        are_trees(before),
        before.contains_key(child),
        before.contains_key(parent),
        before[child].parent is None,
        !is_below(before, parent, child),
        child != parent,
        after.dom() == before.dom(),
        after[child].parent == Some(parent),
        after[child].stack == before[child].stack,
        after[parent].parent == before[parent].parent,
        after[parent].stack@ == before[parent].stack@.push(child),
        forall|other: SurfaceId| #[trigger]
            before.contains_key(other) && other != child && other != parent ==> after[other]
                == before[other],
    ensures
        are_trees(after),
{
    let height = height_of(before);
    assert forall|other: SurfaceId| #[trigger] after.contains_key(other) implies exists|
        depth: nat,
    | depth <= 2 * height + 1 && #[trigger] at_depth(after, other, depth) by {
        assert(before.dom().contains(other));
        lemma_depth(before, other);
        lemma_depth(before, parent);
        lemma_depth_with_parent(before, after, child, parent, other);
    }
    assert(no_deeper_than(after, 2 * height + 1));
    assert forall|other: SurfaceId| #[trigger] after.contains_key(other) implies stack_is_coherent(
        after,
        other,
    ) by {
        assert(before.dom().contains(other));
        assert(stack_is_coherent(before, other));
        let stack = after[other].stack@;
        let old_stack = before[other].stack@;
        assert(!before[parent].stack@.contains(child)) by {
            assert(stack_is_coherent(before, parent));
        }
        assert forall|entry: SurfaceId| #[trigger] stack.contains(entry) <==> entry == other || (
        after.contains_key(entry) && after[entry].parent == Some(other)) by {
            assert(before.dom().contains(entry) == after.dom().contains(entry));
            assert(old_stack.contains(entry) <==> entry == other || (before.contains_key(entry)
                && before[entry].parent == Some(other)));
            if other == parent {
                if old_stack.contains(entry) {
                    let i = choose|i: int| 0 <= i < old_stack.len() && old_stack[i] == entry;
                    assert(stack[i] == entry);
                }
                assert(stack[stack.len() - 1] == child);
                if stack.contains(entry) && entry != child {
                    let i = choose|i: int| 0 <= i < stack.len() && stack[i] == entry;
                    assert(old_stack[i] == entry);
                }
            }
        }
        if other == parent {
            assert forall|i: int, j: int| 0 <= i < j < stack.len() implies stack[i] != stack[j] by {
                if j == stack.len() - 1 {
                    assert(old_stack.contains(old_stack[i]));
                }
            }
        }
    }
}

/// Moving a surface in the stack of its parent keeps trees
proof fn lemma_moved<R>(
    before: Map<SurfaceId, SurfaceData<R>>,
    after: Map<SurfaceId, SurfaceData<R>>,
    parent: SurfaceId,
    from: int,
    others: Seq<SurfaceId>,
    surface: SurfaceId,
)
    requires
        are_trees(before),
        before.contains_key(parent),
        0 <= from < before[parent].stack@.len(),
        before[parent].stack@[from] == surface,
        others == before[parent].stack@.remove(from),
        exists|to: int|
            0 <= to <= others.len() && after[parent].stack@ == #[trigger] others.insert(to, surface),
        after == before.insert(
            parent,
            SurfaceData { stack: after[parent].stack, ..before[parent] },
        ),
    ensures
        are_trees(after),
{
    let to = choose|to: int|
        0 <= to <= others.len() && after[parent].stack@ == #[trigger] others.insert(to, surface);
    let height = height_of(before);
    assert(no_deeper_than(before, height));
    assert forall|other: SurfaceId| #[trigger] after.contains_key(other) implies exists|
        depth: nat,
    | depth <= height && #[trigger] at_depth(after, other, depth) by {
        assert(before.contains_key(other));
        lemma_depth(before, other);
        lemma_depth_kept(before, after, other, depth_of(before, other));
    }
    assert(no_deeper_than(after, height));
    assert forall|other: SurfaceId| #[trigger] after.contains_key(other) implies stack_is_coherent(
        after,
        other,
    ) by {
        assert(before.contains_key(other));
        assert(stack_is_coherent(before, other));
        let stack = after[other].stack@;
        let old_stack = before[other].stack@;
        if other == parent {
            assert forall|i: int| 0 <= i < others.len() implies (#[trigger] others[i]) != surface by {
                assert(others[i] == old_stack[if i < from { i } else { i + 1 }]);
            }
            assert(others.no_duplicates());
            assert(stack.no_duplicates());
        }
        assert forall|entry: SurfaceId| #[trigger] stack.contains(entry) <==> entry == other || (
        after.contains_key(entry) && after[entry].parent == Some(other)) by {
            assert(old_stack.contains(entry) <==> entry == other || (before.contains_key(entry)
                && before[entry].parent == Some(other)));
            if other == parent {
                assert(stack[to] == surface);
                if old_stack.contains(entry) && entry != surface {
                    let i = choose|i: int| 0 <= i < old_stack.len() && old_stack[i] == entry;
                    let j = if i < from { i } else { i - 1 };
                    assert(others[j] == entry);
                    assert(stack[if j < to { j } else { j + 1 }] == entry);
                }
                if stack.contains(entry) && entry != surface {
                    let i = choose|i: int| 0 <= i < stack.len() && stack[i] == entry;
                    let j = if i < to { i } else { i - 1 };
                    assert(others[j] == entry);
                    assert(old_stack[if j < from { j } else { j + 1 }] == entry);
                }
            }
        }
    }
}

/// Replacing the role of a surface changes nothing but that role.
pub proof fn law_only_the_role_is_replaced<R>(
    surfaces: Map<SurfaceId, SurfaceData<R>>,
    surface: SurfaceId,
    role: R,
    other: SurfaceId,
)
    requires
        surfaces.contains_key(surface),
    ensures
        with_role(surfaces, surface, role)[surface].role == role,
        with_role(surfaces, surface, role)[surface].attributes == surfaces[surface].attributes,
        with_role(surfaces, surface, role)[surface].parent == surfaces[surface].parent,
        with_role(surfaces, surface, role)[surface].stack == surfaces[surface].stack,
        with_role(surfaces, surface, role).dom() == surfaces.dom(),
        other != surface && surfaces.contains_key(other) ==> with_role(
            surfaces,
            surface,
            role,
        )[other] == surfaces[other],
{
}

/// Replacing the attributes of a surface changes nothing but those attributes.
pub proof fn law_only_the_attributes_are_replaced<R>(
    surfaces: Map<SurfaceId, SurfaceData<R>>,
    surface: SurfaceId,
    attributes: SurfaceAttributes,
    other: SurfaceId,
)
    requires
        surfaces.contains_key(surface),
    ensures
        with_attributes(surfaces, surface, attributes)[surface].attributes == attributes,
        with_attributes(surfaces, surface, attributes)[surface].role == surfaces[surface].role,
        with_attributes(surfaces, surface, attributes)[surface].parent == surfaces[surface].parent,
        with_attributes(surfaces, surface, attributes)[surface].stack == surfaces[surface].stack,
        with_attributes(surfaces, surface, attributes).dom() == surfaces.dom(),
        other != surface && surfaces.contains_key(other) ==> with_attributes(
            surfaces,
            surface,
            attributes,
        )[other] == surfaces[other],
{
}

/// A surface that is moved in a stack ends up next to the other surface, on the side that was asked
/// for, and the other surfaces of the stack keep their order.
pub proof fn law_moved_next_to_the_other(
    stack: Seq<SurfaceId>,
    surface: SurfaceId,
    relative_to: SurfaceId,
    from: int,
)
    requires
        stack.no_duplicates(),
        0 <= from < stack.len(),
        stack[from] == surface,
        stack.contains(relative_to),
        relative_to != surface,
    ensures
        ({
            let moved = moved_in_stack(stack, surface, Location::Before, relative_to);
            exists|at: int|
                {
                    &&& 0 <= at < moved.len() - 1
                    &&& #[trigger] moved[at] == surface
                    &&& moved[at + 1] == relative_to
                    &&& moved.remove(at) == stack.remove(from)
                }
        }),
        ({
            let moved = moved_in_stack(stack, surface, Location::After, relative_to);
            exists|at: int|
                {
                    &&& 0 < at < moved.len()
                    &&& #[trigger] moved[at] == surface
                    &&& moved[at - 1] == relative_to
                    &&& moved.remove(at) == stack.remove(from)
                }
        }),
{
    assert(stack.index_of(surface) == from);
    let others = stack.remove(from);
    let old_at = choose|i: int| 0 <= i < stack.len() && stack[i] == relative_to;
    assert(others[if old_at < from { old_at } else { old_at - 1 }] == relative_to);
    let at = others.index_of(relative_to);
    assert(others.contains(relative_to));
    let before = moved_in_stack(stack, surface, Location::Before, relative_to);
    assert(before == others.insert(at, surface));
    assert(before[at] == surface);
    assert(before.remove(at) == others);
    let after = moved_in_stack(stack, surface, Location::After, relative_to);
    assert(after == others.insert(at + 1, surface));
    assert(after[at + 1] == surface);
    assert(after.remove(at + 1) == others);
}

/// A surface is at or below another exactly if one gets from the one to the other by going from
/// parent to parent.
pub proof fn law_below_is_a_path_of_parents<R>(
    surfaces: Map<SurfaceId, SurfaceData<R>>,
    surface: SurfaceId,
    root: SurfaceId,
)
    requires
        are_trees(surfaces),
        surfaces.contains_key(surface),
    ensures
        is_below(surfaces, surface, root) <==> exists|path: Seq<SurfaceId>|
            {
                &&& path.len() > 0
                &&& path[0] == surface
                &&& #[trigger] path.last() == root
                &&& forall|i: int|
                    0 <= i < path.len() - 1 ==> surfaces[#[trigger] path[i]].parent == Some(
                        path[i + 1],
                    )
            },
{
    if is_below(surfaces, surface, root) {
        let path = lemma_path_to(surfaces, surface, root);
        assert(path.last() == root);
    }
    assert forall|path: Seq<SurfaceId>|
        {
            &&& path.len() > 0
            &&& path[0] == surface
            &&& #[trigger] path.last() == root
            &&& forall|i: int|
                0 <= i < path.len() - 1 ==> surfaces[#[trigger] path[i]].parent == Some(path[i + 1])
        } implies is_below(surfaces, surface, root) by {
        lemma_path_is_below(surfaces, path);
    }
}

/// The path of parents from a surface to one that it is below
proof fn lemma_path_to<R>(
    surfaces: Map<SurfaceId, SurfaceData<R>>,
    surface: SurfaceId,
    root: SurfaceId,
) -> (path: Seq<SurfaceId>)
    requires
        are_trees(surfaces),
        surfaces.contains_key(surface),
        is_below(surfaces, surface, root),
    ensures
        path.len() > 0,
        path[0] == surface,
        path.last() == root,
        forall|i: int|
            0 <= i < path.len() - 1 ==> surfaces[#[trigger] path[i]].parent == Some(path[i + 1]),
    decreases depth_of(surfaces, surface),
{
    lemma_depth(surfaces, surface);
    if surface == root {
        seq![surface]
    } else {
        let rest = lemma_path_to(surfaces, surfaces[surface].parent->0, root);
        let path = seq![surface] + rest;
        assert(path.last() == root);
        assert forall|i: int| 0 <= i < path.len() - 1 implies surfaces[#[trigger] path[i]].parent
            == Some(path[i + 1]) by {
            if i > 0 {
                assert(path[i] == rest[i - 1]);
                assert(path[i + 1] == rest[i]);
            }
        }
        path
    }
}

/// A surface is below the end of any path of parents from it, which is not as deep
proof fn lemma_path_is_below<R>(surfaces: Map<SurfaceId, SurfaceData<R>>, path: Seq<SurfaceId>)
    requires
        are_trees(surfaces),
        path.len() > 0,
        surfaces.contains_key(path[0]),
        forall|i: int|
            0 <= i < path.len() - 1 ==> surfaces[#[trigger] path[i]].parent == Some(path[i + 1]),
    ensures
        is_below(surfaces, path[0], path.last()),
        depth_of(surfaces, path[0]) == depth_of(surfaces, path.last()) + path.len() - 1,
    decreases path.len(),
{
    if path.len() > 1 {
        assert(surfaces[path[0]].parent == Some(path[1]));
        lemma_depth(surfaces, path[0]);
        let rest = path.drop_first();
        assert forall|i: int| 0 <= i < rest.len() - 1 implies surfaces[#[trigger] rest[i]].parent
            == Some(rest[i + 1]) by {
            assert(surfaces[path[i + 1]].parent == Some(path[i + 2]));
        }
        lemma_path_is_below(surfaces, rest);
        assert(rest.last() == path.last());
    }
}

/// Going from parent to parent never comes back to a surface.
pub proof fn law_no_cycles_of_parents<R>(
    surfaces: Map<SurfaceId, SurfaceData<R>>,
    path: Seq<SurfaceId>,
)
    requires
        are_trees(surfaces),
        path.len() > 1,
        surfaces.contains_key(path[0]),
        forall|i: int|
            0 <= i < path.len() - 1 ==> surfaces[#[trigger] path[i]].parent == Some(path[i + 1]),
    ensures
        path[0] != path.last(),
{
    lemma_path_is_below(surfaces, path);
}

/// The stack of a surface lists the surface itself and those that have it as their parent, each
/// once, and nothing else; and the parent of a surface is a surface.
pub proof fn law_stacks_agree_with_parents<R>(
    surfaces: Map<SurfaceId, SurfaceData<R>>,
    surface: SurfaceId,
    other: SurfaceId,
)
    requires
        are_trees(surfaces),
        surfaces.contains_key(surface),
    ensures
        surfaces[surface].stack@.no_duplicates(),
        surfaces[surface].stack@.contains(other) <==> other == surface || (surfaces.contains_key(
            other,
        ) && surfaces[other].parent == Some(surface)),
        surfaces[surface].parent is Some ==> surfaces.contains_key(surfaces[surface].parent->0),
{
    assert(stack_is_coherent(surfaces, surface));
    lemma_depth(surfaces, surface);
}

/// Removing a role gives back the data that the role was given with, and leaves the surfaces as
/// they were before the role was given.
pub proof fn law_remove_undoes_give<R: Role<RoleData>, RoleData>(
    surfaces: Map<SurfaceId, SurfaceData<R>>,
    surface: SurfaceId,
    data: RoleData,
)
    requires
        surfaces.contains_key(surface),
        surfaces[surface].role == R::no_role(),
    ensures
        ({
            let given = with_role(surfaces, surface, R::with_data(data));
            &&& <R as Role<RoleData>>::role_data(given[surface].role) == Some(data)
            &&& with_role(given, surface, R::no_role()) == surfaces
        }),
{
    R::role_is_its_data(R::with_data(data), data);
    let given = with_role(surfaces, surface, R::with_data(data));
    assert(with_role(given, surface, R::no_role()) == surfaces);
}

/// A surface that has been given a role has a role, so that giving it another one fails; one
/// that has a specific role has a role; and one without a role has no specific role.
pub proof fn law_one_role_at_a_time<R: Role<RoleData>, RoleData>(
    surfaces: Map<SurfaceId, SurfaceData<R>>,
    surface: SurfaceId,
    data: RoleData,
)
    requires
        surfaces.contains_key(surface),
    ensures
        with_role(surfaces, surface, R::with_data(data))[surface].role != R::no_role(),
        <R as Role<RoleData>>::role_data(surfaces[surface].role) is Some
            ==> surfaces[surface].role != R::no_role(),
        surfaces[surface].role == R::no_role() ==> <R as Role<RoleData>>::role_data(
            surfaces[surface].role,
        ) is None,
{
    R::role_is_its_data(R::with_data(data), data);
    let role = surfaces[surface].role;
    if let Some(held) = <R as Role<RoleData>>::role_data(role) {
        R::role_is_its_data(role, held);
    }
}

/// The children of a surface are the surfaces that have it as their parent, each listed once.
pub proof fn law_children_have_the_parent<R>(
    surfaces: Map<SurfaceId, SurfaceData<R>>,
    surface: SurfaceId,
)
    requires
        are_trees(surfaces),
        surfaces.contains_key(surface),
    ensures
        ({
            let children = surfaces[surface].stack@.filter(|entry: SurfaceId| entry != surface);
            &&& children.no_duplicates()
            &&& forall|other: SurfaceId| #[trigger]
                children.contains(other) <==> surfaces.contains_key(other)
                    && surfaces[other].parent == Some(surface)
        }),
{
    let stack = surfaces[surface].stack@;
    let is_child = |entry: SurfaceId| entry != surface;
    let children = stack.filter(is_child);
    assert(stack_is_coherent(surfaces, surface));
    lemma_filter_keeps_unique(stack, is_child);
    assert forall|other: SurfaceId| #[trigger] children.contains(other)
        <==> surfaces.contains_key(other) && surfaces[other].parent == Some(surface) by {
        broadcast use vstd::seq_lib::group_filter_ensures;

        if children.contains(other) {
            let i = choose|i: int| 0 <= i < children.len() && children[i] == other;
            assert(is_child(children[i]));
            stack.lemma_filter_contains_rev(is_child, other);
        }
        if surfaces.contains_key(other) && surfaces[other].parent == Some(surface) {
            lemma_depth(surfaces, other);
            assert(stack.contains(other));
            let i = choose|i: int| 0 <= i < stack.len() && stack[i] == other;
            assert(is_child(stack[i]));
        }
    }
}

/// What is kept of a stack without duplicates has none either
proof fn lemma_filter_keeps_unique(stack: Seq<SurfaceId>, keep: spec_fn(SurfaceId) -> bool)
    requires
        stack.no_duplicates(),
    ensures
        stack.filter(keep).no_duplicates(),
    decreases stack.len(),
{
    reveal(Seq::filter);
    if stack.len() > 0 {
        let front = stack.drop_last();
        lemma_filter_keeps_unique(front, keep);
        let kept = front.filter(keep);
        if kept.contains(stack.last()) {
            front.lemma_filter_contains_rev(keep, stack.last());
            let i = choose|i: int| 0 <= i < front.len() && front[i] == stack.last();
            assert(stack[i] == stack[stack.len() - 1]);
        }
        assert forall|i: int, j: int|
            0 <= i < j < stack.filter(keep).len() implies stack.filter(keep)[i] != stack.filter(
            keep,
        )[j] by {
            if j == kept.len() {
                assert(kept.contains(kept[i]));
            }
        }
    }
}

} // verus!
