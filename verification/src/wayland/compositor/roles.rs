//! Tools for handling surface roles
//!
//! In the Wayland protocol, surfaces can have several different roles, which
//! define how they are to be used: a surface may be a window, the icon of a pointer,
//! or part of a tree of subsurfaces.
//!
//! A surface can have only one role at any given time. A type that represents the
//! role of a surface is thus either "no role", or one of its roles together with the
//! data of that role. It implements [`RoleType`], and [`Role<RoleData>`](Role) for the
//! data of each of the roles it knows of. Two roles are different where no value of the type
//! stands for both of them, whatever their data, and different roles exclude each other:
//! see [`law_roles_exclude_each_other`]. Because the compositor handles subsurfaces,
//! any such type has to know of [`SubsurfaceRole`]; [`SubsurfaceOnly`] is the one that
//! knows of nothing else.

use super::SubsurfaceRole;
use vstd::prelude::*;

verus! {

/// An error type signifying that the surface does not have expected role
///
/// Generated if you attempt a role operation on a surface that does
/// not have the role you asked for.
#[derive(Copy, Clone, Debug, PartialEq, Eq, Structural)]
pub struct WrongRole;

/// A trait representing a type that can manage surface roles
pub trait RoleType: Sized {
    /// The value that stands for a surface without a role
    spec fn no_role() -> Self;

    /// Check if the associated surface has a role
    ///
    /// Only reports if the surface has any role or no role.
    /// To check for a role in particular, see [`Role::has`].
    fn has_role(&self) -> (some_role: bool)
        ensures
            some_role == (*self != Self::no_role()),
    ;
}

/// A trait representing the capability of a [`RoleType`] to handle a given role
///
/// This trait allows to interact with the different roles a [`RoleType`] can
/// handle.
pub trait Role<RoleData>: RoleType {
    /// The value that stands for a surface that has this role, with the given data
    spec fn with_data(data: RoleData) -> Self;

    /// The data of this role, if the surface has it
    spec fn role_data(self) -> Option<RoleData>;

    /// A surface has this role exactly when it has data for it, having it is having
    /// a role, and the data is kept as it was given.
    proof fn role_is_its_data(role: Self, data: RoleData)
        ensures
            role.role_data() == Some(data) <==> role == Self::with_data(data),
            Self::with_data(data) != Self::no_role(),
    ;

    /// Set the role for the associated surface with given data
    ///
    /// Fails if the surface already has a role and returns the data
    fn set_with(&mut self, data: RoleData) -> (outcome: Result<(), RoleData>)
        ensures
            *old(self) == Self::no_role() ==> outcome == Ok::<(), RoleData>(()) && *final(self)
                == Self::with_data(data),
            *old(self) != Self::no_role() ==> outcome == Err::<(), RoleData>(data) && *final(self)
                == *old(self),
    ;

    /// Check if the associated surface has this role
    fn has(&self) -> (has: bool)
        ensures
            has == (self.role_data() is Some),
    ;

    /// Access the data associated with this role, if its the current role
    fn data_mut(&mut self) -> (data: Result<&mut RoleData, WrongRole>)
        ensures
            match data {
                Ok(data) => old(self).role_data() == Some(*data) && *final(self)
                    == Self::with_data(*final(data)),
                Err(WrongRole) => old(self).role_data() is None && *final(self) == *old(self),
            },
    ;

    /// Remove this role from the associated surface and retrieve its data
    ///
    /// Fails if the surface does not currently have this role
    fn unset(&mut self) -> (outcome: Result<RoleData, WrongRole>)
        ensures
            match old(self).role_data() {
                Some(data) => outcome == Ok::<RoleData, WrongRole>(data) && *final(self)
                    == Self::no_role(),
                None => outcome == Err::<RoleData, WrongRole>(WrongRole) && *final(self) == *old(
                    self,
                ),
            },
    ;
}

/// A surface has at most one role: it never has two different ones at once, one that has been given
/// either of them does not have the other, and having one of them is having a role. Roles are
/// different where a surface that has the one never is as a surface that has the other.
pub proof fn law_roles_exclude_each_other<R: Role<A> + Role<B>, A, B>(role: R)
    requires
        forall|a: A, b: B| #[trigger]
            <R as Role<A>>::with_data(a) != #[trigger] <R as Role<B>>::with_data(b),
    ensures
        <R as Role<A>>::role_data(role) is None || <R as Role<B>>::role_data(role) is None,
        <R as Role<A>>::role_data(role) is Some ==> role != R::no_role(),
        <R as Role<B>>::role_data(role) is Some ==> role != R::no_role(),
        forall|a: A| <R as Role<B>>::role_data(#[trigger] <R as Role<A>>::with_data(a)) is None,
        forall|b: B| <R as Role<A>>::role_data(#[trigger] <R as Role<B>>::with_data(b)) is None,
{
    if let Some(a) = <R as Role<A>>::role_data(role) {
        <R as Role<A>>::role_is_its_data(role, a);
    }
    if let Some(b) = <R as Role<B>>::role_data(role) {
        <R as Role<B>>::role_is_its_data(role, b);
    }
    assert forall|a: A| <R as Role<B>>::role_data(
        #[trigger] <R as Role<A>>::with_data(a),
    ) is None by {
        let given = <R as Role<A>>::with_data(a);
        if let Some(b) = <R as Role<B>>::role_data(given) {
            <R as Role<B>>::role_is_its_data(given, b);
        }
    }
    assert forall|b: B| <R as Role<A>>::role_data(
        #[trigger] <R as Role<B>>::with_data(b),
    ) is None by {
        let given = <R as Role<B>>::with_data(b);
        if let Some(a) = <R as Role<A>>::role_data(given) {
            <R as Role<A>>::role_is_its_data(given, a);
        }
    }
}

/// The role of a surface, for a compositor where subsurface is the only role
#[derive(Copy, Clone, Debug, PartialEq, Eq)]
pub enum SubsurfaceOnly {
    /// The surface has no role
    NoRole,
    /// The surface is a subsurface
    Subsurface(SubsurfaceRole),
}

impl Default for SubsurfaceOnly {
    fn default() -> (role: SubsurfaceOnly)
        ensures
            role == SubsurfaceOnly::NoRole,
    {
        SubsurfaceOnly::NoRole
    }
}

impl RoleType for SubsurfaceOnly {
    open spec fn no_role() -> SubsurfaceOnly {
        SubsurfaceOnly::NoRole
    }

    fn has_role(&self) -> bool {
        match self {
            SubsurfaceOnly::NoRole => false,
            SubsurfaceOnly::Subsurface(_) => true,
        }
    }
}

impl Role<SubsurfaceRole> for SubsurfaceOnly {
    open spec fn with_data(data: SubsurfaceRole) -> SubsurfaceOnly {
        SubsurfaceOnly::Subsurface(data)
    }

    open spec fn role_data(self) -> Option<SubsurfaceRole> {
        match self {
            SubsurfaceOnly::NoRole => None,
            SubsurfaceOnly::Subsurface(data) => Some(data),
        }
    }

    proof fn role_is_its_data(role: SubsurfaceOnly, data: SubsurfaceRole) {
    }

    fn set_with(&mut self, data: SubsurfaceRole) -> Result<(), SubsurfaceRole> {
        match self {
            SubsurfaceOnly::NoRole => {
                *self = SubsurfaceOnly::Subsurface(data);
                Ok(())
            },
            SubsurfaceOnly::Subsurface(_) => Err(data),
        }
    }

    fn has(&self) -> bool {
        match self {
            SubsurfaceOnly::NoRole => false,
            SubsurfaceOnly::Subsurface(_) => true,
        }
    }

    fn data_mut(&mut self) -> Result<&mut SubsurfaceRole, WrongRole> {
        match self {
            SubsurfaceOnly::NoRole => Err(WrongRole),
            SubsurfaceOnly::Subsurface(data) => Ok(data),
        }
    }

    fn unset(&mut self) -> Result<SubsurfaceRole, WrongRole> {
        match *self {
            SubsurfaceOnly::NoRole => Err(WrongRole),
            SubsurfaceOnly::Subsurface(data) => {
                *self = SubsurfaceOnly::NoRole;
                Ok(data)
            },
        }
    }
}

} // verus!
