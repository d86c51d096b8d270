use smithay::utils::Rectangle;
use smithay::wayland::compositor::roles::{Role, RoleType, SubsurfaceOnly, WrongRole};
use smithay::wayland::compositor::store::Location;
use smithay::wayland::compositor::{
    compositor_init, CompositorToken, Damage, GlobalRequest, Interface, RectangleKind,
    RegionAttributes, Regions, SubsurfaceRole, SurfaceAttributes, SurfaceEvent, SurfaceId, Surfaces,
    Transform, TraversalAction,
};

fn setup() -> (CompositorToken<SubsurfaceOnly>, Surfaces<SubsurfaceOnly>) {
    let (token, _, _) = compositor_init();
    (token, Surfaces::new())
}

/// A root 1 with the children 2 and 3, and 4 and 5 below 2. Surface 3 is drawn before the root,
/// and 5 before 2.
fn family() -> (CompositorToken<SubsurfaceOnly>, Surfaces<SubsurfaceOnly>) {
    let (token, mut surfaces) = setup();
    for id in 1..6 {
        assert!(surfaces.manage(id));
    }
    assert_eq!(surfaces.set_parent(&4, &2), Ok(()));
    assert_eq!(surfaces.set_parent(&5, &2), Ok(()));
    assert_eq!(surfaces.set_parent(&2, &1), Ok(()));
    assert_eq!(surfaces.set_parent(&3, &1), Ok(()));
    assert_eq!(surfaces.reorder(&3, Location::Before, &1), Ok(()));
    assert_eq!(surfaces.reorder(&5, Location::Before, &2), Ok(()));
    (token, surfaces)
}

#[test]
fn globals_of_the_compositor() {
    let (_, compositor, subcompositor) = compositor_init::<SubsurfaceOnly>();
    assert_eq!(
        compositor,
        GlobalRequest {
            interface: Interface::WlCompositor,
            version: 4
        }
    );
    assert_eq!(
        subcompositor,
        GlobalRequest {
            interface: Interface::WlSubcompositor,
            version: 1
        }
    );
}

#[test]
fn default_attributes() {
    let attributes = SurfaceAttributes::default();
    assert!(attributes.buffer.is_none());
    assert_eq!(attributes.buffer_scale, 1);
    assert_eq!(attributes.buffer_transform, Transform::Normal);
    assert!(attributes.opaque_region.is_none());
    assert!(attributes.input_region.is_none());
    assert_eq!(attributes.damage, Damage::Full);
    assert!(attributes.frame_callback.is_none());
    assert_eq!(attributes.user_data.get::<u32>(), None);
    assert!(attributes.user_data.insert_if_missing(|| 7u32));
    assert_eq!(attributes.user_data.get::<u32>(), Some(&7));
}

#[test]
fn default_subsurface_role() {
    let role = SubsurfaceRole::default();
    assert_eq!(role.location, (0, 0));
    assert!(role.sync);
}

#[test]
fn commit_is_the_event_of_surfaces() {
    assert_eq!(SurfaceEvent::Commit, SurfaceEvent::Commit);
}

#[test]
fn surfaces_are_managed_once() {
    let (token, mut surfaces) = setup();
    assert!(!surfaces.is_managed(&7));
    assert!(surfaces.manage(7));
    assert!(surfaces.is_managed(&7));
    token.with_surface_data(&mut surfaces, &7, |attributes| attributes.buffer_scale = 3);
    assert!(!surfaces.manage(7));
    assert_eq!(
        token.with_surface_data(&mut surfaces, &7, |attributes| attributes.buffer_scale),
        3
    );
    assert_eq!(token.get_parent(&surfaces, &7), None);
    assert_eq!(token.get_children(&surfaces, &7), vec![]);
    assert!(!token.has_a_role(&surfaces, &7));
}

#[test]
fn surface_data_is_that_of_the_surface() {
    let (token, mut surfaces) = setup();
    surfaces.manage(1);
    surfaces.manage(2);
    let before = token.with_surface_data(&mut surfaces, &1, |attributes| {
        let before = attributes.buffer_scale;
        attributes.buffer_scale = 2;
        attributes.damage = Damage::Surface(Rectangle {
            x: 1,
            y: 2,
            width: 3,
            height: 4,
        });
        before
    });
    assert_eq!(before, 1);
    assert_eq!(
        token.with_surface_data(&mut surfaces, &1, |attributes| attributes.buffer_scale),
        2
    );
    assert_eq!(
        token.with_surface_data(&mut surfaces, &2, |attributes| attributes.buffer_scale),
        1
    );
}

#[test]
fn role_is_given_once() {
    let (token, mut surfaces) = setup();
    surfaces.manage(1);
    assert_eq!(token.give_role::<SubsurfaceRole>(&mut surfaces, &1), Ok(()));
    assert!(token.has_a_role(&surfaces, &1));
    assert!(token.has_role::<SubsurfaceRole>(&surfaces, &1));
    assert_eq!(token.give_role::<SubsurfaceRole>(&mut surfaces, &1), Err(()));
    let other = SubsurfaceRole {
        location: (5, 6),
        sync: false,
    };
    assert_eq!(token.give_role_with(&mut surfaces, &1, other), Err(other));
    assert_eq!(
        token.with_role_data(&mut surfaces, &1, |data: &mut SubsurfaceRole| *data),
        Ok(SubsurfaceRole::default())
    );
}

#[test]
fn removing_a_role_gives_its_data_back() {
    let (token, mut surfaces) = setup();
    surfaces.manage(1);
    let given = SubsurfaceRole {
        location: (5, 6),
        sync: false,
    };
    assert_eq!(token.give_role_with(&mut surfaces, &1, given), Ok(()));
    assert_eq!(
        token.remove_role::<SubsurfaceRole>(&mut surfaces, &1),
        Ok(given)
    );
    assert!(!token.has_a_role(&surfaces, &1));
    assert_eq!(
        token.remove_role::<SubsurfaceRole>(&mut surfaces, &1),
        Err(WrongRole)
    );
    assert_eq!(token.give_role::<SubsurfaceRole>(&mut surfaces, &1), Ok(()));
}

#[test]
fn role_data_is_accessed_only_with_the_role() {
    let (token, mut surfaces) = setup();
    surfaces.manage(1);
    let mut called = false;
    assert_eq!(
        token.with_role_data(&mut surfaces, &1, |_: &mut SubsurfaceRole| called = true),
        Err(WrongRole)
    );
    assert!(!called);
    token.give_role::<SubsurfaceRole>(&mut surfaces, &1).unwrap();
    let sync = token.with_role_data(&mut surfaces, &1, |data: &mut SubsurfaceRole| {
        data.location = (3, 4);
        data.sync
    });
    assert_eq!(sync, Ok(true));
    assert_eq!(
        token.remove_role::<SubsurfaceRole>(&mut surfaces, &1),
        Ok(SubsurfaceRole {
            location: (3, 4),
            sync: true
        })
    );
}

/// A pointer icon, with its hotspot
#[derive(Copy, Clone, Debug, PartialEq, Default)]
struct CursorRole {
    hotspot: (i32, i32),
}

enum TwoRoles {
    NoRole,
    Subsurface(SubsurfaceRole),
    Cursor(CursorRole),
}

impl Default for TwoRoles {
    fn default() -> TwoRoles {
        TwoRoles::NoRole
    }
}

impl RoleType for TwoRoles {
    fn no_role() -> TwoRoles {
        TwoRoles::NoRole
    }

    fn has_role(&self) -> bool {
        !matches!(self, TwoRoles::NoRole)
    }
}

impl Role<SubsurfaceRole> for TwoRoles {
    fn with_data(data: SubsurfaceRole) -> TwoRoles {
        TwoRoles::Subsurface(data)
    }

    fn role_data(self) -> Option<SubsurfaceRole> {
        match self {
            TwoRoles::Subsurface(data) => Some(data),
            _ => None,
        }
    }

    fn role_is_its_data(_: TwoRoles, _: SubsurfaceRole) {}

    fn set_with(&mut self, data: SubsurfaceRole) -> Result<(), SubsurfaceRole> {
        if self.has_role() {
            return Err(data);
        }
        *self = TwoRoles::Subsurface(data);
        Ok(())
    }

    fn has(&self) -> bool {
        matches!(self, TwoRoles::Subsurface(_))
    }

    fn data_mut(&mut self) -> Result<&mut SubsurfaceRole, WrongRole> {
        match self {
            TwoRoles::Subsurface(data) => Ok(data),
            _ => Err(WrongRole),
        }
    }

    fn unset(&mut self) -> Result<SubsurfaceRole, WrongRole> {
        match *self {
            TwoRoles::Subsurface(data) => {
                *self = TwoRoles::NoRole;
                Ok(data)
            }
            _ => Err(WrongRole),
        }
    }
}

impl Role<CursorRole> for TwoRoles {
    fn with_data(data: CursorRole) -> TwoRoles {
        TwoRoles::Cursor(data)
    }

    fn role_data(self) -> Option<CursorRole> {
        match self {
            TwoRoles::Cursor(data) => Some(data),
            _ => None,
        }
    }

    fn role_is_its_data(_: TwoRoles, _: CursorRole) {}

    fn set_with(&mut self, data: CursorRole) -> Result<(), CursorRole> {
        if self.has_role() {
            return Err(data);
        }
        *self = TwoRoles::Cursor(data);
        Ok(())
    }

    fn has(&self) -> bool {
        matches!(self, TwoRoles::Cursor(_))
    }

    fn data_mut(&mut self) -> Result<&mut CursorRole, WrongRole> {
        match self {
            TwoRoles::Cursor(data) => Ok(data),
            _ => Err(WrongRole),
        }
    }

    fn unset(&mut self) -> Result<CursorRole, WrongRole> {
        match *self {
            TwoRoles::Cursor(data) => {
                *self = TwoRoles::NoRole;
                Ok(data)
            }
            _ => Err(WrongRole),
        }
    }
}

#[test]
fn a_surface_has_one_of_several_roles() {
    let (token, _, _) = compositor_init::<TwoRoles>();
    let mut surfaces = Surfaces::new();
    surfaces.manage(1);
    let cursor = CursorRole { hotspot: (1, 2) };
    assert_eq!(token.give_role_with(&mut surfaces, &1, cursor), Ok(()));
    assert!(token.has_a_role(&surfaces, &1));
    assert!(token.has_role::<CursorRole>(&surfaces, &1));
    assert!(!token.has_role::<SubsurfaceRole>(&surfaces, &1));
    assert_eq!(token.give_role::<SubsurfaceRole>(&mut surfaces, &1), Err(()));
    assert_eq!(
        token.remove_role::<SubsurfaceRole>(&mut surfaces, &1),
        Err(WrongRole)
    );
    assert_eq!(
        token.with_role_data(&mut surfaces, &1, |_: &mut SubsurfaceRole| ()),
        Err(WrongRole)
    );
    surfaces.manage(2);
    assert_eq!(surfaces.set_parent(&1, &2), Err(()));
    assert_eq!(token.remove_role::<CursorRole>(&mut surfaces, &1), Ok(cursor));
    assert_eq!(surfaces.set_parent(&1, &2), Ok(()));
    assert!(token.has_role::<SubsurfaceRole>(&surfaces, &1));
    assert!(!token.has_role::<CursorRole>(&surfaces, &1));
}

#[test]
fn parents_and_children() {
    let (token, surfaces) = family();
    assert_eq!(token.get_parent(&surfaces, &1), None);
    assert_eq!(token.get_parent(&surfaces, &2), Some(1));
    assert_eq!(token.get_parent(&surfaces, &3), Some(1));
    assert_eq!(token.get_parent(&surfaces, &4), Some(2));
    assert_eq!(token.get_children(&surfaces, &1), vec![3, 2]);
    assert_eq!(token.get_children(&surfaces, &2), vec![5, 4]);
    assert_eq!(token.get_children(&surfaces, &3), vec![]);
    assert!(token.has_role::<SubsurfaceRole>(&surfaces, &2));
    assert!(!token.has_a_role(&surfaces, &1));
}

#[test]
fn trees_have_no_cycles() {
    let (token, mut surfaces) = setup();
    for id in 1..4 {
        surfaces.manage(id);
    }
    assert_eq!(surfaces.set_parent(&1, &1), Err(()));
    assert_eq!(surfaces.set_parent(&2, &1), Ok(()));
    assert_eq!(surfaces.set_parent(&3, &2), Ok(()));
    assert_eq!(surfaces.set_parent(&1, &3), Err(()));
    // it has a parent already
    assert_eq!(surfaces.set_parent(&3, &1), Err(()));
    token.remove_role::<SubsurfaceRole>(&mut surfaces, &3).unwrap();
    assert_eq!(surfaces.set_parent(&3, &1), Err(()));
    assert_eq!(token.get_parent(&surfaces, &3), Some(2));
}

#[test]
fn reordering_in_the_stack_of_the_parent() {
    let (token, mut surfaces) = family();
    assert_eq!(surfaces.reorder(&1, Location::After, &2), Err(()));
    assert_eq!(surfaces.reorder(&2, Location::After, &2), Err(()));
    assert_eq!(surfaces.reorder(&4, Location::After, &3), Err(()));
    assert_eq!(token.get_children(&surfaces, &1), vec![3, 2]);
    assert_eq!(surfaces.reorder(&2, Location::Before, &3), Ok(()));
    assert_eq!(token.get_children(&surfaces, &1), vec![2, 3]);
    assert_eq!(surfaces.reorder(&2, Location::After, &3), Ok(()));
    assert_eq!(token.get_children(&surfaces, &1), vec![3, 2]);
}

fn processed(
    token: CompositorToken<SubsurfaceOnly>,
    surfaces: &mut Surfaces<SubsurfaceOnly>,
    root: SurfaceId,
    reverse: bool,
) -> Vec<SurfaceId> {
    let mut order = Vec::new();
    let processor = |surface: &SurfaceId, _: &mut SurfaceAttributes, _: &mut SubsurfaceOnly, _: &()| {
        order.push(*surface)
    };
    if reverse {
        token.with_surface_tree_downward(
            surfaces,
            &root,
            (),
            |_, _, _, _| TraversalAction::DoChildren(()),
            processor,
            |_, _, _, _| true,
        );
    } else {
        token.with_surface_tree_upward(
            surfaces,
            &root,
            (),
            |_, _, _, _| TraversalAction::DoChildren(()),
            processor,
            |_, _, _, _| true,
        );
    }
    order
}

#[test]
fn upward_is_the_drawing_order() {
    let (token, mut surfaces) = family();
    assert_eq!(processed(token, &mut surfaces, 1, false), vec![3, 1, 5, 2, 4]);
    assert_eq!(processed(token, &mut surfaces, 2, false), vec![5, 2, 4]);
    assert_eq!(processed(token, &mut surfaces, 3, false), vec![3]);
}

#[test]
fn downward_is_the_reverse() {
    let (token, mut surfaces) = family();
    assert_eq!(processed(token, &mut surfaces, 1, true), vec![4, 2, 5, 1, 3]);
    assert_eq!(processed(token, &mut surfaces, 2, true), vec![4, 2, 5]);
}

#[test]
fn values_go_from_parents_to_children() {
    let (token, mut surfaces) = family();
    let mut filtered = Vec::new();
    let mut processed = Vec::new();
    let mut after = Vec::new();
    token.with_surface_tree_upward(
        &mut surfaces,
        &1,
        0u32,
        |surface, _, _, depth| {
            filtered.push((*surface, *depth));
            TraversalAction::DoChildren(*depth + 1)
        },
        |surface, _, _, depth| processed.push((*surface, *depth)),
        |surface, _, _, depth| {
            after.push((*surface, *depth));
            true
        },
    );
    assert_eq!(filtered, vec![(1, 0), (3, 1), (2, 1), (5, 2), (4, 2)]);
    assert_eq!(processed, vec![(3, 1), (1, 0), (5, 2), (2, 1), (4, 2)]);
    assert_eq!(after, vec![(3, 1), (5, 2), (4, 2), (2, 1), (1, 0)]);
}

#[test]
fn skipping_children() {
    let (token, mut surfaces) = family();
    let mut processed = Vec::new();
    let mut after = Vec::new();
    token.with_surface_tree_upward(
        &mut surfaces,
        &1,
        (),
        |surface, _, _, _| {
            if *surface == 2 {
                TraversalAction::SkipChildren
            } else {
                TraversalAction::DoChildren(())
            }
        },
        |surface, _, _, _| processed.push(*surface),
        |surface, _, _, _| {
            after.push(*surface);
            true
        },
    );
    assert_eq!(processed, vec![3, 1, 2]);
    assert_eq!(after, vec![3, 1]);
}

#[test]
fn breaking_off() {
    let (token, mut surfaces) = family();
    let mut processed = Vec::new();
    let mut after = Vec::new();
    token.with_surface_tree_upward(
        &mut surfaces,
        &1,
        (),
        |surface, _, _, _| {
            if *surface == 5 {
                TraversalAction::Break
            } else {
                TraversalAction::DoChildren(())
            }
        },
        |surface, _, _, _| processed.push(*surface),
        |surface, _, _, _| {
            after.push(*surface);
            true
        },
    );
    assert_eq!(processed, vec![3, 1]);
    assert_eq!(after, vec![3]);
}

#[test]
fn post_filter_stops() {
    let (token, mut surfaces) = family();
    let mut processed = Vec::new();
    let mut after = Vec::new();
    token.with_surface_tree_downward(
        &mut surfaces,
        &1,
        (),
        |_, _, _, _| TraversalAction::DoChildren(()),
        |surface, _, _, _| processed.push(*surface),
        |surface, _, _, _| {
            after.push(*surface);
            *surface != 2
        },
    );
    assert_eq!(processed, vec![4, 2, 5]);
    assert_eq!(after, vec![4, 5, 2]);
}

#[test]
fn traversals_change_the_data_of_surfaces() {
    let (token, mut surfaces) = family();
    token.with_surface_tree_upward(
        &mut surfaces,
        &2,
        10i32,
        |_, attributes, _, scale| {
            attributes.buffer_scale = *scale;
            TraversalAction::DoChildren(*scale + 1)
        },
        |_, _, role, _| {
            if let SubsurfaceOnly::Subsurface(data) = role {
                data.sync = false;
            }
        },
        |_, attributes, _, _| {
            attributes.buffer_scale += 100;
            true
        },
    );
    let scales: Vec<i32> = (1..6)
        .map(|id| token.with_surface_data(&mut surfaces, &id, |attributes| attributes.buffer_scale))
        .collect();
    assert_eq!(scales, vec![1, 110, 1, 111, 111]);
    let synced: Vec<Result<bool, WrongRole>> = (1..6)
        .map(|id| token.with_role_data(&mut surfaces, &id, |data: &mut SubsurfaceRole| data.sync))
        .collect();
    assert_eq!(
        synced,
        vec![Err(WrongRole), Ok(false), Ok(true), Ok(false), Ok(false)]
    );
    assert_eq!(token.get_children(&surfaces, &2), vec![5, 4]);
}

#[test]
fn attributes_of_regions() {
    let (token, _) = setup();
    let mut regions = Regions::new();
    assert!(!regions.is_managed(&3));
    let rect = Rectangle {
        x: 0,
        y: 0,
        width: 10,
        height: 10,
    };
    regions.manage(
        3,
        RegionAttributes {
            rects: vec![(RectangleKind::Add, rect)],
        },
    );
    regions.manage(4, RegionAttributes::default());
    assert!(regions.is_managed(&3));
    assert_eq!(
        token.get_region_attributes(&regions, &3).rects,
        vec![(RectangleKind::Add, rect)]
    );
    assert_eq!(token.get_region_attributes(&regions, &4).rects, vec![]);
}

#[test]
fn tokens_are_copied() {
    let (token, surfaces) = family();
    let copy = token.clone();
    assert_eq!(
        copy.get_parent(&surfaces, &2),
        token.get_parent(&surfaces, &2)
    );
}

fn is_shared_between_threads<T: Copy + Send + Sync>(_: T) -> bool {
    true
}

#[test]
fn tokens_are_shared_between_threads() {
    // whatever the roles are: these could neither be sent nor shared
    let (token, _, _) = compositor_init::<std::rc::Rc<u8>>();
    assert!(is_shared_between_threads(token));
    let (token, _, _) = compositor_init::<std::cell::Cell<u8>>();
    assert!(is_shared_between_threads(token));
    let (token, _, _) = compositor_init::<SubsurfaceOnly>();
    assert!(is_shared_between_threads(token));
}
