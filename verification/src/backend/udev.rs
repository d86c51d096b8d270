//! Provides `udev` related functionality for automated device scanning.
//!
//! This module mainly provides the [`UdevBackend`], which
//! keeps track of available DRM devices and turns what a udev monitor reports into events whenever
//! these devices change.
//!
//! *Note:* The [`UdevBackend`] will only notify you about *changes* in the device list. To get an
//! initial snapshot of the state during your initialization, you need to call its `device_list`
//! method.
//!
//! Additionally this contains some utility functions related to scanning.
//!
//! Paths, names and attributes of devices are the bytes that the system gives for them, which
//! need not be text.

use std::collections::HashMap;
use vstd::prelude::*;
use vstd::string::StringSliceAdditionalSpecFns;

verus! {

broadcast use vstd::std_specs::hash::group_hash_axioms;

/// Identifier of a device
pub type DeviceId = u64;

/// The subsystem that the devices belong to
pub const DRM_SUBSYSTEM: &'static str = "drm";

/// The pattern that the names of the devices match
pub const DRM_SYSNAME: &'static str = "card[0-9]*";

/// The seat of the devices that do not tell theirs
pub const DEFAULT_SEAT: &'static str = "seat0";

/// What a scan tells of a DRM device
pub struct DrmDevice {
    /// The value of its property `ID_SEAT`, if it has one
    pub seat: Option<Vec<u8>>,
    /// The attribute `boot_vga` of the PCI device that it belongs to, if there is such a device
    /// and it has one
    pub boot_vga: Option<Vec<u8>>,
    /// The path of its device node, if it has one
    pub devnode: Option<Vec<u8>>,
}

impl DrmDevice {
    /// Whether the device belongs to a seat: it names the seat, or it names none and
    /// the seat is the default one
    pub open spec fn is_on(self, seat: Seq<u8>) -> bool {
        match self.seat {
            Some(name) => name@ == seat,
            None => DEFAULT_SEAT.spec_bytes() == seat,
        }
    }

    /// Whether the device is the one that the machine booted with
    pub open spec fn is_boot_vga(self) -> bool {
        match self.boot_vga {
            Some(value) => value@ == "1".spec_bytes(),
            None => false,
        }
    }
}

/// Compares bytes
fn same_bytes(a: &[u8], b: &[u8]) -> (same: bool)
    ensures
        same == (a@ == b@),
{
    if a.len() != b.len() {
        return false;
    }
    let mut i: usize = 0;
    while i < a.len()
        invariant
            i <= a.len(),
            a.len() == b.len(),
            forall|j: int| 0 <= j < i ==> a@[j] == b@[j],
        decreases a.len() - i,
    {
        if a[i] != b[i] {
            return false;
        }
        i = i + 1;
    }
    assert(a@ == b@);
    true
}

/// Copies bytes
fn copy_bytes(bytes: &Vec<u8>) -> (copy: Vec<u8>)
    ensures
        copy@ == bytes@,
{
    let mut copy: Vec<u8> = Vec::new();
    let mut i: usize = 0;
    while i < bytes.len()
        invariant
            i <= bytes.len(),
            copy@ == bytes@.take(i as int),
        decreases bytes.len() - i,
    {
        copy.push(bytes[i]);
        i = i + 1;
    }
    assert(copy@ == bytes@);
    copy
}

impl DrmDevice {
    /// Whether the device belongs to the seat
    fn on_seat(&self, seat: &str) -> (on: bool)
        ensures
            on == self.is_on(seat.spec_bytes()),
    {
        match &self.seat {
            Some(name) => same_bytes(name.as_slice(), seat.as_bytes()),
            None => same_bytes(DEFAULT_SEAT.as_bytes(), seat.as_bytes()),
        }
    }

    /// Whether the device is the one that the machine booted with
    fn booted(&self) -> (is: bool)
        ensures
            is == self.is_boot_vga(),
    {
        match &self.boot_vga {
            Some(value) => same_bytes(value.as_slice(), "1".as_bytes()),
            None => false,
        }
    }
}

/// The bytes of the paths
pub open spec fn bytes_of(paths: Seq<Vec<u8>>) -> Seq<Seq<u8>> {
    paths.map_values(|path: Vec<u8>| path@)
}

/// The paths of the device nodes of a seat, in the order of the scan
pub open spec fn gpus_of_seat(seat: Seq<u8>, devices: Seq<DrmDevice>) -> Seq<Seq<u8>>
    decreases devices.len(),
{
    if devices.len() == 0 {
        Seq::empty()
    } else {
        let before = gpus_of_seat(seat, devices.drop_last());
        match devices.last().devnode {
            Some(path) if devices.last().is_on(seat) => before.push(path@),
            _ => before,
        }
    }
}

/// Returns the paths of all available GPU devices
///
/// The devices are those that a scan for [`DRM_SUBSYSTEM`] and [`DRM_SYSNAME`] found.
pub fn all_gpus(seat: &str, devices: &Vec<DrmDevice>) -> (paths: Vec<Vec<u8>>)
    ensures
        bytes_of(paths@) == gpus_of_seat(seat.spec_bytes(), devices@),
        paths@.len() == gpus_of_seat(seat.spec_bytes(), devices@).len(),
        forall|i: int|
            0 <= i < paths@.len() ==> (#[trigger] paths@[i])@ == gpus_of_seat(
                seat.spec_bytes(),
                devices@,
            )[i],
{
    let mut paths: Vec<Vec<u8>> = Vec::new();
    let mut i: usize = 0;
    assert(bytes_of(paths@) == gpus_of_seat(seat.spec_bytes(), devices@.take(0)));
    while i < devices.len()
        invariant
            i <= devices.len(),
            bytes_of(paths@) == gpus_of_seat(seat.spec_bytes(), devices@.take(i as int)),
        decreases devices.len() - i,
    {
        let ghost before = paths@;
        assert(devices@.take(i + 1).drop_last() == devices@.take(i as int));
        if devices[i].on_seat(seat) {
            if let Some(path) = &devices[i].devnode {
                paths.push(copy_bytes(path));
                assert(bytes_of(paths@) == bytes_of(before).push(path@));
            }
        }
        i = i + 1;
    }
    assert(devices@.take(i as int) == devices@);
    assert forall|i: int| 0 <= i < paths@.len() implies (#[trigger] paths@[i])@ == gpus_of_seat(
        seat.spec_bytes(),
        devices@,
    )[i] by {
        assert(bytes_of(paths@)[i] == paths@[i]@);
    }
    paths
}

/// Whether the device is one to boot with on the seat, and has a device node
pub open spec fn is_boot_gpu(seat: Seq<u8>, device: DrmDevice) -> bool {
    device.is_on(seat) && device.is_boot_vga() && device.devnode is Some
}

/// The path of the first device that the machine booted with on the seat
pub open spec fn boot_gpu(seat: Seq<u8>, devices: Seq<DrmDevice>) -> Option<Seq<u8>>
    decreases devices.len(),
{
    if devices.len() == 0 {
        None
    } else if is_boot_gpu(seat, devices.first()) {
        Some(devices.first().devnode->0@)
    } else {
        boot_gpu(seat, devices.drop_first())
    }
}

/// What the search for the primary GPU has come to
pub enum GpuSearch {
    /// The search is over, with the path of the primary GPU if there is any GPU
    Found(Option<Vec<u8>>),
    /// The devices have to be scanned again
    ScanAgain,
}

/// Returns the path of the primary GPU device if any
///
/// This is the first device of the seat that the machine booted with. If there is none, the
/// devices are scanned again, and it is the first device of the seat.
///
/// The devices are those that scans for [`DRM_SUBSYSTEM`] and [`DRM_SYSNAME`] found. The search
/// starts without a second scan, and is taken up with one when it asks for it.
pub fn primary_gpu(
    seat: &str,
    devices: &Vec<DrmDevice>,
    scanned_again: Option<&Vec<DrmDevice>>,
) -> (search: GpuSearch)
    ensures
        match boot_gpu(seat.spec_bytes(), devices@) {
            Some(boot) => search matches GpuSearch::Found(Some(path)) && path@ == boot,
            None => match scanned_again {
                None => search is ScanAgain,
                Some(devices) => {
                    let gpus = gpus_of_seat(seat.spec_bytes(), devices@);
                    if gpus.len() > 0 {
                        search matches GpuSearch::Found(Some(path)) && path@ == gpus[0]
                    } else {
                        search matches GpuSearch::Found(None)
                    }
                },
            },
        },
{
    let mut i: usize = 0;
    assert(devices@.skip(0) == devices@);
    while i < devices.len()
        invariant
            i <= devices.len(),
            boot_gpu(seat.spec_bytes(), devices@) == boot_gpu(
                seat.spec_bytes(),
                devices@.skip(i as int),
            ),
        decreases devices.len() - i,
    {
        assert(devices@.skip(i as int).drop_first() == devices@.skip(i + 1));
        let device = &devices[i];
        if device.on_seat(seat) && device.booted() {
            if let Some(path) = &device.devnode {
                return GpuSearch::Found(Some(copy_bytes(path)));
            }
        }
        i = i + 1;
    }
    match scanned_again {
        None => GpuSearch::ScanAgain,
        Some(devices) => {
            let gpus = all_gpus(seat, devices);
            if gpus.len() > 0 {
                assert(bytes_of(gpus@)[0] == gpus@[0]@);
                GpuSearch::Found(Some(copy_bytes(&gpus[0])))
            } else {
                GpuSearch::Found(None)
            }
        },
    }
}

/// Kind of an event that a udev monitor reports
#[derive(Copy, Clone, Debug, PartialEq, Eq, Structural)]
pub enum EventType {
    /// A device has been added
    Add,
    /// A device has changed
    Change,
    /// A device has been removed
    Remove,
    /// Anything else
    Other,
}

/// An event that a udev monitor reports
pub struct MonitorEvent {
    /// The kind of the event
    pub event_type: EventType,
    /// The number of the device, if it has one
    pub devnum: Option<DeviceId>,
    /// The path of the device node, if it has one
    pub devnode: Option<Vec<u8>>,
}

/// Events generated by the [`UdevBackend`], notifying you of changes in system devices
#[derive(Debug, PartialEq, Eq)]
pub enum UdevEvent {
    /// A new device has been detected
    Added {
        /// ID of the new device
        device_id: DeviceId,
        /// Path of the new device
        path: Vec<u8>,
    },
    /// A device has changed
    Changed {
        /// ID of the changed device
        device_id: DeviceId,
    },
    /// A device has been removed
    Removed {
        /// ID of the removed device
        device_id: DeviceId,
    },
}

/// What a [`UdevEvent`] says
pub enum Notice {
    Added { device_id: DeviceId, path: Seq<u8> },
    Changed { device_id: DeviceId },
    Removed { device_id: DeviceId },
}

impl View for UdevEvent {
    type V = Notice;

    open spec fn view(&self) -> Notice {
        match *self {
            UdevEvent::Added { device_id, path } => Notice::Added { device_id, path: path@ },
            UdevEvent::Changed { device_id } => Notice::Changed { device_id },
            UdevEvent::Removed { device_id } => Notice::Removed { device_id },
        }
    }
}

/// The known devices after an event: an added device is known with its path, a removed one
/// is not known any longer
pub open spec fn known_after(
    known: Map<DeviceId, Seq<u8>>,
    event: MonitorEvent,
) -> Map<DeviceId, Seq<u8>> {
    match (event.event_type, event.devnum) {
        (EventType::Add, Some(devnum)) => match event.devnode {
            Some(path) => known.insert(devnum, path@),
            None => known,
        },
        (EventType::Remove, Some(devnum)) => known.remove(devnum),
        _ => known,
    }
}

/// What is noticed of an event: an added device if it was not known, a removed or changed one
/// if it was
pub open spec fn noticed(known: Map<DeviceId, Seq<u8>>, event: MonitorEvent) -> Option<Notice> {
    match (event.event_type, event.devnum) {
        (EventType::Add, Some(device_id)) => match event.devnode {
            Some(path) if !known.contains_key(device_id) => Some(
                Notice::Added { device_id, path: path@ },
            ),
            _ => None,
        },
        (EventType::Remove, Some(device_id)) if known.contains_key(device_id) => Some(
            Notice::Removed { device_id },
        ),
        (EventType::Change, Some(device_id)) if known.contains_key(device_id) => Some(
            Notice::Changed { device_id },
        ),
        _ => None,
    }
}

/// The known devices after several events, one after the other
pub open spec fn known_after_all(
    known: Map<DeviceId, Seq<u8>>,
    events: Seq<MonitorEvent>,
) -> Map<DeviceId, Seq<u8>>
    decreases events.len(),
{
    if events.len() == 0 {
        known
    } else {
        known_after(known_after_all(known, events.drop_last()), events.last())
    }
}

/// What is noticed of several events, one after the other
pub open spec fn all_noticed(
    known: Map<DeviceId, Seq<u8>>,
    events: Seq<MonitorEvent>,
) -> Seq<Notice>
    decreases events.len(),
{
    if events.len() == 0 {
        Seq::empty()
    } else {
        let before = all_noticed(known, events.drop_last());
        match noticed(known_after_all(known, events.drop_last()), events.last()) {
            Some(notice) => before.push(notice),
            None => before,
        }
    }
}

/// The devices of which the number could be found out, each with the last path that has that
/// number
pub open spec fn known_at_start(found: Seq<(Vec<u8>, Option<DeviceId>)>) -> Map<DeviceId, Seq<u8>>
    decreases found.len(),
{
    if found.len() == 0 {
        Map::empty()
    } else {
        let before = known_at_start(found.drop_last());
        match found.last() {
            (path, Some(device_id)) => before.insert(device_id, path@),
            (_, None) => before,
        }
    }
}

/// Backend to monitor available drm devices.
///
/// Provides a way to automatically scan for available gpus and notifies the
/// given handler of any changes. Can be used to provide hot-plug functionality for gpus and
/// attached monitors.
pub struct UdevBackend {
    devices: HashMap<DeviceId, Vec<u8>>,
}

impl View for UdevBackend {
    type V = Map<DeviceId, Seq<u8>>;

    closed spec fn view(&self) -> Map<DeviceId, Seq<u8>> {
        self.devices@.map_values(|path: Vec<u8>| path@)
    }
}

impl UdevBackend {
    /// Creates a new [`UdevBackend`]
    ///
    /// ## Arguments
    /// `found` - the paths of [`all_gpus`] of the seat, each with the number of the device
    /// there, or `None` where the number could not be found out
    pub fn new(found: Vec<(Vec<u8>, Option<DeviceId>)>) -> (backend: UdevBackend)
        ensures
            backend@ == known_at_start(found@),
    {
        let mut backend = UdevBackend { devices: HashMap::new() };
        assert(backend@ == known_at_start(found@.take(0)));
        let mut i: usize = 0;
        while i < found.len()
            invariant
                i <= found.len(),
                backend@ == known_at_start(found@.take(i as int)),
            decreases found.len() - i,
        {
            assert(found@.take(i + 1).drop_last() == found@.take(i as int));
            if let Some(device_id) = found[i].1 {
                let path = copy_bytes(&found[i].0);
                let ghost before = backend@;
                backend.devices.insert(device_id, path);
                assert(backend@ == before.insert(device_id, path@));
            }
            i = i + 1;
        }
        assert(found@.take(i as int) == found@);
        backend
    }

    /// Processes an event that the monitor reported, and returns what to notify of it
    pub fn process_event(&mut self, event: &MonitorEvent) -> (notice: Option<UdevEvent>)
        ensures
            final(self)@ == known_after(old(self)@, *event),
            match noticed(old(self)@, *event) {
                Some(expected) => notice matches Some(notice) && notice@ == expected,
                None => notice is None,
            },
            match notice {
                Some(UdevEvent::Added { device_id, path }) => {
                    &&& event.event_type == EventType::Add
                    &&& event.devnum == Some(device_id)
                    &&& event.devnode matches Some(node) && node@ == path@
                    &&& !old(self)@.contains_key(device_id)
                },
                Some(UdevEvent::Changed { device_id }) => {
                    &&& event.event_type == EventType::Change
                    &&& event.devnum == Some(device_id)
                    &&& old(self)@.contains_key(device_id)
                },
                Some(UdevEvent::Removed { device_id }) => {
                    &&& event.event_type == EventType::Remove
                    &&& event.devnum == Some(device_id)
                    &&& old(self)@.contains_key(device_id)
                },
                None => event.devnum matches Some(device_id) ==> match event.event_type {
                    EventType::Add => event.devnode is None || old(self)@.contains_key(device_id),
                    EventType::Change | EventType::Remove => !old(self)@.contains_key(device_id),
                    EventType::Other => true,
                },
            },
    {
        let ghost known = self@;
        match event.event_type {
            // New device
            EventType::Add => {
                if let (Some(path), Some(device_id)) = (&event.devnode, event.devnum) {
                    let replaced = self.devices.insert(device_id, copy_bytes(path));
                    assert(self@ == known.insert(device_id, path@));
                    if replaced.is_none() {
                        return Some(UdevEvent::Added { device_id, path: copy_bytes(path) });
                    }
                }
            },
            // Device removed
            EventType::Remove => {
                if let Some(device_id) = event.devnum {
                    let removed = self.devices.remove(&device_id);
                    assert(self@ == known.remove(device_id));
                    if removed.is_some() {
                        return Some(UdevEvent::Removed { device_id });
                    }
                }
            },
            // New connector
            EventType::Change => {
                if let Some(device_id) = event.devnum {
                    if self.devices.contains_key(&device_id) {
                        return Some(UdevEvent::Changed { device_id });
                    }
                }
            },
            EventType::Other => {},
        }
        None
    }

    /// Processes the events that the monitor reported, and returns what to notify of them
    pub fn process_events(&mut self, events: &Vec<MonitorEvent>) -> (notices: Vec<UdevEvent>)
        ensures
            final(self)@ == known_after_all(old(self)@, events@),
            notices@.map_values(|notice: UdevEvent| notice@) == all_noticed(old(self)@, events@),
    {
        let mut notices: Vec<UdevEvent> = Vec::new();
        let ghost said = |notice: UdevEvent| notice@;
        assert(notices@.map_values(said) == all_noticed(self@, events@.take(0)));
        let mut i: usize = 0;
        while i < events.len()
            invariant
                i <= events.len(),
                said == (|notice: UdevEvent| notice@),
                self@ == known_after_all(old(self)@, events@.take(i as int)),
                notices@.map_values(said) == all_noticed(old(self)@, events@.take(i as int)),
            decreases events.len() - i,
        {
            assert(events@.take(i + 1).drop_last() == events@.take(i as int));
            if let Some(notice) = self.process_event(&events[i]) {
                let ghost before = notices@;
                notices.push(notice);
                assert(notices@.map_values(said) == before.map_values(said).push(notice@));
            }
            i = i + 1;
        }
        assert(events@.take(i as int) == events@);
        notices
    }

    /// Get a list of DRM devices currently known to the backend
    ///
    /// You should call this once before processing any events, to get an initial snapshot of
    /// the device state. The devices are listed in no particular order.
    pub fn device_list(&self) -> (list: Vec<(DeviceId, Vec<u8>)>)
        ensures
            forall|i: int, j: int| 0 <= i < j < list@.len() ==> list@[i].0 != list@[j].0,
            forall|i: int|
                0 <= i < list@.len() ==> self@.contains_key((#[trigger] list@[i]).0)
                    && self@[list@[i].0] == list@[i].1@,
            forall|device_id: DeviceId| #[trigger]
                self@.contains_key(device_id) ==> exists|i: int|
                    0 <= i < list@.len() && (#[trigger] list@[i]).0 == device_id,
    {
        let mut list: Vec<(DeviceId, Vec<u8>)> = Vec::new();
        for entry in entries: self.devices.iter()
            invariant
                list@.len() == entries.index(),
                forall|i: int|
                    0 <= i < list@.len() ==> (#[trigger] list@[i]).0 == *entries.seq()[i].0
                        && list@[i].1@ == entries.seq()[i].1@,
                forall|i: int, j: int| 0 <= i < j < list@.len() ==> list@[i].0 != list@[j].0,
                entries.seq().no_duplicates(),
                forall|i: int|
                    0 <= i < entries.seq().len() ==> self.devices@.contains_key(
                        *(#[trigger] entries.seq()[i]).0,
                    ) && self.devices@[*entries.seq()[i].0] == *entries.seq()[i].1,
                forall|device_id: DeviceId| #[trigger]
                    self.devices@.contains_key(device_id) ==> {
                        ||| exists|i: int|
                            0 <= i < list@.len() && (#[trigger] list@[i]).0 == device_id
                        ||| exists|i: int|
                            entries.index() <= i < entries.seq().len()
                                && *(#[trigger] entries.seq()[i]).0 == device_id
                    },
        {
            let ghost before = list@;
            list.push((*entry.0, copy_bytes(entry.1)));
            assert forall|device_id: DeviceId| #[trigger]
                self.devices@.contains_key(device_id) implies {
                ||| exists|i: int| 0 <= i < list@.len() && (#[trigger] list@[i]).0 == device_id
                ||| exists|i: int|
                    entries.index() + 1 <= i < entries.seq().len()
                        && *(#[trigger] entries.seq()[i]).0 == device_id
            } by {
                if exists|i: int| 0 <= i < before.len() && (#[trigger] before[i]).0 == device_id {
                    let i = choose|i: int|
                        0 <= i < before.len() && (#[trigger] before[i]).0 == device_id;
                    assert(list@[i].0 == device_id);
                } else {
                    assert(list@[before.len() as int].0 == *entry.0);
                }
            }
        }
        list
    }
}

/// The devices that someone knows of who knew `ids` and heard `notices`
pub open spec fn ids_told(ids: Set<DeviceId>, notices: Seq<Notice>) -> Set<DeviceId>
    decreases notices.len(),
{
    if notices.len() == 0 {
        ids
    } else {
        let before = ids_told(ids, notices.drop_last());
        match notices.last() {
            Notice::Added { device_id, .. } => before.insert(device_id),
            Notice::Changed { .. } => before,
            Notice::Removed { device_id } => before.remove(device_id),
        }
    }
}

/// Whether a notice makes sense to someone who knows of `ids`: only unknown devices are
/// added, and only known ones are changed or removed
pub open spec fn makes_sense(ids: Set<DeviceId>, notice: Notice) -> bool {
    match notice {
        Notice::Added { device_id, .. } => !ids.contains(device_id),
        Notice::Changed { device_id } => ids.contains(device_id),
        Notice::Removed { device_id } => ids.contains(device_id),
    }
}

/// Whoever takes a snapshot of the devices and from then on keeps count of the devices
/// that are added and removed knows at any time of the same devices as the backend; and no
/// device is added that is known, nor changed or removed that is not.
pub proof fn law_notices_keep_up_with_the_devices(
    known: Map<DeviceId, Seq<u8>>,
    events: Seq<MonitorEvent>,
)
    ensures
        ids_told(known.dom(), all_noticed(known, events)) == known_after_all(known, events).dom(),
        forall|i: int|
            0 <= i < all_noticed(known, events).len() ==> makes_sense(
                ids_told(known.dom(), all_noticed(known, events).take(i)),
                #[trigger] all_noticed(known, events)[i],
            ),
    decreases events.len(),
{
    if events.len() > 0 {
        let earlier = events.drop_last();
        law_notices_keep_up_with_the_devices(known, earlier);
        let before = all_noticed(known, earlier);
        let all = all_noticed(known, events);
        let devices = known_after_all(known, earlier);
        if let Some(notice) = noticed(devices, events.last()) {
            assert(all == before.push(notice));
            assert(all.drop_last() == before);
            assert forall|i: int| 0 <= i < all.len() implies makes_sense(
                ids_told(known.dom(), all.take(i)),
                #[trigger] all[i],
            ) by {
                assert(all.take(i) == before.take(i));
                if i < before.len() {
                    assert(all[i] == before[i]);
                } else {
                    assert(before.take(i) == before);
                }
            }
        }
        assert(ids_told(known.dom(), all) == known_after_all(known, events).dom());
    }
}

/// A new backend knows the devices of which the number could be found out, and no others.
pub proof fn law_a_new_backend_knows_what_was_found(
    found: Seq<(Vec<u8>, Option<DeviceId>)>,
    device_id: DeviceId,
)
    ensures
        known_at_start(found).contains_key(device_id) <==> exists|i: int|
            0 <= i < found.len() && (#[trigger] found[i]).1 == Some(device_id),
    decreases found.len(),
{
    if found.len() > 0 {
        let front = found.drop_last();
        let last = found.len() - 1;
        law_a_new_backend_knows_what_was_found(front, device_id);
        if found[last].1 != Some(device_id) {
            if known_at_start(front).contains_key(device_id) {
                let i = choose|i: int|
                    0 <= i < front.len() && (#[trigger] front[i]).1 == Some(device_id);
                assert(found[i].1 == Some(device_id));
            } else {
                assert forall|i: int| 0 <= i < found.len() implies (#[trigger] found[i]).1 != Some(
                    device_id,
                ) by {
                    if i < last {
                        assert(front[i].1 != Some(device_id));
                    }
                }
            }
        }
    }
}

/// Where several paths have the number of the same device, a new backend knows the last of them.
pub proof fn law_a_new_backend_knows_the_last_path(
    found: Seq<(Vec<u8>, Option<DeviceId>)>,
    device_id: DeviceId,
    at: int,
)
    requires
        0 <= at < found.len(),
        found[at].1 == Some(device_id),
        forall|i: int| at < i < found.len() ==> (#[trigger] found[i]).1 != Some(device_id),
    ensures
        known_at_start(found).contains_key(device_id),
        known_at_start(found)[device_id] == found[at].0@,
    decreases found.len(),
{
    let front = found.drop_last();
    let last = found.len() - 1;
    if at < last {
        assert(found[last].1 != Some(device_id));
        assert(front[at] == found[at]);
        assert forall|i: int| at < i < front.len() implies (#[trigger] front[i]).1 != Some(
            device_id,
        ) by {
            assert(found[i].1 != Some(device_id));
        }
        law_a_new_backend_knows_the_last_path(front, device_id, at);
    }
}

/// A change of a known device is noticed as a change of it, the removal of a known device as its
/// removal, and the addition with a path of an unknown device as its addition with that path;
/// whatever else the event holds, and whatever path the device is known with. Nothing else is
/// noticed.
pub proof fn law_what_is_noticed(
    known: Map<DeviceId, Seq<u8>>,
    event: MonitorEvent,
    device_id: DeviceId,
    path: Seq<u8>,
)
    ensures
        noticed(known, event) == Some(Notice::Changed { device_id }) <==> {
            &&& event.event_type == EventType::Change
            &&& event.devnum == Some(device_id)
            &&& known.contains_key(device_id)
        },
        noticed(known, event) == Some(Notice::Removed { device_id }) <==> {
            &&& event.event_type == EventType::Remove
            &&& event.devnum == Some(device_id)
            &&& known.contains_key(device_id)
        },
        noticed(known, event) == Some(Notice::Added { device_id, path }) <==> {
            &&& event.event_type == EventType::Add
            &&& event.devnum == Some(device_id)
            &&& event.devnode is Some
            &&& event.devnode->0@ == path
            &&& !known.contains_key(device_id)
        },
{
}

/// After an event, a device is known if the event adds it with a path, which then is the path that
/// it is known with, or if it was known and the event does not remove it, in which case its path
/// stays.
pub proof fn law_what_is_known_after(
    known: Map<DeviceId, Seq<u8>>,
    event: MonitorEvent,
    device_id: DeviceId,
)
    ensures
        known_after(known, event).contains_key(device_id) <==> {
            ||| event.event_type == EventType::Add && event.devnum == Some(device_id)
                && event.devnode is Some
            ||| known.contains_key(device_id) && !(event.event_type == EventType::Remove
                && event.devnum == Some(device_id))
        },
        event.event_type == EventType::Add && event.devnum == Some(device_id)
            && event.devnode is Some ==> known_after(known, event)[device_id]
            == event.devnode->0@,
        known_after(known, event).contains_key(device_id) && !(event.event_type == EventType::Add
            && event.devnum == Some(device_id) && event.devnode is Some) ==> known_after(
            known,
            event,
        )[device_id] == known[device_id],
{
}

/// Processing events in two batches, one after the other, comes to the same as processing them in
/// one; a batch of one event comes to the same as the event; and without events nothing happens.
pub proof fn law_batches_of_events(
    known: Map<DeviceId, Seq<u8>>,
    first: Seq<MonitorEvent>,
    then: Seq<MonitorEvent>,
    event: MonitorEvent,
)
    ensures
        known_after_all(known, first + then) == known_after_all(
            known_after_all(known, first),
            then,
        ),
        all_noticed(known, first + then) == all_noticed(known, first) + all_noticed(
            known_after_all(known, first),
            then,
        ),
        known_after_all(known, seq![event]) == known_after(known, event),
        all_noticed(known, seq![event]) == match noticed(known, event) {
            Some(notice) => seq![notice],
            None => Seq::empty(),
        },
        known_after_all(known, Seq::empty()) == known,
        all_noticed(known, Seq::empty()) == Seq::<Notice>::empty(),
    decreases then.len(),
{
    assert(seq![event].drop_last() == Seq::<MonitorEvent>::empty());
    reveal_with_fuel(known_after_all, 2);
    reveal_with_fuel(all_noticed, 2);
    if then.len() == 0 {
        assert(first + then == first);
        assert(all_noticed(known, first) + Seq::<Notice>::empty() == all_noticed(known, first));
    } else {
        let all = first + then;
        assert(all.drop_last() == first + then.drop_last());
        assert(all.last() == then.last());
        law_batches_of_events(known, first, then.drop_last(), event);
    }
}

/// The GPUs of two scans, one after the other, are the GPUs of the first followed by those of the
/// second; and without devices there are none.
pub proof fn law_gpus_are_in_the_order_of_the_scan(
    seat: Seq<u8>,
    first: Seq<DrmDevice>,
    then: Seq<DrmDevice>,
)
    ensures
        gpus_of_seat(seat, first + then) == gpus_of_seat(seat, first) + gpus_of_seat(seat, then),
        gpus_of_seat(seat, Seq::empty()) == Seq::<Seq<u8>>::empty(),
    decreases then.len(),
{
    if then.len() == 0 {
        assert(first + then == first);
        assert(gpus_of_seat(seat, first) + Seq::<Seq<u8>>::empty() == gpus_of_seat(seat, first));
    } else {
        let all = first + then;
        assert(all.drop_last() == first + then.drop_last());
        assert(all.last() == then.last());
        law_gpus_are_in_the_order_of_the_scan(seat, first, then.drop_last());
    }
}

/// A single device with a device node is a GPU of the seat that it names, or of `seat0` if it names
/// none, and of no other seat; one without a device node is a GPU of no seat. Nothing else
/// about the device matters.
pub proof fn law_a_gpu_is_on_the_seat_that_it_names(seat: Seq<u8>, device: DrmDevice)
    ensures
        device.devnode is Some && device.seat is Some && device.seat->0@ == seat ==> gpus_of_seat(
            seat,
            seq![device],
        ) == seq![device.devnode->0@],
        device.devnode is Some && device.seat is None && seat == "seat0".spec_bytes()
            ==> gpus_of_seat(seat, seq![device]) == seq![device.devnode->0@],
        device.seat is Some && device.seat->0@ != seat ==> gpus_of_seat(seat, seq![device])
            == Seq::<Seq<u8>>::empty(),
        device.seat is None && seat != "seat0".spec_bytes() ==> gpus_of_seat(seat, seq![device])
            == Seq::<Seq<u8>>::empty(),
        device.devnode is None ==> gpus_of_seat(seat, seq![device]) == Seq::<Seq<u8>>::empty(),
{
    assert(seq![device].drop_last() == Seq::<DrmDevice>::empty());
    reveal_with_fuel(gpus_of_seat, 2);
}

/// The GPUs of a seat are the device nodes of the devices that name the seat, and of those that
/// name none if the seat is `seat0`; a device that names no seat is on the default one, and on no
/// other.
pub proof fn law_gpus_are_the_nodes_on_the_seat(
    seat: Seq<u8>,
    devices: Seq<DrmDevice>,
    path: Seq<u8>,
)
    ensures
        gpus_of_seat(seat, devices).contains(path) <==> exists|i: int|
            {
                &&& 0 <= i < devices.len()
                &&& match (#[trigger] devices[i]).seat {
                    Some(name) => name@ == seat,
                    None => seat == "seat0".spec_bytes(),
                }
                &&& devices[i].devnode is Some
                &&& devices[i].devnode->0@ == path
            },
        forall|i: int|
            0 <= i < devices.len() && (#[trigger] devices[i]).seat is None ==> (devices[i].is_on(
                seat,
            ) <==> seat == DEFAULT_SEAT.spec_bytes()),
    decreases devices.len(),
{
    if devices.len() > 0 {
        let front = devices.drop_last();
        law_gpus_are_the_nodes_on_the_seat(seat, front, path);
        let before = gpus_of_seat(seat, front);
        let gpus = gpus_of_seat(seat, devices);
        let last = devices.len() - 1;
        if before.contains(path) {
            let i = choose|i: int| 0 <= i < before.len() && before[i] == path;
            assert(gpus[i] == path);
            let j = choose|j: int|
                {
                    &&& 0 <= j < front.len()
                    &&& match (#[trigger] front[j]).seat {
                        Some(name) => name@ == seat,
                        None => seat == "seat0".spec_bytes(),
                    }
                    &&& front[j].devnode is Some
                    &&& front[j].devnode->0@ == path
                };
            assert(devices[j] == front[j]);
        } else if gpus.contains(path) {
            let i = choose|i: int| 0 <= i < gpus.len() && gpus[i] == path;
            if i < before.len() {
                assert(before[i] == path);
            }
            assert(devices[last].is_on(seat));
        } else {
            assert forall|i: int| 0 <= i < devices.len() implies !{
                &&& match (#[trigger] devices[i]).seat {
                    Some(name) => name@ == seat,
                    None => seat == "seat0".spec_bytes(),
                }
                &&& devices[i].devnode is Some
                &&& devices[i].devnode->0@ == path
            } by {
                if i < last {
                    assert(front[i] == devices[i]);
                } else if devices[last].is_on(seat) && devices[last].devnode is Some
                    && devices[last].devnode->0@ == path {
                    assert(gpus[gpus.len() - 1] == path);
                }
            }
        }
    }
}

/// The device that the machine booted with is found if there is one: the first of the scan that has
/// a device node, of which the PCI device has `1` as its attribute `boot_vga`, and that names
/// the seat, or names none if the seat is `seat0`. It is one of the GPUs of the seat.
pub proof fn law_boot_gpu_is_the_first(seat: Seq<u8>, devices: Seq<DrmDevice>)
    ensures
        match boot_gpu(seat, devices) {
            Some(path) => {
                &&& gpus_of_seat(seat, devices).contains(path)
                &&& exists|i: int|
                    {
                        &&& 0 <= i < devices.len()
                        &&& match (#[trigger] devices[i]).seat {
                            Some(name) => name@ == seat,
                            None => seat == "seat0".spec_bytes(),
                        }
                        &&& devices[i].boot_vga is Some
                        &&& devices[i].boot_vga->0@ == "1".spec_bytes()
                        &&& devices[i].devnode is Some
                        &&& devices[i].devnode->0@ == path
                        &&& forall|j: int|
                            0 <= j < i ==> !{
                                &&& match (#[trigger] devices[j]).seat {
                                    Some(name) => name@ == seat,
                                    None => seat == "seat0".spec_bytes(),
                                }
                                &&& devices[j].boot_vga is Some
                                &&& devices[j].boot_vga->0@ == "1".spec_bytes()
                                &&& devices[j].devnode is Some
                            }
                    }
            },
            None => forall|i: int|
                0 <= i < devices.len() ==> !{
                    &&& match (#[trigger] devices[i]).seat {
                        Some(name) => name@ == seat,
                        None => seat == "seat0".spec_bytes(),
                    }
                    &&& devices[i].boot_vga is Some
                    &&& devices[i].boot_vga->0@ == "1".spec_bytes()
                    &&& devices[i].devnode is Some
                },
        },
{
    lemma_boot_gpu(seat, devices);
    if boot_gpu(seat, devices) is Some {
        let path = boot_gpu(seat, devices)->0;
        let i = choose|i: int|
            {
                &&& 0 <= i < devices.len()
                &&& #[trigger] is_boot_gpu(seat, devices[i])
                &&& devices[i].devnode->0@ == path
                &&& forall|j: int| 0 <= j < i ==> !(#[trigger] is_boot_gpu(seat, devices[j]))
            };
        assert forall|j: int| 0 <= j < i implies !{
            &&& match (#[trigger] devices[j]).seat {
                Some(name) => name@ == seat,
                None => seat == "seat0".spec_bytes(),
            }
            &&& devices[j].boot_vga is Some
            &&& devices[j].boot_vga->0@ == "1".spec_bytes()
            &&& devices[j].devnode is Some
        } by {
            assert(!is_boot_gpu(seat, devices[j]));
        }
        law_gpus_are_the_nodes_on_the_seat(seat, devices, path);
    } else {
        assert forall|i: int| 0 <= i < devices.len() implies !{
            &&& match (#[trigger] devices[i]).seat {
                Some(name) => name@ == seat,
                None => seat == "seat0".spec_bytes(),
            }
            &&& devices[i].boot_vga is Some
            &&& devices[i].boot_vga->0@ == "1".spec_bytes()
            &&& devices[i].devnode is Some
        } by {
            assert(!is_boot_gpu(seat, devices[i]));
        }
    }
}

/// The device that the machine booted with is the first such device of the scan
proof fn lemma_boot_gpu(seat: Seq<u8>, devices: Seq<DrmDevice>)
    ensures
        match boot_gpu(seat, devices) {
            Some(path) => exists|i: int|
                {
                    &&& 0 <= i < devices.len()
                    &&& #[trigger] is_boot_gpu(seat, devices[i])
                    &&& devices[i].devnode->0@ == path
                    &&& forall|j: int| 0 <= j < i ==> !(#[trigger] is_boot_gpu(seat, devices[j]))
                },
            None => forall|i: int|
                0 <= i < devices.len() ==> !(#[trigger] is_boot_gpu(seat, devices[i])),
        },
    decreases devices.len(),
{
    if devices.len() > 0 {
        if is_boot_gpu(seat, devices.first()) {
            assert(is_boot_gpu(seat, devices[0]));
        } else {
            let rest = devices.drop_first();
            lemma_boot_gpu(seat, rest);
            match boot_gpu(seat, devices) {
                Some(path) => {
                    let i = choose|i: int|
                        {
                            &&& 0 <= i < rest.len()
                            &&& #[trigger] is_boot_gpu(seat, rest[i])
                            &&& rest[i].devnode->0@ == path
                            &&& forall|j: int|
                                0 <= j < i ==> !(#[trigger] is_boot_gpu(seat, rest[j]))
                        };
                    assert(is_boot_gpu(seat, devices[i + 1]));
                    assert forall|j: int| 0 <= j < i + 1 implies !(#[trigger] is_boot_gpu(
                        seat,
                        devices[j],
                    )) by {
                        if j > 0 {
                            assert(devices[j] == rest[j - 1]);
                        }
                    }
                },
                None => {
                    assert forall|i: int| 0 <= i < devices.len() implies !(
                    #[trigger] is_boot_gpu(seat, devices[i])) by {
                        if i > 0 {
                            assert(devices[i] == rest[i - 1]);
                        }
                    }
                },
            }
        }
    }
}

} // verus!
