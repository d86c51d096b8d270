use smithay::backend::udev::{
    all_gpus, primary_gpu, DeviceId, DrmDevice, EventType, GpuSearch, MonitorEvent, UdevBackend,
    UdevEvent, DEFAULT_SEAT, DRM_SUBSYSTEM, DRM_SYSNAME,
};

fn bytes(text: &str) -> Vec<u8> {
    text.as_bytes().to_vec()
}

fn device(seat: Option<&str>, boot_vga: Option<&str>, devnode: Option<&str>) -> DrmDevice {
    DrmDevice {
        seat: seat.map(bytes),
        boot_vga: boot_vga.map(bytes),
        devnode: devnode.map(bytes),
    }
}

fn event(event_type: EventType, devnum: Option<DeviceId>, devnode: Option<&str>) -> MonitorEvent {
    MonitorEvent {
        event_type,
        devnum,
        devnode: devnode.map(bytes),
    }
}

fn found(search: GpuSearch) -> Option<Vec<u8>> {
    match search {
        GpuSearch::Found(path) => path,
        GpuSearch::ScanAgain => panic!("the search goes on"),
    }
}

fn sorted(backend: &UdevBackend) -> Vec<(DeviceId, Vec<u8>)> {
    let mut list = backend.device_list();
    list.sort();
    list
}

#[test]
fn what_is_scanned_for() {
    assert_eq!(DRM_SUBSYSTEM, "drm");
    assert_eq!(DRM_SYSNAME, "card[0-9]*");
    assert_eq!(DEFAULT_SEAT, "seat0");
}

#[test]
fn gpus_of_a_seat() {
    let devices = vec![
        device(Some("seat1"), None, Some("/dev/dri/card0")),
        device(None, None, Some("/dev/dri/card1")),
        device(Some("seat0"), None, None),
        device(Some("seat0"), None, Some("/dev/dri/card3")),
    ];
    assert_eq!(
        all_gpus("seat0", &devices),
        vec![bytes("/dev/dri/card1"), bytes("/dev/dri/card3")]
    );
    assert_eq!(all_gpus("seat1", &devices), vec![bytes("/dev/dri/card0")]);
    assert_eq!(all_gpus("seat2", &devices), Vec::<Vec<u8>>::new());
    assert_eq!(all_gpus("seat", &devices), Vec::<Vec<u8>>::new());
}

#[test]
fn names_of_seats_need_not_be_text() {
    let devices = vec![DrmDevice {
        seat: Some(vec![0xff, 0xfe]),
        boot_vga: None,
        devnode: Some(vec![0x2f, 0xff]),
    }];
    assert_eq!(all_gpus("seat0", &devices), Vec::<Vec<u8>>::new());
}

#[test]
fn primary_gpu_is_the_one_booted_with() {
    let devices = vec![
        device(None, Some("0"), Some("/dev/dri/card0")),
        device(Some("seat1"), Some("1"), Some("/dev/dri/card1")),
        device(None, Some("1"), None),
        device(None, Some("1"), Some("/dev/dri/card3")),
        device(None, Some("1"), Some("/dev/dri/card4")),
    ];
    assert_eq!(
        found(primary_gpu("seat0", &devices, None)),
        Some(bytes("/dev/dri/card3"))
    );
    assert_eq!(
        found(primary_gpu("seat1", &devices, None)),
        Some(bytes("/dev/dri/card1"))
    );
}

#[test]
fn without_one_it_is_the_first_of_another_scan() {
    let devices = vec![
        device(None, Some("0"), Some("/dev/dri/card0")),
        device(None, Some("11"), Some("/dev/dri/card1")),
        device(None, None, Some("/dev/dri/card2")),
    ];
    let again = vec![
        device(Some("seat1"), None, Some("/dev/dri/card5")),
        device(None, None, Some("/dev/dri/card6")),
    ];
    match primary_gpu("seat0", &devices, None) {
        GpuSearch::ScanAgain => {}
        GpuSearch::Found(_) => panic!("nothing is booted with"),
    }
    assert_eq!(
        found(primary_gpu("seat0", &devices, Some(&again))),
        Some(bytes("/dev/dri/card6"))
    );
    assert_eq!(found(primary_gpu("seat2", &devices, Some(&again))), None);
}

#[test]
fn primary_gpu_is_one_of_all() {
    let devices = vec![
        device(None, None, Some("/dev/dri/card0")),
        device(None, Some("1"), Some("/dev/dri/card1")),
    ];
    let primary = found(primary_gpu("seat0", &devices, Some(&devices))).unwrap();
    assert!(all_gpus("seat0", &devices).contains(&primary));
}

#[test]
fn devices_without_a_number_are_skipped() {
    let backend = UdevBackend::new(vec![
        (bytes("/dev/dri/card0"), Some(10)),
        (bytes("/dev/dri/card1"), None),
        (bytes("/dev/dri/card2"), Some(12)),
        (bytes("/dev/dri/card3"), Some(10)),
    ]);
    assert_eq!(
        sorted(&backend),
        vec![
            (10, bytes("/dev/dri/card3")),
            (12, bytes("/dev/dri/card2"))
        ]
    );
    assert_eq!(UdevBackend::new(vec![]).device_list(), vec![]);
}

#[test]
fn added_devices() {
    let mut backend = UdevBackend::new(vec![]);
    assert_eq!(
        backend.process_event(&event(EventType::Add, Some(3), Some("/dev/a"))),
        Some(UdevEvent::Added {
            device_id: 3,
            path: bytes("/dev/a")
        })
    );
    // known already: only the path is replaced
    assert_eq!(
        backend.process_event(&event(EventType::Add, Some(3), Some("/dev/b"))),
        None
    );
    assert_eq!(sorted(&backend), vec![(3, bytes("/dev/b"))]);
    assert_eq!(
        backend.process_event(&event(EventType::Add, None, Some("/dev/c"))),
        None
    );
    assert_eq!(backend.process_event(&event(EventType::Add, Some(4), None)), None);
    assert_eq!(sorted(&backend), vec![(3, bytes("/dev/b"))]);
}

#[test]
fn removed_devices() {
    let mut backend = UdevBackend::new(vec![(bytes("/dev/a"), Some(3))]);
    assert_eq!(backend.process_event(&event(EventType::Remove, Some(4), None)), None);
    assert_eq!(backend.process_event(&event(EventType::Remove, None, None)), None);
    assert_eq!(
        backend.process_event(&event(EventType::Remove, Some(3), None)),
        Some(UdevEvent::Removed { device_id: 3 })
    );
    assert_eq!(backend.process_event(&event(EventType::Remove, Some(3), None)), None);
    assert_eq!(backend.device_list(), vec![]);
}

#[test]
fn changed_devices() {
    let mut backend = UdevBackend::new(vec![(bytes("/dev/a"), Some(3))]);
    assert_eq!(
        backend.process_event(&event(EventType::Change, Some(3), Some("/dev/z"))),
        Some(UdevEvent::Changed { device_id: 3 })
    );
    assert_eq!(backend.process_event(&event(EventType::Change, Some(4), None)), None);
    assert_eq!(backend.process_event(&event(EventType::Change, None, None)), None);
    assert_eq!(sorted(&backend), vec![(3, bytes("/dev/a"))]);
}

#[test]
fn other_events() {
    let mut backend = UdevBackend::new(vec![(bytes("/dev/a"), Some(3))]);
    assert_eq!(
        backend.process_event(&event(EventType::Other, Some(3), Some("/dev/z"))),
        None
    );
    assert_eq!(sorted(&backend), vec![(3, bytes("/dev/a"))]);
}

#[test]
fn a_snapshot_and_the_notices_tell_all_devices() {
    let mut backend = UdevBackend::new(vec![(bytes("/dev/a"), Some(1)), (bytes("/dev/b"), Some(2))]);
    let mut ids: Vec<DeviceId> = backend.device_list().into_iter().map(|(id, _)| id).collect();
    let notices = backend.process_events(&vec![
        event(EventType::Remove, Some(1), None),
        event(EventType::Remove, Some(1), None),
        event(EventType::Add, Some(5), Some("/dev/e")),
        event(EventType::Change, Some(2), None),
        event(EventType::Change, Some(1), None),
        event(EventType::Add, Some(1), Some("/dev/f")),
        event(EventType::Add, Some(2), Some("/dev/g")),
    ]);
    assert_eq!(
        notices,
        vec![
            UdevEvent::Removed { device_id: 1 },
            UdevEvent::Added {
                device_id: 5,
                path: bytes("/dev/e")
            },
            UdevEvent::Changed { device_id: 2 },
            UdevEvent::Added {
                device_id: 1,
                path: bytes("/dev/f")
            },
        ]
    );
    for notice in notices {
        match notice {
            UdevEvent::Added { device_id, .. } => {
                assert!(!ids.contains(&device_id));
                ids.push(device_id);
            }
            UdevEvent::Changed { device_id } => assert!(ids.contains(&device_id)),
            UdevEvent::Removed { device_id } => {
                assert!(ids.contains(&device_id));
                ids.retain(|id| *id != device_id);
            }
        }
    }
    ids.sort();
    let known: Vec<DeviceId> = sorted(&backend).into_iter().map(|(id, _)| id).collect();
    assert_eq!(ids, known);
    assert_eq!(known, vec![1, 2, 5]);
}
