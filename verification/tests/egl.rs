use smithay::backend::drm::egl::session::{
    DestroySurface, EglDeviceObserver, EglSurface, SessionSignal,
};
use smithay::backend::drm::eglstream::egl::{
    AtomicDrmSurface, DisplayRequest, EglStreamDevice, EglStreamDeviceBackend, EglStreamSurface,
    FallbackSurface, LegacyDrmSurface, SurfaceCreationError, SurfaceRequest, SwapStep,
};

fn surface(display: usize, surface: usize) -> Option<EglSurface> {
    Some(EglSurface { display, surface })
}

fn sorted(mut requests: Vec<DestroySurface>) -> Vec<(u32, usize, usize)> {
    let mut list: Vec<(u32, usize, usize)> = requests
        .drain(..)
        .map(|request| (request.crtc, request.display, request.surface))
        .collect();
    list.sort();
    list
}

fn observer() -> EglDeviceObserver {
    let mut observer = EglDeviceObserver::new();
    observer.surface_changed(1, surface(100, 11));
    observer.surface_changed(2, surface(100, 0));
    observer.surface_changed(3, None);
    observer.surface_changed(4, surface(200, 44));
    observer
}

#[test]
fn activation_destroys_the_surfaces_that_exist() {
    let mut observer = observer();
    assert_eq!(
        sorted(observer.activate()),
        vec![(1, 100, 11), (4, 200, 44)]
    );
    assert_eq!(sorted(observer.activate()), vec![]);
    observer.surface_changed(4, surface(200, 45));
    assert_eq!(sorted(observer.activate()), vec![(4, 200, 45)]);
}

#[test]
fn activation_after_the_device_is_gone() {
    let mut observer = observer();
    observer.device_dropped();
    assert_eq!(sorted(observer.activate()), vec![]);
    observer.surface_changed(4, surface(200, 45));
    assert_eq!(sorted(observer.activate()), vec![]);
}

#[test]
fn signals_that_activate() {
    assert_eq!(
        sorted(observer().signal(&SessionSignal::ActivateSession)),
        vec![(1, 100, 11), (4, 200, 44)]
    );
    assert_eq!(
        sorted(observer().signal(&SessionSignal::ActivateDevice {
            major: 226,
            minor: 0,
            new_fd: None
        })),
        vec![(1, 100, 11), (4, 200, 44)]
    );
    let mut observer = observer();
    assert_eq!(sorted(observer.signal(&SessionSignal::PauseSession)), vec![]);
    assert_eq!(
        sorted(observer.signal(&SessionSignal::PauseDevice {
            major: 226,
            minor: 0
        })),
        vec![]
    );
    assert_eq!(
        sorted(observer.activate()),
        vec![(1, 100, 11), (4, 200, 44)]
    );
}

#[test]
fn display_of_a_device() {
    let asked = std::cell::RefCell::new(Vec::new());
    let request = EglStreamDeviceBackend::<()>::get_display(
        5,
        vec![1, 2],
        |extension: &str| {
            asked.borrow_mut().push(extension.to_string());
            true
        },
        true,
    );
    assert_eq!(
        request,
        DisplayRequest::GetPlatformDisplay {
            platform: 0x313F,
            display: 5,
            attribs: vec![1, 2]
        }
    );
    assert_eq!(*asked.borrow(), vec!["EGL_EXT_platform_device".to_string()]);
}

#[test]
fn display_without_support() {
    let none = DisplayRequest::NoDisplay;
    assert_eq!(
        EglStreamDeviceBackend::<()>::get_display(5, vec![], |_: &str| false, true),
        none
    );
    assert_eq!(
        EglStreamDeviceBackend::<()>::get_display(5, vec![], |_: &str| true, false),
        none
    );
    assert_eq!(
        EglStreamDeviceBackend::<()>::display_request(5, vec![], false, false),
        none
    );
}

#[test]
fn stream_devices() {
    let device = EglStreamDevice {
        dev: 0xabc,
        raw_fd: 17,
    };
    assert!(device.is_backend());
    assert_eq!(device.ptr::<()>(), Ok(0xabc));
    assert_eq!(device.attributes(), vec![0x333C, 17, 0x3038]);
    assert_eq!(device.surface_type(), 0x0800);
}

const ATOMIC: AtomicDrmSurface = AtomicDrmSurface {
    crtc: 40,
    primary: 31,
    commit_pending: true,
};

const LEGACY: LegacyDrmSurface = LegacyDrmSurface {
    crtc: 41,
    commit_pending: false,
};

#[test]
fn streams_are_output_to_planes_and_crtcs() {
    let atomic: EglStreamSurface<AtomicDrmSurface, u8> = EglStreamSurface {
        crtc: ATOMIC,
        commit_buffer: None,
    };
    assert_eq!(
        atomic.create(1, 2, vec![3]),
        SurfaceRequest {
            display: 1,
            config_id: 2,
            surface_attribs: vec![3],
            output_attributes: vec![0x3235, 31, 0x3038]
        }
    );
    assert!(atomic.needs_recreation());
    let legacy: EglStreamSurface<LegacyDrmSurface, u8> = EglStreamSurface {
        crtc: LEGACY,
        commit_buffer: None,
    };
    assert_eq!(
        legacy.create(1, 2, vec![]).output_attributes,
        vec![0x3234, 41, 0x3038]
    );
    assert!(!legacy.needs_recreation());
}

#[test]
fn fallback_surfaces_are_what_they_fell_back_to() {
    let preference: EglStreamSurface<FallbackSurface, u8> = EglStreamSurface {
        crtc: FallbackSurface::Preference(ATOMIC),
        commit_buffer: None,
    };
    assert_eq!(
        preference.create(1, 2, vec![]).output_attributes,
        vec![0x3235, 31, 0x3038]
    );
    assert!(preference.needs_recreation());
    let mut fallback = EglStreamSurface {
        crtc: FallbackSurface::Fallback(LEGACY),
        commit_buffer: Some((7u8, 70)),
    };
    assert_eq!(
        fallback.create(1, 2, vec![]).output_attributes,
        vec![0x3234, 41, 0x3038]
    );
    assert!(!fallback.needs_recreation());
    assert_eq!(
        fallback.swap_buffers(),
        vec![
            SwapStep::DestroyFramebuffer(70),
            SwapStep::DestroyDumbBuffer(7u8),
            SwapStep::Flip(41)
        ]
    );
}

#[test]
fn errors_of_the_creation() {
    let atomic: EglStreamSurface<AtomicDrmSurface, u8> = EglStreamSurface {
        crtc: ATOMIC,
        commit_buffer: None,
    };
    assert_eq!(atomic.created::<&str>(Ok(9)), Ok(9));
    assert_eq!(
        atomic.created(Err("gone")),
        Err(SurfaceCreationError::NativeSurfaceCreationFailed("gone"))
    );
}

#[test]
fn buffers_are_destroyed_once() {
    let mut surface = EglStreamSurface {
        crtc: ATOMIC,
        commit_buffer: Some(("buffer", 70)),
    };
    assert_eq!(
        surface.swap_buffers(),
        vec![
            SwapStep::DestroyFramebuffer(70),
            SwapStep::DestroyDumbBuffer("buffer"),
            SwapStep::Flip(40)
        ]
    );
    assert_eq!(surface.swap_buffers(), vec![SwapStep::Flip(40)]);
}
