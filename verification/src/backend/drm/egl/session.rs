//! Support to register an `EglDevice` to an open session.
//!
//! When a session gets activated the EGL surfaces of the device are not valid any longer. They are
//! to be destroyed, and are created anew the next time they are needed.

use std::collections::HashMap;
use vstd::prelude::*;

verus! {

broadcast use vstd::std_specs::hash::group_hash_axioms;

/// Identifier of a crtc
pub type CrtcId = u32;

/// Signals that can be sent by a session
#[derive(Copy, Clone, Debug, PartialEq, Eq)]
pub enum SessionSignal {
    /// Session shall be considered paused
    PauseSession,
    /// Session got active again
    ActivateSession,
    /// Device shall be considered paused, and any use of it shall be halted
    PauseDevice {
        /// Major number of the device
        major: u32,
        /// Minor number of the device
        minor: u32,
    },
    /// Device got active again
    ActivateDevice {
        /// Major number of the device
        major: u32,
        /// Minor number of the device
        minor: u32,
        /// New file descriptor of the device, if it got one
        new_fd: Option<i32>,
    },
}

impl SessionSignal {
    /// Whether the signal tells that the session, or the device, got active again
    pub open spec fn activates(self) -> bool {
        self is ActivateSession || self is ActivateDevice
    }
}

/// The handles of an EGL surface
#[derive(Copy, Clone, Debug, PartialEq, Eq, Structural)]
pub struct EglSurface {
    /// The display that the surface belongs to
    pub display: usize,
    /// The surface itself, null if there is none at the moment
    pub surface: usize,
}

impl EglSurface {
    /// The surface once it has been given up
    pub open spec fn given_up(self) -> EglSurface {
        EglSurface { surface: 0, ..self }
    }
}

/// The request to destroy an EGL surface
#[derive(Copy, Clone, Debug, PartialEq, Eq, Structural)]
pub struct DestroySurface {
    /// The crtc that the surface was displayed by
    pub crtc: CrtcId,
    /// The display that the surface belongs to
    pub display: usize,
    /// The surface
    pub surface: usize,
}

/// The surfaces of a device after its activation: all of those that still exist are given up
pub open spec fn activated(backends: Map<CrtcId, Option<EglSurface>>) -> Map<
    CrtcId,
    Option<EglSurface>,
> {
    backends.map_values(
        |backend: Option<EglSurface>|
            match backend {
                Some(surface) => Some(surface.given_up()),
                None => None,
            },
    )
}

/// Whether the request is to destroy a surface that exists and is not null
pub open spec fn to_destroy(
    backends: Map<CrtcId, Option<EglSurface>>,
    request: DestroySurface,
) -> bool {
    &&& backends.contains_key(request.crtc)
    &&& backends[request.crtc] == Some(
        EglSurface { display: request.display, surface: request.surface },
    )
    &&& request.surface != 0
}

/// Whether the requests are to destroy each of the surfaces that exist and are not null once
pub open spec fn destroys_all(
    backends: Map<CrtcId, Option<EglSurface>>,
    requests: Seq<DestroySurface>,
) -> bool {
    &&& requests.no_duplicates()
    &&& forall|request: DestroySurface| #[trigger]
        requests.contains(request) <==> to_destroy(backends, request)
}

/// Going on with the surface of another crtc
proof fn lemma_requests(
    backends: Map<CrtcId, Option<EglSurface>>,
    done: Map<CrtcId, Option<EglSurface>>,
    before: Seq<DestroySurface>,
    crtc: CrtcId,
    after: Seq<DestroySurface>,
)
    requires
        backends.contains_key(crtc),
        !done.contains_key(crtc),
        before.no_duplicates(),
        forall|request: DestroySurface| #[trigger]
            before.contains(request) <==> to_destroy(backends, request) && done.contains_key(
                request.crtc,
            ),
        after == match backends[crtc] {
            Some(old) if old.surface != 0 => before.push(
                DestroySurface { crtc, display: old.display, surface: old.surface },
            ),
            _ => before,
        },
    ensures
        after.no_duplicates(),
        forall|request: DestroySurface| #[trigger]
            after.contains(request) <==> to_destroy(backends, request) && (done.contains_key(
                request.crtc,
            ) || request.crtc == crtc),
{
    assert forall|request: DestroySurface| #[trigger] after.contains(request) <==> to_destroy(
        backends,
        request,
    ) && (done.contains_key(request.crtc) || request.crtc == crtc) by {
        if before.contains(request) {
            let i = choose|i: int| 0 <= i < before.len() && before[i] == request;
            assert(after[i] == request);
        } else if after.contains(request) {
            let i = choose|i: int| 0 <= i < after.len() && after[i] == request;
            if i < before.len() {
                assert(before[i] == request);
            }
        } else if to_destroy(backends, request) && request.crtc == crtc {
            assert(after[before.len() as int] == request);
        }
    }
    assert forall|i: int, j: int| 0 <= i < j < after.len() implies after[i] != after[j] by {
        if j == before.len() {
            assert(before.contains(before[i]));
        }
    }
}

/// Observer of the session, linked to the `EglDevice` it was
/// created from.
///
/// It knows the surfaces that the device has created, by the crtcs that display them, until the
/// device is dropped. Of a surface that is dropped only the crtc is known.
pub struct EglDeviceObserver {
    backends: Option<HashMap<CrtcId, Option<EglSurface>>>,
}

impl View for EglDeviceObserver {
    type V = Option<Map<CrtcId, Option<EglSurface>>>;

    closed spec fn view(&self) -> Option<Map<CrtcId, Option<EglSurface>>> {
        match self.backends {
            Some(backends) => Some(backends@),
            None => None,
        }
    }
}

impl EglDeviceObserver {
    /// Creates an observer of a device that has no surfaces yet
    pub fn new() -> (observer: EglDeviceObserver)
        ensures
            observer@ == Some(Map::<CrtcId, Option<EglSurface>>::empty()),
    {
        EglDeviceObserver { backends: Some(HashMap::new()) }
    }

    /// Takes note of the state of the surface for a crtc, `None` once it has been dropped
    ///
    /// Does nothing once the device has been dropped.
    pub fn surface_changed(&mut self, crtc: CrtcId, surface: Option<EglSurface>)
        ensures
            final(self)@ == match old(self)@ {
                Some(backends) => Some(backends.insert(crtc, surface)),
                None => None,
            },
    {
        if let Some(mut backends) = self.backends.take() {
            backends.insert(crtc, surface);
            self.backends = Some(backends);
        }
    }

    /// Takes note that the device has been dropped, and its surfaces with it
    pub fn device_dropped(&mut self)
        ensures
            final(self)@ is None,
    {
        self.backends = None;
    }

    /// Reacts to a signal of the session: the device is activated when the session, or a
    /// device, got active again
    pub fn signal(&mut self, signal: &SessionSignal) -> (requests: Vec<DestroySurface>)
        ensures
            match old(self)@ {
                Some(backends) if signal.activates() => {
                    &&& final(self)@ == Some(activated(backends))
                    &&& destroys_all(backends, requests@)
                },
                _ => {
                    &&& final(self)@ == old(self)@
                    &&& requests@ == Seq::<DestroySurface>::empty()
                },
            },
    {
        match signal {
            SessionSignal::ActivateSession | SessionSignal::ActivateDevice { .. } => {
                self.activate()
            },
            _ => Vec::new(),
        }
    }

    /// Gives up all the surfaces of the device, and returns those that are to be destroyed
    pub fn activate(&mut self) -> (requests: Vec<DestroySurface>)
        ensures
            match old(self)@ {
                Some(backends) => {
                    &&& final(self)@ == Some(activated(backends))
                    &&& destroys_all(backends, requests@)
                },
                None => {
                    &&& final(self)@ is None
                    &&& requests@ == Seq::<DestroySurface>::empty()
                },
            },
    {
        let mut requests: Vec<DestroySurface> = Vec::new();
        if let Some(backends) = self.backends.take() {
            let mut after: HashMap<CrtcId, Option<EglSurface>> = HashMap::new();
            for entry in entries: backends.iter()
                invariant
                    entries.seq().no_duplicates(),
                    forall|i: int|
                        0 <= i < entries.seq().len() ==> backends@.contains_key(
                            *(#[trigger] entries.seq()[i]).0,
                        ) && backends@[*entries.seq()[i].0] == *entries.seq()[i].1,
                    forall|crtc: CrtcId| #[trigger]
                        backends@.contains_key(crtc) ==> after@.contains_key(crtc) || exists|i: int|
                            entries.index() <= i < entries.seq().len()
                                && *(#[trigger] entries.seq()[i]).0 == crtc,
                    forall|crtc: CrtcId| #[trigger]
                        after@.contains_key(crtc) ==> {
                            &&& backends@.contains_key(crtc)
                            &&& after@[crtc] == activated(backends@)[crtc]
                            &&& exists|i: int|
                                0 <= i < entries.index() && *(#[trigger] entries.seq()[i]).0
                                    == crtc
                        },
                    requests@.no_duplicates(),
                    forall|request: DestroySurface| #[trigger]
                        requests@.contains(request) <==> to_destroy(backends@, request)
                            && after@.contains_key(request.crtc),
            {
                let crtc: CrtcId = *entry.0;
                let ghost after_before = after@;
                let ghost requests_before = requests@;
                proof {
                    if after_before.contains_key(crtc) {
                        let i = choose|i: int|
                            0 <= i < entries.index() && *(#[trigger] entries.seq()[i]).0 == crtc;
                        assert(entries.seq()[i] == entries.seq()[entries.index() as int]);
                    }
                }
                match *entry.1 {
                    Some(old) => {
                        if old.surface != 0 {
                            requests.push(
                                DestroySurface { crtc, display: old.display, surface: old.surface },
                            );
                        }
                        after.insert(crtc, Some(EglSurface { display: old.display, surface: 0 }));
                    },
                    None => {
                        after.insert(crtc, None);
                    },
                }
                proof {
                    lemma_requests(backends@, after_before, requests_before, crtc, requests@);
                }
            }
            assert(after@ == activated(backends@));
            self.backends = Some(after);
        }
        requests
    }
}

/// That the session or a device got active again activates the device, whatever the numbers of the
/// device and whether it has a new file descriptor; that one is paused does not.
pub proof fn law_signals_that_activate(major: u32, minor: u32, new_fd: Option<i32>)
    ensures
        SessionSignal::ActivateSession.activates(),
        (SessionSignal::ActivateDevice { major, minor, new_fd }).activates(),
        !SessionSignal::PauseSession.activates(),
        !(SessionSignal::PauseDevice { major, minor }).activates(),
{
}

/// An activation keeps the crtcs and the displays, and turns every surface that still exists null;
/// of a surface that was dropped it makes nothing else.
pub proof fn law_activation_turns_surfaces_null(
    backends: Map<CrtcId, Option<EglSurface>>,
    crtc: CrtcId,
    display: usize,
    surface: usize,
)
    ensures
        activated(backends).contains_key(crtc) <==> backends.contains_key(crtc),
        backends.contains_key(crtc) && backends[crtc] == Some(EglSurface { display, surface })
            ==> activated(backends)[crtc] == Some(EglSurface { display, surface: 0 }),
        backends.contains_key(crtc) && backends[crtc] is None ==> activated(backends)[crtc] is None,
{
}

/// An activation asks to destroy, on its display, every surface that still exists and is not null,
/// and nothing else; there is at most one request for each crtc.
pub proof fn law_activation_destroys_each_surface_once(
    backends: Map<CrtcId, Option<EglSurface>>,
    requests: Seq<DestroySurface>,
    crtc: CrtcId,
    display: usize,
    surface: usize,
)
    requires
        destroys_all(backends, requests),
    ensures
        requests.contains(DestroySurface { crtc, display, surface }) <==> {
            &&& backends.contains_key(crtc)
            &&& backends[crtc] == Some(EglSurface { display, surface })
            &&& surface != 0
        },
        forall|i: int, j: int|
            0 <= i < j < requests.len() ==> requests[i].crtc != requests[j].crtc,
{
    assert forall|i: int, j: int| 0 <= i < j < requests.len() implies requests[i].crtc
        != requests[j].crtc by {
        assert(requests.contains(requests[i]));
        assert(requests.contains(requests[j]));
        assert(to_destroy(backends, requests[i]) && to_destroy(backends, requests[j]));
    }
}

/// After an activation no surface is left to destroy, and activating again changes nothing.
pub proof fn law_activation_leaves_nothing_to_destroy(
    backends: Map<CrtcId, Option<EglSurface>>,
    requests: Seq<DestroySurface>,
)
    ensures
        activated(activated(backends)) == activated(backends),
        destroys_all(activated(backends), requests) <==> requests == Seq::<DestroySurface>::empty(),
{
    assert(activated(activated(backends)) == activated(backends));
    if destroys_all(activated(backends), requests) {
        if requests.len() > 0 {
            assert(requests.contains(requests[0]));
            assert(to_destroy(activated(backends), requests[0]));
        }
        assert(requests == Seq::<DestroySurface>::empty());
    }
}

} // verus!
