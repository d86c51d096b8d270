//! Egl native display and native surface support for [`EglStreamDevice`] and
//! [`EglStreamSurface`].
//!
//! Handles of EGL objects are addresses, null where there is no object. Handles of DRM
//! objects are the numbers that the kernel gave them.

use std::marker::PhantomData;
use vstd::prelude::*;

verus! {

/// `EGL_NONE`, which ends a list of attributes
pub const NONE: u32 = 0x3038;

/// `EGL_STREAM_BIT_KHR`
pub const STREAM_BIT_KHR: u32 = 0x0800;

/// `EGL_PLATFORM_DEVICE_EXT`
pub const PLATFORM_DEVICE_EXT: u32 = 0x313F;

/// `EGL_DRM_MASTER_FD_EXT`
pub const DRM_MASTER_FD_EXT: u32 = 0x333C;

/// `EGL_DRM_CRTC_EXT`
pub const DRM_CRTC_EXT: u32 = 0x3234;

/// `EGL_DRM_PLANE_EXT`
pub const DRM_PLANE_EXT: u32 = 0x3235;

/// The extension that displays of devices need
pub const PLATFORM_DEVICE_EXTENSION: &'static str = "EGL_EXT_platform_device";

/// How to get the EGL display of a device
#[derive(Debug, PartialEq, Eq)]
pub enum DisplayRequest {
    /// Call `eglGetPlatformDisplayEXT` with these arguments
    GetPlatformDisplay {
        /// The platform
        platform: u32,
        /// The native display
        display: usize,
        /// The attributes of the display
        attribs: Vec<i32>,
    },
    /// There is none: it is `EGL_NO_DISPLAY`
    NoDisplay,
}

impl DisplayRequest {
    /// Whether this is how to get the display, given whether its extension is there and whether
    /// `eglGetPlatformDisplayEXT` is loaded
    pub open spec fn is_for(
        self,
        display: usize,
        attribs: Seq<i32>,
        has_extension: bool,
        is_loaded: bool,
    ) -> bool {
        if has_extension && is_loaded {
            self matches DisplayRequest::GetPlatformDisplay {
                platform,
                display: native,
                attribs: given,
            } && platform == PLATFORM_DEVICE_EXT && native == display && given@ == attribs
        } else {
            self is NoDisplay
        }
    }
}

/// Egl Device backend type
pub struct EglStreamDeviceBackend<D> {
    _userdata: PhantomData<D>,
}

impl<D> EglStreamDeviceBackend<D> {
    /// Decides how to get the EGL display of a device
    ///
    /// `has_dp_extension` tells whether EGL supports an extension, and `is_loaded` whether
    /// `eglGetPlatformDisplayEXT` is loaded.
    pub fn get_display<F>(
        display: usize,
        attribs: Vec<i32>,
        has_dp_extension: F,
        is_loaded: bool,
    ) -> (request: DisplayRequest) where F: Fn(&str) -> bool
        requires
            call_requires(has_dp_extension, (PLATFORM_DEVICE_EXTENSION,)),
        ensures
            exists|has_extension: bool|
                {
                    &&& #[trigger] call_ensures(
                        has_dp_extension,
                        (PLATFORM_DEVICE_EXTENSION,),
                        has_extension,
                    )
                    &&& request.is_for(display, attribs@, has_extension, is_loaded)
                },
    {
        let has_extension = has_dp_extension(PLATFORM_DEVICE_EXTENSION);
        Self::display_request(display, attribs, has_extension, is_loaded)
    }

    /// Decides how to get the EGL display of a device, given whether EGL supports
    /// [`PLATFORM_DEVICE_EXTENSION`]
    pub fn display_request(
        display: usize,
        attribs: Vec<i32>,
        has_extension: bool,
        is_loaded: bool,
    ) -> (request: DisplayRequest)
        ensures
            request.is_for(display, attribs@, has_extension, is_loaded),
    {
        if has_extension && is_loaded {
            DisplayRequest::GetPlatformDisplay { platform: PLATFORM_DEVICE_EXT, display, attribs }
        } else {
            DisplayRequest::NoDisplay
        }
    }
}

/// A device that is driven through EGL streams
#[derive(Copy, Clone, Debug, PartialEq, Eq, Structural)]
pub struct EglStreamDevice {
    /// The EGL device
    pub dev: usize,
    /// The file descriptor of the DRM device
    pub raw_fd: i32,
}

impl EglStreamDevice {
    /// Returns if the display can be used with this backend: it always can
    pub fn is_backend(&self) -> (is: bool)
        ensures
            is,
    {
        true
    }

    /// Returns the native display, which is the EGL device
    pub fn ptr<E>(&self) -> (display: Result<usize, E>)
        ensures
            display == Ok::<usize, E>(self.dev),
    {
        Ok(self.dev)
    }

    /// Returns the attributes to create the display with
    pub fn attributes(&self) -> (attributes: Vec<i32>)
        ensures
            attributes@ == seq![DRM_MASTER_FD_EXT as i32, self.raw_fd, NONE as i32],
    {
        vec![DRM_MASTER_FD_EXT as i32, self.raw_fd, NONE as i32]
    }

    /// Returns the type of the surfaces of the display
    pub fn surface_type(&self) -> (bits: i32)
        ensures
            bits == STREAM_BIT_KHR,
    {
        STREAM_BIT_KHR as i32
    }
}

/// What a stream is output to: the attribute that names it, and its value
pub struct OutputTarget {
    pub attribute: u32,
    pub id: u32,
}

/// A surface of a DRM device
pub trait DrmSurface {
    /// What the stream of the surface is output to
    spec fn target(&self) -> OutputTarget;

    /// The crtc that displays the surface
    spec fn displayed_by(&self) -> u32;

    /// Whether the next commit changes the state of the crtc
    spec fn changes_pending(&self) -> bool;

    /// The attribute and the value that select what the stream is output to
    fn output_target(&self) -> (target: OutputTarget)
        ensures
            target == self.target(),
    ;

    /// The crtc that displays the surface
    fn crtc(&self) -> (crtc: u32)
        ensures
            crtc == self.displayed_by(),
    ;

    /// Whether the next commit changes the state of the crtc
    fn commit_pending(&self) -> (pending: bool)
        ensures
            pending == self.changes_pending(),
    ;
}

/// A surface of a device that uses atomic modesetting: its stream is output to a plane
#[derive(Copy, Clone, Debug, PartialEq, Eq, Structural)]
pub struct AtomicDrmSurface {
    /// The crtc that displays the surface
    pub crtc: u32,
    /// The primary plane of the crtc
    pub primary: u32,
    /// Whether the next commit changes the state of the crtc
    pub commit_pending: bool,
}

/// A surface of a device that uses legacy modesetting: its stream is output to a crtc
#[derive(Copy, Clone, Debug, PartialEq, Eq, Structural)]
pub struct LegacyDrmSurface {
    /// The crtc that displays the surface
    pub crtc: u32,
    /// Whether the next commit changes the state of the crtc
    pub commit_pending: bool,
}

/// A surface of a device that prefers atomic modesetting, and falls back to legacy modesetting
#[derive(Copy, Clone, Debug, PartialEq, Eq, Structural)]
pub enum FallbackSurface {
    /// Atomic modesetting is used
    Preference(AtomicDrmSurface),
    /// Legacy modesetting is used
    Fallback(LegacyDrmSurface),
}

impl DrmSurface for AtomicDrmSurface {
    open spec fn target(&self) -> OutputTarget {
        OutputTarget { attribute: DRM_PLANE_EXT, id: self.primary }
    }

    open spec fn displayed_by(&self) -> u32 {
        self.crtc
    }

    open spec fn changes_pending(&self) -> bool {
        self.commit_pending
    }

    fn output_target(&self) -> OutputTarget {
        OutputTarget { attribute: DRM_PLANE_EXT, id: self.primary }
    }

    fn crtc(&self) -> u32 {
        self.crtc
    }

    fn commit_pending(&self) -> bool {
        self.commit_pending
    }
}

impl DrmSurface for LegacyDrmSurface {
    open spec fn target(&self) -> OutputTarget {
        OutputTarget { attribute: DRM_CRTC_EXT, id: self.crtc }
    }

    open spec fn displayed_by(&self) -> u32 {
        self.crtc
    }

    open spec fn changes_pending(&self) -> bool {
        self.commit_pending
    }

    fn output_target(&self) -> OutputTarget {
        OutputTarget { attribute: DRM_CRTC_EXT, id: self.crtc }
    }

    fn crtc(&self) -> u32 {
        self.crtc
    }

    fn commit_pending(&self) -> bool {
        self.commit_pending
    }
}

impl DrmSurface for FallbackSurface {
    open spec fn target(&self) -> OutputTarget {
        match *self {
            FallbackSurface::Preference(dev) => dev.target(),
            FallbackSurface::Fallback(dev) => dev.target(),
        }
    }

    open spec fn displayed_by(&self) -> u32 {
        match *self {
            FallbackSurface::Preference(dev) => dev.displayed_by(),
            FallbackSurface::Fallback(dev) => dev.displayed_by(),
        }
    }

    open spec fn changes_pending(&self) -> bool {
        match *self {
            FallbackSurface::Preference(dev) => dev.changes_pending(),
            FallbackSurface::Fallback(dev) => dev.changes_pending(),
        }
    }

    fn output_target(&self) -> OutputTarget {
        match self {
            FallbackSurface::Preference(dev) => dev.output_target(),
            FallbackSurface::Fallback(dev) => dev.output_target(),
        }
    }

    fn crtc(&self) -> u32 {
        match self {
            FallbackSurface::Preference(dev) => dev.crtc(),
            FallbackSurface::Fallback(dev) => dev.crtc(),
        }
    }

    fn commit_pending(&self) -> bool {
        match self {
            FallbackSurface::Preference(dev) => dev.commit_pending(),
            FallbackSurface::Fallback(dev) => dev.commit_pending(),
        }
    }
}

/// How to create the EGL surface of a stream
#[derive(Debug, PartialEq, Eq)]
pub struct SurfaceRequest {
    /// The display to create the surface on
    pub display: usize,
    /// The EGL configuration of the surface
    pub config_id: usize,
    /// The attributes of the surface
    pub surface_attribs: Vec<i32>,
    /// The attributes that select what the stream is output to
    pub output_attributes: Vec<isize>,
}

/// Why a surface could not be created
#[derive(Debug, PartialEq, Eq)]
pub enum SurfaceCreationError<E> {
    /// The native surface could not be created
    NativeSurfaceCreationFailed(E),
}

/// A step of swapping the buffers of a surface
#[derive(Debug, PartialEq, Eq)]
pub enum SwapStep<B> {
    /// Destroy a framebuffer, whatever comes of it
    DestroyFramebuffer(u32),
    /// Destroy a dumb buffer, whatever comes of it
    DestroyDumbBuffer(B),
    /// Flip the crtc, which decides on the success of the swap
    Flip(u32),
}

/// A surface of a stream, where `S` is the surface of the DRM device and `B` a dumb buffer
pub struct EglStreamSurface<S, B> {
    /// The surface of the DRM device
    pub crtc: S,
    /// The buffer that the last commit was made with, and its framebuffer
    pub commit_buffer: Option<(B, u32)>,
}

/// The steps of swapping buffers: the buffer of the last commit is destroyed if it is still
/// there, and the crtc is flipped
pub open spec fn swap_steps<B>(commit_buffer: Option<(B, u32)>, crtc: u32) -> Seq<SwapStep<B>> {
    match commit_buffer {
        Some((buffer, framebuffer)) => seq![
            SwapStep::DestroyFramebuffer(framebuffer),
            SwapStep::DestroyDumbBuffer(buffer),
            SwapStep::Flip(crtc),
        ],
        None => seq![SwapStep::Flip(crtc)],
    }
}

impl<S: DrmSurface, B> EglStreamSurface<S, B> {
    /// Decides how to create the EGL surface
    ///
    /// What comes of it goes through [`created`](EglStreamSurface::created).
    pub fn create(
        &self,
        display: usize,
        config_id: usize,
        surface_attribs: Vec<i32>,
    ) -> (request: SurfaceRequest)
        ensures
            request.display == display,
            request.config_id == config_id,
            request.surface_attribs@ == surface_attribs@,
            request.output_attributes@ == seq![
                self.crtc.target().attribute as isize,
                self.crtc.target().id as isize,
                NONE as isize,
            ],
    {
        let target = self.crtc.output_target();
        let mut output_attributes: Vec<isize> = Vec::with_capacity(3);
        output_attributes.push(target.attribute as isize);
        output_attributes.push(target.id as isize);
        output_attributes.push(NONE as isize);
        SurfaceRequest { display, config_id, surface_attribs, output_attributes }
    }

    /// What creating the EGL surface comes to
    pub fn created<E>(&self, outcome: Result<usize, E>) -> (surface: Result<
        usize,
        SurfaceCreationError<E>,
    >)
        ensures
            surface == match outcome {
                Ok(surface) => Ok::<usize, SurfaceCreationError<E>>(surface),
                Err(error) => Err(SurfaceCreationError::NativeSurfaceCreationFailed(error)),
            },
    {
        match outcome {
            Ok(surface) => Ok(surface),
            Err(error) => Err(SurfaceCreationError::NativeSurfaceCreationFailed(error)),
        }
    }

    /// Returns true if the surface needs to be created anew: if the next commit changes the
    /// state of the crtc
    pub fn needs_recreation(&self) -> (needs: bool)
        ensures
            needs == self.crtc.changes_pending(),
    {
        self.crtc.commit_pending()
    }

    /// Gives up the buffer of the last commit, and returns the steps of swapping the buffers, in
    /// order
    pub fn swap_buffers(&mut self) -> (steps: Vec<SwapStep<B>>)
        ensures
            steps@ == swap_steps(old(self).commit_buffer, old(self).crtc.displayed_by()),
            final(self).commit_buffer is None,
            final(self).crtc == old(self).crtc,
    {
        let mut steps: Vec<SwapStep<B>> = Vec::new();
        if let Some((buffer, framebuffer)) = self.commit_buffer.take() {
            steps.push(SwapStep::DestroyFramebuffer(framebuffer));
            steps.push(SwapStep::DestroyDumbBuffer(buffer));
        }
        steps.push(SwapStep::Flip(self.crtc.crtc()));
        assert(steps@ == swap_steps(old(self).commit_buffer, old(self).crtc.displayed_by()));
        steps
    }
}

/// The display is got from EGL, for the platform of devices and with the given native display and
/// attributes, exactly if the extension is there and the function is loaded.
pub proof fn law_display_needs_extension_and_function(
    request: DisplayRequest,
    display: usize,
    attribs: Seq<i32>,
    has_extension: bool,
    is_loaded: bool,
)
    requires
        request.is_for(display, attribs, has_extension, is_loaded),
    ensures
        request is NoDisplay <==> !has_extension || !is_loaded,
        request is GetPlatformDisplay ==> {
            &&& request->platform == 0x313F
            &&& request->display == display
            &&& request->attribs@ == attribs
        },
{
}

/// The stream of a surface with atomic modesetting is output to its primary plane, that of one with
/// legacy modesetting to its crtc. Either is displayed by its crtc, and has changes pending if its
/// next commit changes the state of the crtc.
pub proof fn law_where_streams_are_output(crtc: u32, primary: u32, commit_pending: bool)
    ensures
        ({
            let atomic = AtomicDrmSurface { crtc, primary, commit_pending };
            &&& atomic.target() == OutputTarget { attribute: 0x3235, id: primary }
            &&& atomic.displayed_by() == crtc
            &&& atomic.changes_pending() == commit_pending
        }),
        ({
            let legacy = LegacyDrmSurface { crtc, commit_pending };
            &&& legacy.target() == OutputTarget { attribute: 0x3234, id: crtc }
            &&& legacy.displayed_by() == crtc
            &&& legacy.changes_pending() == commit_pending
        }),
{
}

/// A surface that may fall back behaves as the surface that is used.
pub proof fn law_fallback_is_what_is_used(atomic: AtomicDrmSurface, legacy: LegacyDrmSurface)
    ensures
        FallbackSurface::Preference(atomic).target() == atomic.target(),
        FallbackSurface::Preference(atomic).displayed_by() == atomic.displayed_by(),
        FallbackSurface::Preference(atomic).changes_pending() == atomic.changes_pending(),
        FallbackSurface::Fallback(legacy).target() == legacy.target(),
        FallbackSurface::Fallback(legacy).displayed_by() == legacy.displayed_by(),
        FallbackSurface::Fallback(legacy).changes_pending() == legacy.changes_pending(),
{
}

/// A swap destroys the framebuffer of the last commit first and its buffer then, if they are still
/// there, and flips the crtc after that; it takes no other step.
pub proof fn law_steps_of_a_swap<B>(buffer: B, framebuffer: u32, crtc: u32)
    ensures
        swap_steps(Some((buffer, framebuffer)), crtc).len() == 3,
        swap_steps(Some((buffer, framebuffer)), crtc)[0] == SwapStep::<B>::DestroyFramebuffer(
            framebuffer,
        ),
        swap_steps(Some((buffer, framebuffer)), crtc)[1] == SwapStep::DestroyDumbBuffer(buffer),
        swap_steps(Some((buffer, framebuffer)), crtc)[2] == SwapStep::<B>::Flip(crtc),
        swap_steps::<B>(None, crtc).len() == 1,
        swap_steps::<B>(None, crtc)[0] == SwapStep::<B>::Flip(crtc),
{
}

/// Every swap flips the crtc, as its last step and once; a buffer and its framebuffer are destroyed
/// by the first swap after the commit, each once, and swapping again destroys nothing more.
pub proof fn law_a_buffer_is_destroyed_once<B>(commit_buffer: Option<(B, u32)>, crtc: u32)
    ensures
        swap_steps(commit_buffer, crtc).last() == SwapStep::<B>::Flip(crtc),
        forall|i: int|
            0 <= i < swap_steps(commit_buffer, crtc).len() - 1 ==> !((#[trigger] swap_steps(
                commit_buffer,
                crtc,
            )[i]) is Flip),
        commit_buffer matches Some((buffer, framebuffer)) ==> {
            &&& swap_steps(commit_buffer, crtc).contains(SwapStep::DestroyDumbBuffer(buffer))
            &&& swap_steps(commit_buffer, crtc).contains(
                SwapStep::<B>::DestroyFramebuffer(framebuffer),
            )
        },
        swap_steps(commit_buffer, crtc).no_duplicates(),
        swap_steps::<B>(None, crtc) == seq![SwapStep::<B>::Flip(crtc)],
{
    let steps = swap_steps(commit_buffer, crtc);
    if let Some((buffer, framebuffer)) = commit_buffer {
        assert(steps[0] == SwapStep::<B>::DestroyFramebuffer(framebuffer));
        assert(steps[1] == SwapStep::DestroyDumbBuffer(buffer));
    }
}

} // verus!
