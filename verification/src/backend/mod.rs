//! Backend implementations: what drives the outputs and the input devices

pub mod drm;
pub mod udev;
