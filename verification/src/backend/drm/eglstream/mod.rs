//! DRM devices that are driven through EGL streams

pub mod egl;
