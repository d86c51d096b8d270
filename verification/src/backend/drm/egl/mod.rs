//! EGL contexts on top of DRM devices

pub mod session;
