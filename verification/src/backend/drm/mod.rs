//! DRM/KMS support

pub mod egl;
pub mod eglstream;
