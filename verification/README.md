# smithay

Building blocks of a Wayland compositor, verified with Verus.

- `src/wayland/compositor`: surfaces, their attributes, roles and trees of subsurfaces, and
  regions. `tree.rs` says what a tree and a traversal are, `store.rs` keeps the surfaces of a
  compositor, `order.rs` proves in which order traversals go, and `mod.rs` holds the
  `CompositorToken` through which all of it is accessed.
- `src/backend/udev.rs`: finds the GPUs of a seat, and keeps track of the devices that come and go.
- `src/backend/drm/egl/session.rs`: which EGL surfaces to destroy when a session is activated.
- `src/backend/drm/eglstream/egl.rs`: displays and surfaces for EGL streams.

Functions named `law_...` prove properties that hold across several functions. `tests/` runs the
library on concrete values. `app/` connects it to Wayland clients, udev, DRM devices and EGL; it is
not verified.
