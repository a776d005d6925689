//! Messages exchanged with the editor over the IPC socket. The wire form
//! (tagged JSON) is produced outside the library; these are the values.

use vstd::prelude::*;

verus! {

/// Editor → compositor.
#[derive(Clone, Debug, PartialEq, Eq)]
pub enum IncomingMessage {
    SetGeometry { window_id: u64, x: i32, y: i32, w: i32, h: i32 },
    Close { window_id: u64 },
    SetVisibility { window_id: u64, visible: bool },
    ForwardKey { window_id: u64, keycode: u32, state: u32, modifiers: u32 },
}

/// Compositor → editor.
#[derive(Clone, Debug, PartialEq, Eq)]
pub enum OutgoingMessage {
    Connected { version: &'static str },
    Error { msg: String },
    WindowCreated { window_id: u64, title: String },
    WindowDestroyed { window_id: u64 },
    TitleChanged { window_id: u64, title: String },
    /// The editor surface's logical size, so the editor can compute its
    /// header offset.
    SurfaceSize { width: i32, height: i32 },
}

} // verus!
