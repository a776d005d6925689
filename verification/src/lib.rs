pub mod clock;
pub mod encode;
pub mod fcitx;
pub mod focus;
pub mod geometry;
pub mod host_window;
pub mod ic;
pub mod key_cast;
pub mod message;
pub mod roundtrip;
pub mod text;
pub mod wire;
pub mod workspace_bar;
pub mod apps;
pub mod ipc;
pub mod launch;
pub mod xwm;
