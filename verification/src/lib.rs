//! Switches external screens between mirror / extend / only modes on Hyprland:
//! the screen model, the rules a mode turns into, the remembered layouts and
//! the managed keybind block of `hyprland.lua`.

pub mod applied;
pub mod hypr;
pub mod laws;
pub mod plan;
pub mod setup;
pub mod state;
pub mod status;
pub mod text;
pub mod tui;
