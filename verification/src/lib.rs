//! grimoire: declarative state for personal Linux desktops.
pub mod text;
pub mod version;
pub mod constraint;
pub mod distro;
pub mod spell;
pub mod grimoire;
pub mod envmap;
pub mod compose;
pub mod shell;
pub mod state;
pub mod scry;
pub mod cast;
pub mod manifest;
pub mod config;
pub mod desktop;
pub mod cli;
pub mod topo;
pub mod resolve;
pub mod system_deps;
pub mod upgrade;
