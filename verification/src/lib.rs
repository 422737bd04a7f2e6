//! A priority-ordered interaction-cursor stack.
//!
//! When several overlapping UI widgets simultaneously request different cursor
//! icons (a hovered square under a pressed piece, for instance), exactly one
//! icon can be shown.  This crate resolves the conflict with a priority stack
//! of "requests": each request pairs an icon with a numeric priority, the
//! request with the greatest priority wins, and ties go to the request pushed
//! most recently.
//!
//! The crate is layered:
//! - [`registry`] stores requests under stable, never-reused handles,
//! - [`index`] keeps the handles sorted by priority,
//! - [`stack`] composes the two into the priority stack proper,
//! - [`binding`] translates pointer events (enter, exit, press, release) and
//!   widget teardown into pushes and pops, and mirrors the winning icon into
//!   a cursor-sink field.
//!
//! All of it is verified: each operation carries a contract describing its
//! exact effect, and the headline guarantees (the top of the stack is the
//! maximum-priority live request, removal is idempotent, teardown removes
//! exactly the destroyed widget's requests, the baseline icon persists) are
//! stated and proved as part of the library.

pub mod binding;
pub mod handle;
pub mod index;
pub mod registry;
pub mod stack;
