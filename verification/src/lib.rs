//! A layout and windowing engine for terminal user interfaces: a tree of
//! containers, leaf windows and floating windows that turns size constraints
//! into rectangles of cells, keeps track of the keyboard focus, and decides
//! which widget an input event is for.

pub mod align;
pub mod allocator;
pub mod app;
pub mod border;
pub mod error;
pub mod event;
pub mod frame;
pub mod label;
pub mod stack;
pub mod layout;
pub mod widget;
pub mod widgets;

pub use app::Config;
pub use layout::Layout;
pub use widget::{WidgetId, WidgetStore};
