//! The layout engine: geometry, the size solver, and the tree of windows.

pub mod adjacency;
pub mod compute;
pub mod floating;
pub mod geometry;
pub mod laws;
pub mod node;
pub mod order;
pub mod solver;
pub mod tree;
pub mod window;

pub use crate::allocator::NodeId;
pub use crate::widget::WidgetId;
pub use geometry::{Axis, Constraint, Direction, Point, Rect, Size};
pub use floating::FloatStack;
pub use node::{Container, Floating, LayoutNode, Leaf};
pub use tree::Layout;
