//! Built-in widgets

pub mod border;
pub mod menu;
pub mod textbox;

pub use border::Border;
pub use menu::Menu;
pub use textbox::TextBox;
