pub mod compositor;
pub mod cursor;
pub mod event;
pub mod font;
pub mod framebuffer;
pub mod palette;
pub mod primitives;
pub mod session;
pub mod theme;
pub mod wallpaper;
pub mod widget;
