//! Robin: a tiny browser engine, with its parsing and styling logic verified.
pub mod chars;
pub mod css;
pub mod dom;
pub mod html;
pub mod scan;
pub mod style;
pub mod net;
pub mod render;
pub mod window;
pub mod layout;
pub mod paint;
pub mod text;
