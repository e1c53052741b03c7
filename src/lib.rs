pub mod app;
pub mod codec;
pub mod event;
pub mod pane;
pub mod scroll;
