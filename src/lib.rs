pub mod control;
pub mod keymapping;
pub mod timer;
