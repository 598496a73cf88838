//! Device drivers: the framebuffer and its text, the keyboard queue, the
//! interrupt controller, the task scheduler and the serial port.
pub mod framebuffer;
pub mod keyboard;
pub mod pic;
pub mod scheduler;
pub mod serial;
pub mod page_mapper;



pub mod vesa;
