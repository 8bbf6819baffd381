pub mod ack_window;
pub mod time_window;
