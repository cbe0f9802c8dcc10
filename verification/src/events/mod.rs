pub mod mousedown_handler;
