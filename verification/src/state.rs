pub mod event_channel;
pub mod queue;
pub mod value;
