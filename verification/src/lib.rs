pub mod state;
pub mod time;
pub mod state_container;
pub mod utils;

pub use state::event_channel::EventChannel;
pub use state::queue::{Queue, QueueReader};
pub use state::value::Value;
pub use state_container::{Poll, StateContext, StateKey, SubscribeState};
pub use time::{is_wake_with, AnyTime, TimerData, TimerStep};
