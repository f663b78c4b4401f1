pub mod client;
pub mod count;
pub mod encoding;
pub mod guard;
pub mod kind;
pub mod poll_set;
pub mod promise;
pub mod stream;
pub mod wait_set;
pub mod waitable;

pub use client::{BoardView, Client, ClientRequestBoard, ClientRequestSender, SequenceNumber};
pub use count::WaitableCount;
pub use encoding::encode_name;
pub use guard::GuardCondition;
pub use kind::{errors_of, take_outcome, RclExecutable, RclExecutableHandle, RclExecutableKind, RclrsError};
pub use poll_set::PollSet;
pub use promise::{Promise, PromiseSender};
pub use stream::{Executable, WaitSetStream};
pub use wait_set::WaitSet;
pub use waitable::{Waitable, WaitableLifecycle};
