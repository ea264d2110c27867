//! A single-producer broadcast buffer with independently paced readers.
//!
//! One producer appends items to an ordered log. Every registered reader
//! sees each item, in order and at its own pace, through a scoped read
//! handle; releasing the handle acknowledges the item. An item is retained
//! as long as some registered reader has it in its queue or has not
//! acknowledged it; while no reader is registered, everything is retained.
//!
//! [`model`] says what the buffer is and does, [`laws`] what follows from
//! that, and [`publisher`], [`reader`] and [`borrow`] hold the executable
//! code, which is proved to do what the model says.
pub mod borrow;
pub mod counter;
pub mod laws;
pub mod model;
pub mod publisher;
pub mod reader;

pub use borrow::{BorrowRead, BorrowWrite};
pub use counter::Counter;
pub use publisher::Publisher;
pub use reader::{ConsumerInfo, StreamReader};
