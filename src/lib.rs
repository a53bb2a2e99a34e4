//! A bounded multi-producer/multi-consumer message queue built from two
//! index rings (free slots and ready slots) and a payload array, with a
//! few plain value types shared with the real-time thread services.

use vstd::prelude::*;

pub mod clock;
pub mod event;
pub mod layout;
pub mod ring;
pub mod sched;
