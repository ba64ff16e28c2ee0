//! GaussMatrix core library.
#![allow(unused_imports)]

use vstd::prelude::*;

pub mod bytes;
pub mod store;
pub mod shard;
pub mod stateres;
pub mod services;
