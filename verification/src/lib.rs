use vstd::prelude::*;

pub mod config;
pub mod crc;
pub mod png;
pub mod thumbnailer;
pub mod uri;
mod util;
pub mod worker;

pub use config::Args;
pub use crc::CRC;
pub use png::{Chunk, FormatError, ValidationError};
pub use thumbnailer::{ThumbError, ThumbSize, Thumbnailer};
pub use worker::{Message, Work, WorkQueue};

verus! {

} // verus!
