//! Verified core of a translation patcher for AZSys `script.arc` archives:
//! the ASB bytecode records, the LZSS-packed ARC index, the ASB script
//! masking, and the patch document logic that ties them together.
use vstd::prelude::*;

pub mod asb;
pub mod azsys;
pub mod bytes;
pub mod error;
pub mod lzss;
pub mod patch;
pub mod text;
pub mod zlib;
