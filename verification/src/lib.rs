//! Reconstruction of a shared pixel canvas from a sharded, timestamped edit log.
//!
//! A shard is a text file of one record to a line. [`access`] reads a line as a
//! record, [`order`] puts shards and records in chronological order, [`normalize`]
//! repairs a shard whose records are out of order, and [`engine`] paints the
//! records of a run on a [`canvas`] and says when a snapshot is due.

use vstd::prelude::*;
use vstd::string::*;
use crate::decimal::{pad_decimal, zero_padded};

pub mod access;
pub mod canvas;
pub mod colour;
pub mod count;
pub mod decimal;
pub mod engine;
pub mod error;
pub mod grammar;
pub mod normalize;
pub mod order;
pub mod timestamp;

verus! {

/// The line every shard begins with.
pub const HEADER: &'static str = "timestamp,user_id,pixel_color,coordinate\n";

/// The file name of the shard with index `i`: the index takes two digits, or more
/// where it needs them.
pub open spec fn file_name(i: nat) -> Seq<char> {
    "2022_place_canvas_history-0000000000"@ + zero_padded(i, 2) + ".csv.gzip"@
}

/// The file name of the snapshot with number `number`: the number takes eight
/// digits, or more where it needs them.
pub open spec fn frame_name(number: nat) -> Seq<char> {
    "image"@ + zero_padded(number, 8) + ".png"@
}

/// Names the file of the shard with index `i`.
pub fn create_file_name(i: usize) -> (name: String)
    ensures
        name@ == file_name(i as nat),
{
    let mut name: String = String::from_str("2022_place_canvas_history-0000000000");
    let number: String = pad_decimal(i as u64, 2);
    name.append(number.as_str());
    name.append(".csv.gzip");
    name
}

/// Names the file of the snapshot with number `number`.
pub fn create_frame_name(number: u64) -> (name: String)
    ensures
        name@ == frame_name(number as nat),
{
    let mut name: String = String::from_str("image");
    let digits: String = pad_decimal(number, 8);
    name.append(digits.as_str());
    name.append(".png");
    name
}

} // verus!
