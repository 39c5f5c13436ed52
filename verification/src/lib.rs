//! Key/value counts: a small journal format in which each line is a frame
//! of whitespace-separated keys with optional counts, some keys recognised
//! by keyword patterns, and `#` ending the frame.

use vstd::prelude::*;

pub mod pattern;
pub mod text;
pub mod frame;
pub mod tally;
pub mod table;
pub mod stream;

pub use frame::{read_frame, Frame};
pub use pattern::get_reserved_matchers;
pub use table::{load_table_from_kvc_stream, load_table_from_kvc_stream_default, KvcTable};
pub use tally::{read_kvc_line, read_kvc_line_default, tally_counts};

verus! {

/// The version of the library, "Major.Minor.Build".
pub fn version() -> (v: String)
    ensures
        v@ == "0.5.1"@,
{
    String::from_str("0.5.1")
}

} // verus!
