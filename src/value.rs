use vstd::prelude::*;

use crate::colors::RGB;

verus! {

/// A typed value read from or written to a field. Fractions are kept exact:
/// a flood ratio as numerator and denominator, a histogram as pixel counts
/// per colour out of a total.
#[derive(Debug)]
pub enum DataValue {
    Null,
    Boolean { value: bool },
    Int { value: i32 },
    Float { numerator: u64, denominator: u64 },
    String { value: String },
    Color { value: RGB },
    Image { width: u32, height: u32, data_url: String },
    Histogram { value: Vec<(RGB, u64)>, total: u64 },
    Custom { subtype: String, value: String },
}

} // verus!
