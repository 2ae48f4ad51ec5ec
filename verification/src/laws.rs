//! What holds of the format as a whole: decoding undoes encoding, a cut
//! buffer is refused, and so is a changed continuation byte.

pub mod continuation;
pub mod decoded;
pub mod empty;
pub mod entries;
pub mod framing;
pub mod round_trip;
