//! The audio decoder's settings: which file it reads and the sample rate it
//! delivers. Decoding itself (container probing, codecs, mixing down and
//! resampling of real-valued samples) is done by the caller.
use vstd::prelude::*;

verus! {

/// The sample rate every decoded signal is resampled to.
pub const TARGET_SAMPLE_RATE: u32 = 22050;

/// An audio file to decode, and the rate it is delivered at.
pub struct AudioDecoder {
    path: String,
    sample_rate: u32,
}

impl AudioDecoder {
    /// The file this decoder reads.
    pub closed spec fn spec_path(&self) -> Seq<char> {
        self.path@
    }

    /// The rate this decoder delivers.
    pub closed spec fn spec_sample_rate(&self) -> u32 {
        self.sample_rate
    }

    /// A decoder for the file at `path`, delivering 22050 Hz.
    pub fn new(path: &str) -> (r: Result<Self, String>)
        ensures
            r matches Ok(d) && d.spec_path() == path@ && d.spec_sample_rate() == TARGET_SAMPLE_RATE,
    {
        Ok(AudioDecoder { path: String::from_str(path), sample_rate: TARGET_SAMPLE_RATE })
    }

    /// The sample rate of the decoded signal.
    pub fn sample_rate(&self) -> (r: u32)
        ensures
            r == self.spec_sample_rate(),
    {
        self.sample_rate
    }

    /// The file this decoder reads.
    pub fn path(&self) -> (r: &str)
        ensures
            r@ == self.spec_path(),
    {
        self.path.as_str()
    }
}

} // verus!
