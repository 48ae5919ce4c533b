//! The deployment settings the relay is constructed with. Reading them
//! from configuration files is the surrounding program's business; the
//! library only holds the values and derives the clock offset.

use vstd::prelude::*;

verus! {

/// The settings a deployment provides.
pub struct Settings {
    pub redis_url: String,
    pub oss_access_key_id: String,
    pub oss_access_key_secret: String,
    pub oss_endpoint: String,
    pub oss_bucket_name: String,
    /// Whole hours east of the epoch clock.
    pub time_zone: i32,
}

impl Settings {
    /// The configured time zone as seconds east.
    pub fn offset_seconds(&self) -> (r: u32)
        requires
            0 <= self.time_zone <= 23,
        ensures
            r == self.time_zone * 3600,
    {
        (self.time_zone as u32) * 3600
    }
}

} // verus!
