//! The window configuration.
//!
//! A proxy instance carries two parallel lists, fixed for the process
//! lifetime: the offsets in seconds that the windows reach into the past,
//! and the timeframe names that label them.

use vstd::prelude::*;

verus! {

/// The parallel window lists: offset seconds and timeframe names, paired by
/// position.
#[derive(Clone)]
pub struct ChronoProxy {
    pub offsets: Vec<i64>,
    pub timeframes: Vec<String>,
}

impl ChronoProxy {
    /// The default five windows: now, and one, two, three and four weeks
    /// back.
    pub fn new() -> (r: ChronoProxy)
        ensures
            r.offsets@ =~= seq![0i64, 604800i64, 1209600i64, 1814400i64, 2419200i64],
            r.timeframes@.len() == 5,
            (r.timeframes@[0])@ == "current"@,
            (r.timeframes@[1])@ == "7days"@,
            (r.timeframes@[2])@ == "14days"@,
            (r.timeframes@[3])@ == "21days"@,
            (r.timeframes@[4])@ == "28days"@,
    {
        let mut offsets: Vec<i64> = Vec::new();
        offsets.push(0);
        offsets.push(7 * 24 * 3600);
        offsets.push(14 * 24 * 3600);
        offsets.push(21 * 24 * 3600);
        offsets.push(28 * 24 * 3600);
        let mut timeframes: Vec<String> = Vec::new();
        timeframes.push("current".to_owned());
        timeframes.push("7days".to_owned());
        timeframes.push("14days".to_owned());
        timeframes.push("21days".to_owned());
        timeframes.push("28days".to_owned());
        ChronoProxy { offsets, timeframes }
    }

    /// The timeframe names, in window order.
    pub fn timeframes(&self) -> (r: Vec<String>)
        ensures
            r@.len() == self.timeframes@.len(),
            forall|i: int|
                0 <= i < r@.len() ==> (#[trigger] r@[i])@ == (self.timeframes@[i])@,
    {
        let n = self.timeframes.len();
        let mut out: Vec<String> = Vec::new();
        let mut i: usize = 0;
        while i < n
            invariant
                i <= n == self.timeframes@.len(),
                out@.len() == i,
                forall|j: int|
                    0 <= j < i ==> (#[trigger] out@[j])@ == (self.timeframes@[j])@,
            decreases n - i,
        {
            out.push(self.timeframes[i].clone());
            i = i + 1;
        }
        out
    }
}

/// Startup configuration: where to listen, where upstream is, and the
/// window lists.
pub struct Config {
    pub upstream_url: String,
    pub listen_addr: String,
    pub listen_port: u16,
    pub timeframes: Vec<String>,
    pub offsets: Vec<i64>,
}

impl Default for Config {
    /// The stock configuration: a local upstream and the five default
    /// windows.
    fn default() -> (r: Config)
        ensures
            r.upstream_url@ == "http://localhost:9090"@,
            r.listen_addr@ == "127.0.0.1"@,
            r.listen_port == 8080,
            r.offsets@ =~= seq![0i64, 604800i64, 1209600i64, 1814400i64, 2419200i64],
            r.timeframes@.len() == 5,
            (r.timeframes@[0])@ == "current"@,
            (r.timeframes@[1])@ == "7days"@,
            (r.timeframes@[2])@ == "14days"@,
            (r.timeframes@[3])@ == "21days"@,
            (r.timeframes@[4])@ == "28days"@,
    {
        let mut offsets: Vec<i64> = Vec::new();
        offsets.push(0);
        offsets.push(7 * 24 * 3600);
        offsets.push(14 * 24 * 3600);
        offsets.push(21 * 24 * 3600);
        offsets.push(28 * 24 * 3600);
        let mut timeframes: Vec<String> = Vec::new();
        timeframes.push("current".to_owned());
        timeframes.push("7days".to_owned());
        timeframes.push("14days".to_owned());
        timeframes.push("21days".to_owned());
        timeframes.push("28days".to_owned());
        Config {
            upstream_url: "http://localhost:9090".to_owned(),
            listen_addr: "127.0.0.1".to_owned(),
            listen_port: 8080,
            timeframes,
            offsets,
        }
    }
}

} // verus!
