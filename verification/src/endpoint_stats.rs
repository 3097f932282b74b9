use vstd::prelude::*;

verus! {

/// Running health counters of one endpoint and the latency of its most
/// recent timed probes. Latency is kept in whole milliseconds; the wire
/// form renders it as decimal seconds.
#[derive(Debug, Clone, Copy, PartialEq, Eq, Structural)]
pub struct EndpointStats {
    /// How many probes failed.
    pub failures: u16,
    /// How many probes succeeded.
    pub success: u16,
    /// Blended latency of the timed probes, in milliseconds.
    pub latency: u64,
}

/// The blend applied to a timed sample `sample` (milliseconds) once the
/// success counter has already been raised to `successes`: the new
/// latency is `(sample * successes + sample) / successes`, truncated,
/// and saturated at the widest value the field can hold. Note the blend
/// reads only the fresh sample, never the latency it replaces; it is not
/// a running average.
pub open spec fn spec_blend(sample: u64, successes: u16) -> u64
    recommends
        successes >= 1,
{
    let q = ((sample as int) * (successes as int) + (sample as int)) / (successes as int);
    if q > u64::MAX as int {
        u64::MAX
    } else {
        q as u64
    }
}

/// One counter step, saturating at the widest value a counter holds.
pub open spec fn spec_bump(c: u16) -> u16 {
    if c == u16::MAX {
        u16::MAX
    } else {
        (c + 1) as u16
    }
}

impl EndpointStats {
    /// The stats after one probe outcome has been folded in: a success
    /// raises `success` and, when the probe was timed, blends the sample
    /// into `latency`; a failure raises `failures` and leaves `latency`
    /// alone.
    pub open spec fn spec_add(self, state: bool, latency: Option<u64>) -> EndpointStats {
        if state {
            let s2 = spec_bump(self.success);
            match latency {
                Some(l) => EndpointStats { success: s2, latency: spec_blend(l, s2), ..self },
                None => EndpointStats { success: s2, ..self },
            }
        } else {
            EndpointStats { failures: spec_bump(self.failures), ..self }
        }
    }

    /// The derived ranking value: `(success - failures) / latency-in-seconds / 10`,
    /// held as a fixed-point count of millionths, the subtraction promoted
    /// to signed and the division truncated toward zero. An endpoint
    /// without a timed sample (latency zero) is unranked, never
    /// top-ranked: the score is `None`.
    pub open spec fn spec_score(self) -> Option<i64> {
        if self.latency == 0 {
            None
        } else {
            let diff = self.success as int - self.failures as int;
            let mag = (if diff >= 0 { diff } else { -diff }) * 100_000_000 / (self.latency as int);
            Some((if diff >= 0 { mag } else { -mag }) as i64)
        }
    }

    /// Fold one probe outcome into the counters. `state` tells whether
    /// the probe succeeded; `latency` carries its duration in
    /// milliseconds when the probe was timed.
    pub fn add(&mut self, state: bool, latency: Option<u64>)
        ensures
            *final(self) == old(self).spec_add(state, latency),
    {
        if state {
            let s2: u16 = if self.success == u16::MAX {
                u16::MAX
            } else {
                self.success + 1
            };
            self.success = s2;
            if let Some(l) = latency {
                proof {
                    assert((l as int) * (s2 as int) + (l as int) < u128::MAX as int)
                        by (nonlinear_arith)
                        requires
                            l <= u64::MAX,
                            s2 <= u16::MAX,
                    ;
                }
                let num: u128 = (l as u128) * (s2 as u128) + (l as u128);
                let q: u128 = num / (s2 as u128);
                self.latency = if q > u64::MAX as u128 {
                    u64::MAX
                } else {
                    q as u64
                };
            }
        } else {
            self.failures = if self.failures == u16::MAX {
                u16::MAX
            } else {
                self.failures + 1
            };
        }
    }

    /// The ranking value of these counters; see [`Self::spec_score`].
    pub fn score(&self) -> (r: Option<i64>)
        ensures
            r == self.spec_score(),
    {
        if self.latency == 0 {
            return None;
        }
        if self.success >= self.failures {
            let diff: u64 = (self.success - self.failures) as u64;
            let mag: u64 = diff * 100_000_000 / self.latency;
            Some(mag as i64)
        } else {
            let diff: u64 = (self.failures - self.success) as u64;
            let mag: u64 = diff * 100_000_000 / self.latency;
            Some(-(mag as i64))
        }
    }
}

impl Default for EndpointStats {
    /// Fresh counters: nothing recorded yet.
    fn default() -> (r: Self)
        ensures
            r.failures == 0,
            r.success == 0,
            r.latency == 0,
    {
        EndpointStats { failures: 0, success: 0, latency: 0 }
    }
}

} // verus!
