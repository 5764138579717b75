use vstd::prelude::*;

verus! {

/// Cumulative counters over every check: the total, and its split into
/// allowed and denied verdicts.
#[derive(Debug)]
pub struct Metrics {
    pub checks_total: u64,
    pub allowed_total: u64,
    pub denied_total: u64,
}

/// The two verdict counters always sum to the total.
pub open spec fn metrics_wf(m: Metrics) -> bool {
    m.allowed_total + m.denied_total == m.checks_total
}

/// The counters after recording one verdict.
pub open spec fn recorded(m: Metrics, allowed: bool) -> Metrics {
    Metrics {
        checks_total: (m.checks_total + 1) as u64,
        allowed_total: if allowed {
            (m.allowed_total + 1) as u64
        } else {
            m.allowed_total
        },
        denied_total: if allowed {
            m.denied_total
        } else {
            (m.denied_total + 1) as u64
        },
    }
}

impl Default for Metrics {
    /// All counters start at zero.
    fn default() -> (r: Metrics)
        ensures
            r == (Metrics { checks_total: 0, allowed_total: 0, denied_total: 0 }),
            metrics_wf(r),
    {
        Metrics { checks_total: 0, allowed_total: 0, denied_total: 0 }
    }
}

impl Metrics {
    /// Count one outcome. The total always advances, and exactly one of
    /// the allowed and denied counters advances with it.
    pub fn record(&mut self, allowed: bool)
        requires
            old(self).checks_total < u64::MAX,
            metrics_wf(*old(self)),
        ensures
            *final(self) == recorded(*old(self), allowed),
            metrics_wf(*final(self)),
    {
        self.checks_total = self.checks_total + 1;
        if allowed {
            self.allowed_total = self.allowed_total + 1;
        } else {
            self.denied_total = self.denied_total + 1;
        }
    }

    /// The counters as an ordered name-to-count listing.
    pub fn as_map(&self) -> (r: Vec<(String, u64)>)
        ensures
            r@.len() == 3,
            r@[0].0@ == "checks_total"@ && r@[0].1 == self.checks_total,
            r@[1].0@ == "allowed_total"@ && r@[1].1 == self.allowed_total,
            r@[2].0@ == "denied_total"@ && r@[2].1 == self.denied_total,
    {
        let mut map: Vec<(String, u64)> = Vec::new();
        map.push(("checks_total".to_owned(), self.checks_total));
        map.push(("allowed_total".to_owned(), self.allowed_total));
        map.push(("denied_total".to_owned(), self.denied_total));
        map
    }
}

} // verus!
