//! Verdicts of a baseline-versus-current benchmark comparison. The deltas
//! themselves are floating point and are computed outside this crate; what is
//! decided here is how verdicts read and combine.
use crate::text::{chars_end_with, chars_of, chars_start_with, ends_with, starts_with};
use vstd::prelude::*;

verus! {

broadcast use vstd::string::group_string_axioms;

/// Whether a metric is better when it goes up (throughput) or down (latency, errors).
#[derive(Debug, Clone, Copy, PartialEq, Eq)]
pub enum Direction {
    LowerIsBetter,
    HigherIsBetter,
}

#[derive(Debug, Clone, Copy, PartialEq, Eq)]
pub enum Verdict {
    Pass,
    Improved,
    Regressed,
}

pub open spec fn verdict_label(v: Verdict) -> Seq<char> {
    match v {
        Verdict::Pass => "PASS"@,
        Verdict::Improved => "IMPROVED"@,
        Verdict::Regressed => "REGRESSED"@,
    }
}

impl Verdict {
    pub fn label(self) -> (s: &'static str)
        ensures
            s@ == verdict_label(self),
    {
        match self {
            Verdict::Pass => "PASS",
            Verdict::Improved => "IMPROVED",
            Verdict::Regressed => "REGRESSED",
        }
    }
}

/// Metrics named `latency_*` or `*/p99` are latencies (reported in ms).
pub open spec fn latency_name(name: Seq<char>) -> bool {
    starts_with(name, "latency_"@) || ends_with(name, "/p99"@)
}

pub fn is_latency(name: &str) -> (b: bool)
    ensures
        b == latency_name(name@),
{
    let n = chars_of(name);
    chars_start_with(&n, "latency_") || chars_end_with(&n, "/p99")
}

/// The comparison gate: it passes exactly when no metric regressed.
pub fn overall_pass(verdicts: &[Verdict]) -> (pass: bool)
    ensures
        pass <==> forall|i: int| 0 <= i < verdicts@.len() ==> verdicts@[i] != Verdict::Regressed,
{
    let mut i: usize = 0;
    while i < verdicts.len()
        invariant
            i <= verdicts@.len(),
            forall|j: int| 0 <= j < i ==> verdicts@[j] != Verdict::Regressed,
        decreases verdicts@.len() - i,
    {
        if let Verdict::Regressed = verdicts[i] {
            return false;
        }
        i = i + 1;
    }
    true
}

} // verus!
