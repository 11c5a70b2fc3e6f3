//! Parsed-verify bundle bookkeeping shared by the prover and the verifier.
use vstd::prelude::*;
use std::time::Duration;

verus! {

/// Wall-clock split of a parsed-verify check: rebuilding the instances and committing their
/// preprocessed traces, against the STARK verifiers themselves.
#[derive(Debug, Clone, Copy, Default)]
pub struct FalconParsedVerifyVerifierBreakdown {
    pub instance_prep: Duration,
    pub stark_crypto_verify: Duration,
}

/// Index of the first failed sub-proof check, in sub-proof order; `None` when all passed.
pub fn first_failure(oks: &[bool]) -> (r: Option<usize>)
    ensures
        match r {
            Some(i) => i < oks@.len() && !oks@[i as int] && forall|j: int| 0 <= j < i ==> #[trigger] oks@[j],
            None => forall|j: int| 0 <= j < oks@.len() ==> #[trigger] oks@[j],
        },
{
    let mut i: usize = 0;
    while i < oks.len()
        invariant
            i <= oks@.len(),
            forall|j: int| 0 <= j < i ==> #[trigger] oks@[j],
        decreases oks@.len() - i,
    {
        if !oks[i] {
            return Some(i);
        }
        i = i + 1;
    }
    None
}

} // verus!
