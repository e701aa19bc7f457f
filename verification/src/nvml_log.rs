//! A record of the NVML calls a GPU sample makes, kept beside the monitor.
//! Only the calls themselves add to it, so what it holds is what NVML gave.
use vstd::prelude::*;
use nvml_wrapper::error::NvmlError;

verus! {

/// One NVML call and what it gave.
pub enum NvmlCall {
    /// A device lookup by index, with its error if it failed.
    Lookup(u32, Option<NvmlError>),
    /// A utilisation read (the `gpu` percentage).
    Utilization(Result<u32, NvmlError>),
    /// A memory read (`used`, `total`).
    Memory(Result<(u64, u64), NvmlError>),
}

/// The NVML calls made since the record was last cleared, in order.
pub struct NvmlLog {
    calls: Ghost<Seq<NvmlCall>>,
}

impl NvmlLog {
    /// The calls recorded, in order.
    pub closed spec fn calls(&self) -> Seq<NvmlCall> {
        self.calls@
    }

    /// An empty record.
    pub fn new() -> (l: Self)
        ensures
            l.calls() == Seq::<NvmlCall>::empty(),
    {
        NvmlLog { calls: Ghost(Seq::empty()) }
    }

    /// Forgets the calls recorded so far.
    pub fn clear(&mut self)
        ensures
            final(self).calls() == Seq::<NvmlCall>::empty(),
    {
        self.calls = Ghost(Seq::empty());
    }
}

} // verus!
