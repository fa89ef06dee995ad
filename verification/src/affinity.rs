//! The calls into `core_affinity` and the size of the platform's CPU set.
use vstd::prelude::*;

verus! {

/// The number of cores a CPU set of this platform holds, `libc::CPU_SETSIZE`.
/// Only [`cpu_set_size`] makes one, so its value is always the platform's.
pub struct CpuSetSize {
    cores: usize,
}

impl CpuSetSize {
    pub closed spec fn capacity(&self) -> usize {
        self.cores
    }

    /// The number of cores the set holds.
    pub fn get(&self) -> (r: usize)
        ensures
            r == self.capacity(),
    {
        self.cores
    }

    /// The CPU-set size of the platform the crate is built for.
    pub fn platform() -> (r: CpuSetSize) {
        cpu_set_size()
    }
}

/// `libc::CPU_SETSIZE`, the number of cores a `cpu_set_t` (`cpuset_t` on
/// FreeBSD) holds on the platform the crate is built for: 1024 on glibc Linux
/// and 64-bit Android, 32 on 32-bit Android, 128 or 1024 on musl Linux (whose
/// set has 1024 bits either way), 256 or 1024 on FreeBSD. Its value depends on
/// the build target, so nothing is stated of it.
#[verifier::external_body]
pub(crate) fn cpu_set_size() -> (r: CpuSetSize) {
    CpuSetSize { cores: libc::CPU_SETSIZE as usize }
}

/// `core_affinity::get_core_ids`, each `CoreId` given by its number.
///
/// The cores come from the operating system (the affinity mask of the calling
/// thread), so nothing is stated of which ones come back. The crate's source
/// scans the mask by increasing index on every platform, so the numbers are
/// strictly increasing.
#[verifier::external_body]
pub(crate) fn get_core_ids() -> (r: Option<Vec<usize>>)
    ensures
        r matches Some(v) ==> strictly_increasing(v@),
{
    core_affinity::get_core_ids().map(|ids| ids.into_iter().map(|c| c.id).collect())
}

/// `core_affinity::set_for_current`: pins the calling thread to the core with
/// the given number, and gives back, beside the crate's answer, the number it
/// handed over. Whether the operating system accepts the pin is not stated.
/// On Linux, Android and FreeBSD the crate sets bit `core` of the platform's
/// CPU set with `libc::CPU_SET`, which indexes past the set's end (and panics)
/// for a core of `libc::CPU_SETSIZE` or more: hence the precondition, against
/// the set size that [`cpu_set_size`] reports. Elsewhere the crate does not
/// touch a set and returns `false`.
#[verifier::external_body]
pub(crate) fn set_for_current(core: usize, set: &CpuSetSize) -> (r: (bool, usize))
    requires
        core < set.capacity(),
    ensures
        r.1 == core,
{
    (core_affinity::set_for_current(core_affinity::CoreId { id: core }), core)
}

pub open spec fn strictly_increasing(s: Seq<usize>) -> bool {
    forall|i: int, j: int| 0 <= i < j < s.len() ==> s[i] < s[j]
}

} // verus!
