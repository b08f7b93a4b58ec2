//! SIMD target selection from the CPU features the host reports.

use vstd::prelude::*;

verus! {

/// The SIMD instruction set the kernels are routed to.
#[derive(Debug, Clone, Copy, PartialEq, Eq, Structural)]
pub enum TargetArch {
    Avx512,
    Avx2,
    Neon,
    GenericSimd,
}

/// What the host reports: its architecture and, on x86-64, the features
/// found at run time.
#[derive(Debug, Clone, Copy, PartialEq, Eq, Structural)]
pub struct HostFeatures {
    pub x86_64: bool,
    pub aarch64: bool,
    pub avx512f: bool,
    pub avx2: bool,
    pub fma: bool,
}

/// The target for a host: AVX-512 when an x86-64 host has AVX-512F, else
/// AVX2 when it has both AVX2 and FMA; NEON on AArch64; the generic path
/// otherwise.
pub open spec fn select_target(h: HostFeatures) -> TargetArch {
    if h.x86_64 && h.avx512f {
        TargetArch::Avx512
    } else if h.x86_64 && h.avx2 && h.fma {
        TargetArch::Avx2
    } else if h.aarch64 {
        TargetArch::Neon
    } else {
        TargetArch::GenericSimd
    }
}

pub struct CpuFeatures;

impl CpuFeatures {
    /// Picks the SIMD target for the reported host features.
    pub fn detect(host: HostFeatures) -> (t: TargetArch)
        ensures
            t == select_target(host),
    {
        if host.x86_64 {
            if host.avx512f {
                return TargetArch::Avx512;
            }
            if host.avx2 && host.fma {
                return TargetArch::Avx2;
            }
        }
        if host.aarch64 {
            return TargetArch::Neon;
        }
        TargetArch::GenericSimd
    }
}

/// The kernel dispatcher, bound to one SIMD target.
pub struct JitEngine {
    pub target: TargetArch,
}

impl JitEngine {
    /// An engine for the target chosen for `host`.
    pub fn new(host: HostFeatures) -> (e: Self)
        ensures
            e.target == select_target(host),
    {
        JitEngine { target: CpuFeatures::detect(host) }
    }
}

} // verus!
