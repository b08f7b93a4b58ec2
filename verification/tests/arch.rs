use clux::arch::{CpuFeatures, HostFeatures, JitEngine, TargetArch};

fn host(x86_64: bool, aarch64: bool, avx512f: bool, avx2: bool, fma: bool) -> HostFeatures {
    HostFeatures { x86_64, aarch64, avx512f, avx2, fma }
}

#[test]
fn avx512_first() {
    assert_eq!(CpuFeatures::detect(host(true, false, true, true, true)), TargetArch::Avx512);
    assert_eq!(CpuFeatures::detect(host(true, false, true, false, false)), TargetArch::Avx512);
}

#[test]
fn avx2_needs_fma() {
    assert_eq!(CpuFeatures::detect(host(true, false, false, true, true)), TargetArch::Avx2);
    assert_eq!(CpuFeatures::detect(host(true, false, false, true, false)), TargetArch::GenericSimd);
    assert_eq!(CpuFeatures::detect(host(true, false, false, false, true)), TargetArch::GenericSimd);
}

#[test]
fn aarch64_is_neon() {
    assert_eq!(CpuFeatures::detect(host(false, true, false, false, false)), TargetArch::Neon);
}

#[test]
fn x86_features_count_only_on_x86() {
    assert_eq!(CpuFeatures::detect(host(false, false, true, true, true)), TargetArch::GenericSimd);
}

#[test]
fn engine_uses_the_detected_target() {
    assert_eq!(JitEngine::new(host(false, true, false, false, false)).target, TargetArch::Neon);
    assert_eq!(JitEngine::new(host(true, false, false, true, true)).target, TargetArch::Avx2);
}
