use crab::config::EbpfRuntimeConfig;
use crab::ebpf_domain::EbpfDomain;

#[test]
fn domain_constructors_honor_runtime_stack_size() {
    let default = EbpfRuntimeConfig::default();
    let dom = EbpfDomain::top(&default);
    assert_eq!(dom.stack.total_stack_size(), default.total_stack_size());

    let custom = EbpfRuntimeConfig {
        subprogram_stack_size: 256,
        max_call_stack_frames: 16,
        ..EbpfRuntimeConfig::default()
    };
    assert_eq!(custom.total_stack_size(), 4096);

    let dom = EbpfDomain::new(&custom);
    assert_eq!(dom.stack.total_stack_size(), custom.total_stack_size());

    let bigger = EbpfRuntimeConfig {
        subprogram_stack_size: 1024,
        max_call_stack_frames: 8,
        ..EbpfRuntimeConfig::default()
    };
    let dom = EbpfDomain::bottom(&bigger);
    assert_eq!(dom.stack.total_stack_size(), 8192);
}

#[test]
fn validate_rejects_out_of_range() {
    let bad = EbpfRuntimeConfig {
        subprogram_stack_size: 0,
        ..EbpfRuntimeConfig::default()
    };
    assert!(bad.validate().is_err());

    let bad = EbpfRuntimeConfig {
        max_call_stack_frames: EbpfRuntimeConfig::MAX_CALL_STACK_FRAMES_LIMIT + 1,
        ..EbpfRuntimeConfig::default()
    };
    assert!(bad.validate().is_err());

    let good = EbpfRuntimeConfig {
        subprogram_stack_size: 256,
        max_call_stack_frames: 16,
        ..EbpfRuntimeConfig::default()
    };
    assert!(good.validate().is_ok());
}
