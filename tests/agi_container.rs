use rvf::agi_container::{
    AgiContainerHeader, ContainerError, ContainerSegments, ExecutionMode, AGI_HAS_EVAL,
    AGI_HAS_KERNEL, AGI_HAS_ORCHESTRATOR, AGI_HAS_WASM, AGI_HAS_WITNESS, AGI_HAS_WORLD_MODEL,
    AGI_HEADER_SIZE, AGI_MAGIC, AGI_REPLAY_CAPABLE, AGI_SIGNED,
};
use rvf::circadian::{CircadianPhase, LatencyWindow, PhaseLatches};
use rvf::error::RvfError;
use rvf::VERSION;

#[test]
fn test_version() {
    assert!(!VERSION.is_empty());
}

#[test]
fn agi_header_size() {
    assert_eq!(core::mem::size_of::<AgiContainerHeader>(), 64);
}

#[test]
fn agi_header_round_trip() {
    let hdr = AgiContainerHeader {
        magic: AGI_MAGIC,
        version: 1,
        flags: AGI_HAS_KERNEL
            | AGI_HAS_ORCHESTRATOR
            | AGI_HAS_WORLD_MODEL
            | AGI_HAS_EVAL
            | AGI_SIGNED
            | AGI_REPLAY_CAPABLE,
        container_id: [0x42; 16],
        build_id: [0x43; 16],
        created_ns: 1_700_000_000_000_000_000,
        model_id_hash: [0xAA; 8],
        policy_hash: [0xBB; 8],
    };
    let bytes = hdr.to_bytes();
    assert_eq!(bytes.len(), AGI_HEADER_SIZE);
    let decoded = AgiContainerHeader::from_bytes(&bytes).unwrap();
    assert_eq!(decoded, hdr);
}

#[test]
fn agi_header_bad_magic() {
    let mut bytes = [0u8; 64];
    bytes[0..4].copy_from_slice(&0xDEADBEEFu32.to_le_bytes());
    assert!(AgiContainerHeader::from_bytes(&bytes).is_err());
}

#[test]
fn agi_header_too_short() {
    assert!(AgiContainerHeader::from_bytes(&[0u8; 32]).is_err());
}

#[test]
fn agi_flags() {
    let hdr = AgiContainerHeader {
        magic: AGI_MAGIC,
        version: 1,
        flags: AGI_HAS_KERNEL | AGI_HAS_ORCHESTRATOR | AGI_SIGNED,
        container_id: [0; 16],
        build_id: [0; 16],
        created_ns: 0,
        model_id_hash: [0; 8],
        policy_hash: [0; 8],
    };
    assert!(hdr.has_kernel());
    assert!(hdr.has_orchestrator());
    assert!(hdr.is_signed());
    assert!(!hdr.is_replay_capable());
    assert!(!hdr.is_offline_capable());
}

#[test]
fn execution_mode_round_trip() {
    for raw in 0..=2u8 {
        let m = ExecutionMode::try_from(raw).unwrap();
        assert_eq!(m as u8, raw);
    }
    assert!(ExecutionMode::try_from(3).is_err());
}

#[test]
fn segments_validate_replay_needs_witness() {
    let segs = ContainerSegments {
        manifest_present: true,
        witness_count: 0,
        ..Default::default()
    };
    assert_eq!(
        segs.validate(ExecutionMode::Replay),
        Err(ContainerError::MissingSegment("witness chain"))
    );
}

#[test]
fn segments_validate_live_needs_runtime() {
    let segs = ContainerSegments {
        manifest_present: true,
        kernel_present: false,
        wasm_count: 0,
        ..Default::default()
    };
    assert_eq!(
        segs.validate(ExecutionMode::Live),
        Err(ContainerError::MissingSegment("kernel or WASM runtime"))
    );
}

#[test]
fn segments_validate_live_with_kernel() {
    let segs = ContainerSegments {
        manifest_present: true,
        kernel_present: true,
        ..Default::default()
    };
    assert!(segs.validate(ExecutionMode::Live).is_ok());
}

#[test]
fn segments_validate_live_with_wasm() {
    let segs = ContainerSegments {
        manifest_present: true,
        wasm_count: 2,
        ..Default::default()
    };
    assert!(segs.validate(ExecutionMode::Live).is_ok());
}

#[test]
fn segments_validate_replay_with_witness() {
    let segs = ContainerSegments {
        manifest_present: true,
        witness_count: 10,
        ..Default::default()
    };
    assert!(segs.validate(ExecutionMode::Replay).is_ok());
}

#[test]
fn segments_to_flags() {
    let segs = ContainerSegments {
        kernel_present: true,
        wasm_count: 1,
        witness_count: 5,
        crypto_present: true,
        ..Default::default()
    };
    let flags = segs.to_flags();
    assert_ne!(flags & AGI_HAS_KERNEL, 0);
    assert_ne!(flags & AGI_HAS_WASM, 0);
    assert_ne!(flags & AGI_HAS_WITNESS, 0);
    assert_ne!(flags & AGI_SIGNED, 0);
}

#[test]
fn container_error_display() {
    let e = ContainerError::MissingSegment("kernel");
    assert!(e.to_string().contains("kernel"));
    let e2 = ContainerError::TooLarge { size: 999 };
    assert!(e2.to_string().contains("999"));
}

#[test]
fn container_error_messages_exact() {
    assert_eq!(
        ContainerError::MissingSegment("kernel").to_string(),
        "missing segment: kernel"
    );
    assert_eq!(
        ContainerError::TooLarge { size: 1200 }.to_string(),
        "container too large: 1200 bytes"
    );
    assert_eq!(
        ContainerError::InvalidConfig("x").to_string(),
        "invalid config: x"
    );
    assert_eq!(
        ContainerError::SignatureInvalid.to_string(),
        "signature verification failed"
    );
}

#[test]
fn agi_header_errors_carry_values() {
    assert_eq!(
        AgiContainerHeader::from_bytes(&[0u8; 10]),
        Err(RvfError::SizeMismatch { expected: 64, got: 10 })
    );
    let mut bytes = [0u8; 64];
    bytes[0..4].copy_from_slice(&0xDEADBEEFu32.to_le_bytes());
    assert_eq!(
        AgiContainerHeader::from_bytes(&bytes),
        Err(RvfError::BadMagic { expected: AGI_MAGIC, got: 0xDEADBEEF })
    );
}

#[test]
fn agi_header_layout_is_little_endian() {
    let hdr = AgiContainerHeader {
        magic: AGI_MAGIC,
        version: 0x0102,
        flags: 0x0304,
        container_id: [1; 16],
        build_id: [2; 16],
        created_ns: 0x0102_0304_0506_0708,
        model_id_hash: [3; 8],
        policy_hash: [4; 8],
    };
    assert!(hdr.is_valid_magic());
    let b = hdr.to_bytes();
    assert_eq!(&b[0..4], &[0x47, 0x41, 0x56, 0x52]);
    assert_eq!(&b[4..8], &[0x02, 0x01, 0x04, 0x03]);
    assert_eq!(&b[40..48], &[8, 7, 6, 5, 4, 3, 2, 1]);
    assert_eq!(b[63], 4);
}

#[test]
fn segments_validate_needs_manifest_and_flags_exact() {
    let segs = ContainerSegments::default();
    assert_eq!(
        segs.validate(ExecutionMode::Verify),
        Err(ContainerError::MissingSegment("AGI manifest"))
    );
    assert_eq!(segs.to_flags(), 0);
    let segs = ContainerSegments {
        kernel_present: true,
        crypto_present: true,
        ..Default::default()
    };
    assert_eq!(segs.to_flags(), AGI_HAS_KERNEL | AGI_SIGNED);
}

#[test]
fn execution_mode_codes() {
    assert_eq!(ExecutionMode::Replay.as_u8(), 0);
    assert_eq!(ExecutionMode::Live.as_u8(), 2);
    assert_eq!(ExecutionMode::try_from(7), Err(7));
}

#[test]
fn circadian_phase_gates() {
    assert!(CircadianPhase::Active.allows_learning());
    assert!(CircadianPhase::Dawn.allows_learning());
    assert!(!CircadianPhase::Rest.allows_learning());
    assert!(CircadianPhase::Rest.allows_consolidation());
    assert!(CircadianPhase::Dusk.allows_consolidation());
    assert!(!CircadianPhase::Active.allows_consolidation());
}

#[test]
fn circadian_latches_hold_within_a_phase() {
    let mut l = PhaseLatches::new();
    assert!(l.should_compute(CircadianPhase::Active));
    assert!(l.should_compute(CircadianPhase::Rest));
    assert!(!l.should_learn(CircadianPhase::Active, false));
    assert!(!l.should_learn(CircadianPhase::Active, true));
    assert!(l.peek_compute(CircadianPhase::Rest));
    assert!(!l.should_consolidate(CircadianPhase::Active));
    l.reset();
    assert!(!l.peek_compute(CircadianPhase::Rest));
    assert!(l.peek_learn(CircadianPhase::Dawn, true));
    let mut w = LatencyWindow { latencies: vec![], capacity: 2 };
    w.record(5);
    w.record(6);
    w.record(7);
    assert_eq!(w.latencies, vec![6, 7]);
}
