use luna::attempt::{marker_path, BootAttempt, BootAttemptMarker, BootAttemptProgress, BootStage};

#[test]
fn first_attempt_id_is_stable_for_the_same_inputs() {
    let digest = [7u8; 32];
    let left = BootAttemptMarker::next_attempt_id(None, 0x1000, 0x2000, &digest);
    let right = BootAttemptMarker::next_attempt_id(None, 0x1000, 0x2000, &digest);
    assert_eq!(left, right);
    assert_ne!(left, 0);
}

#[test]
fn previous_attempt_id_is_incremented() {
    let digest = [7u8; 32];
    let id = BootAttemptMarker::next_attempt_id(Some(BootAttemptMarker { attempt_id: 41 }), 0x1000, 0x2000, &digest);
    assert_eq!(id, 42);
}

#[test]
fn volatile_progress_is_monotonic() {
    let mut attempt = BootAttempt::new(123);
    assert_eq!(attempt.stage(), BootStage::BootloaderLoaded);
    assert!(attempt.advance(BootStage::BootloaderCompleted));
    assert!(attempt.advance(BootStage::KernelHandoff));
    assert!(!attempt.advance(BootStage::KernelStarted.min(BootStage::KernelHandoff)));
}

#[test]
fn marker_path_uses_luna_variable_namespace() {
    assert_eq!(
        marker_path().as_str(),
        "/sys/firmware/efi/efivars/LunaBootAttempt-9f6c5d8a-5f3b-4e24-8a3c-1d3f6e2b7c91"
    );
}

#[test]
fn attempt_id_saturates_at_the_maximum() {
    let digest = [0u8; 32];
    let id = BootAttemptMarker::next_attempt_id(Some(BootAttemptMarker { attempt_id: u64::MAX }), 0, 0, &digest);
    assert_eq!(id, u64::MAX);
}

#[test]
fn first_attempt_id_is_the_digest_prefix() {
    let digest = [9u8; 32];
    let mut seed = b"Project Luna boot attempt v1".to_vec();
    seed.extend_from_slice(&0x5000u64.to_le_bytes());
    seed.extend_from_slice(&(0x300u64).to_le_bytes());
    seed.extend_from_slice(&digest);
    let hash = *blake3::hash(&seed).as_bytes();
    let expected = u64::from_le_bytes(hash[..8].try_into().unwrap()).max(1);
    assert_eq!(BootAttemptMarker::next_attempt_id(None, 0x5000, 0x300, &digest), expected);
    assert_ne!(BootAttemptMarker::next_attempt_id(None, 0x5001, 0x300, &digest), expected);
}

#[test]
fn marker_payload_round_trips() {
    let payload = BootAttemptMarker::payload(0x1122_3344_5566_7788);
    assert_eq!(payload.len(), 56);
    assert_eq!(&payload[..8], b"LUNABT01");
    assert_eq!(payload[8], 1);
    assert_eq!(payload[9], 1);
    assert_eq!(&payload[12..20], &0x1122_3344_5566_7788u64.to_le_bytes());
    let mut checked = payload.clone();
    checked[24..56].fill(0);
    assert_eq!(&payload[24..56], blake3::hash(&checked).as_bytes());
    assert_eq!(
        BootAttemptMarker::from_payload(&payload),
        Some(BootAttemptMarker { attempt_id: 0x1122_3344_5566_7788 })
    );
}

#[test]
fn corrupted_or_foreign_markers_are_ignored() {
    let payload = BootAttemptMarker::payload(5);
    let mut corrupted = payload.clone();
    corrupted[13] ^= 1;
    assert_eq!(BootAttemptMarker::from_payload(&corrupted), None);
    let mut wrong_status = payload.clone();
    wrong_status[9] = 2;
    assert_eq!(BootAttemptMarker::from_payload(&wrong_status), None);
    assert_eq!(BootAttemptMarker::from_payload(&payload[..55]), None);
    let mut wrong_magic = payload;
    wrong_magic[0] = b'X';
    assert_eq!(BootAttemptMarker::from_payload(&wrong_magic), None);
}

#[test]
fn progress_reaches_success_and_never_goes_back() {
    let mut p = BootAttemptProgress::new(9);
    assert!(!p.succeeded());
    assert!(p.advance(BootStage::Success));
    assert!(p.succeeded());
    assert!(!p.advance(BootStage::InitReady));
    assert_eq!(p.stage(), BootStage::Success);
    assert_eq!(p.attempt_id(), 9);
}
