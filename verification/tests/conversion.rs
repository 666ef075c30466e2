use tritium_quantize::campaign_provenance::PackageId;
use tritium_quantize::conversion::{
    ConversionError, ConversionRun, ConversionStage, RunStatus,
};

fn checksum(payload: &[u8]) -> PackageId {
    PackageId::from_bytes(*blake3::hash(payload).as_bytes())
}

fn to_bytes(run: &ConversionRun) -> Result<Vec<u8>, ConversionError> {
    let payload = run.payload_bytes()?;
    run.to_bytes(checksum(&payload))
}

fn from_bytes(bytes: &[u8]) -> Result<ConversionRun, ConversionError> {
    let payload = ConversionRun::checkpoint_payload(bytes)?;
    ConversionRun::from_bytes(bytes, checksum(payload))
}

const RECIPE_ID: [u8; 32] = [0x42; 32];

#[test]
fn complete_run_is_ordered_resumable_and_deterministic() {
    let mut run = ConversionRun::new(RECIPE_ID);
    for (index, expected) in ConversionStage::ALL.into_iter().enumerate() {
        assert_eq!(run.current_stage(), Some(expected));
        let attempt = run.begin_stage().expect("begin stage");
        assert_eq!(attempt.stage(), expected);
        assert_eq!(attempt.number(), 1);
        run.complete_stage([index as u8; 32])
            .expect("complete stage");
    }

    assert_eq!(run.status(), RunStatus::Succeeded);
    assert_eq!(run.current_stage(), None);
    assert_eq!(run.receipts().len(), ConversionStage::ALL.len());
    let bytes = to_bytes(&run).expect("serialize");
    assert_eq!(bytes, to_bytes(&run).expect("deterministic serialize"));
    assert_eq!(from_bytes(&bytes).expect("resume"), run);
}

#[test]
fn retryable_failure_retries_same_stage_but_terminal_failure_stops() {
    let mut run = ConversionRun::new(RECIPE_ID);
    run.begin_stage().expect("attempt one");
    run.fail_stage("source_timeout", "remote read timed out", true)
        .expect("retryable failure");
    assert_eq!(run.status(), RunStatus::RetryableFailure);
    assert_eq!(run.current_stage(), Some(ConversionStage::Ingest));

    let retry = run.begin_stage().expect("retry");
    assert_eq!(retry.number(), 2);
    run.fail_stage("bad_checkpoint", "source digest mismatch", false)
        .expect("terminal failure");
    assert_eq!(run.status(), RunStatus::TerminalFailure);
    assert!(run.begin_stage().is_err());
}

#[test]
fn interrupted_attempt_is_explicitly_recovered_after_reload() {
    let mut run = ConversionRun::new(RECIPE_ID);
    run.begin_stage().expect("begin");
    let bytes = to_bytes(&run).expect("serialize running state");
    let mut resumed = from_bytes(&bytes).expect("reload");

    resumed
        .recover_interrupted("worker_lost", "worker lease expired")
        .expect("recover");
    assert_eq!(resumed.status(), RunStatus::RetryableFailure);
    assert_eq!(resumed.begin_stage().expect("retry").number(), 2);
}

#[test]
fn invalid_transitions_and_corrupt_state_are_rejected() {
    let mut run = ConversionRun::new(RECIPE_ID);
    assert!(run.complete_stage([0; 32]).is_err());
    assert!(run.fail_stage("nope", "not running", true).is_err());

    let bytes = to_bytes(&run).expect("serialize");
    let mut bit_flip = bytes.clone();
    bit_flip[10] ^= 1;
    assert!(matches!(
        from_bytes(&bit_flip),
        Err(ConversionError::ChecksumMismatch)
    ));
    assert!(from_bytes(&bytes[..bytes.len() - 1]).is_err());
    let mut trailing = bytes;
    trailing.push(0);
    assert!(from_bytes(&trailing).is_err());
}

#[test]
fn only_a_succeeded_run_has_no_current_stage() {
    let mut run = ConversionRun::new(RECIPE_ID);
    let ready = run.payload_bytes().expect("ready payload");
    run.begin_stage().expect("begin");
    let running = run.payload_bytes().expect("running payload");
    let status = ready
        .iter()
        .zip(&running)
        .position(|(left, right)| left != right)
        .expect("the status differs");
    run.complete_stage([0; 32]).expect("first stage");
    for _ in 1..ConversionStage::ALL.len() {
        run.begin_stage().expect("begin stage");
        run.complete_stage([0; 32]).expect("complete stage");
    }
    let mut forged = run.payload_bytes().expect("succeeded payload");
    forged[status] = ready[status];
    let identity = checksum(&forged);
    forged.extend_from_slice(identity.as_bytes());
    assert!(matches!(
        ConversionRun::from_bytes(&forged, identity),
        Err(ConversionError::InvalidState("invalid ready state"))
    ));
}

#[test]
fn every_reached_run_is_valid_whatever_the_calls_returned() {
    let mut run = ConversionRun::new(RECIPE_ID);
    let mut choice = 7_u32;
    let mut statuses = Vec::new();
    for step in 0..400_u32 {
        choice = choice.wrapping_mul(1_664_525).wrapping_add(1_013_904_223);
        let moved = match (choice >> 24) % 8 {
            0..=2 => run.begin_stage().is_ok(),
            3 => run.fail_stage("E1", "message", true).is_ok(),
            4 => run.fail_stage("", "message", false).is_ok(),
            5 => run.recover_interrupted("E2", "").is_ok(),
            _ => run.complete_stage([step as u8; 32]).is_ok(),
        };
        if moved {
            statuses.push(run.status());
        }
        assert_eq!(run.validate(), Ok(()));
        let done = run.receipts().len();
        assert_eq!(run.current_stage(), ConversionStage::ALL.get(done).copied());
        for (receipt, stage) in run.receipts().iter().zip(ConversionStage::ALL) {
            assert_eq!(receipt.stage(), stage);
            assert!(receipt.attempts() >= 1);
        }
        assert_eq!(
            run.failure().is_some(),
            run.status() == RunStatus::RetryableFailure
        );
        assert_eq!(
            run.current_attempts() == 0,
            matches!(run.status(), RunStatus::Ready | RunStatus::Succeeded)
        );
        assert_eq!(
            run.current_stage().is_none(),
            run.status() == RunStatus::Succeeded
        );
    }
    assert_eq!(run.status(), RunStatus::Succeeded);
    assert!(statuses.contains(&RunStatus::RetryableFailure));
}
