//! What a conversion run promises of its stages, attempts and checkpoints.

use crate::conversion::{
    head, payload, stage_at, stage_field, ConversionStage, RunStatus, RunView, Transition,
};
use crate::wire::{le, lemma_le_len};
use vstd::prelude::*;
use vstd::utf8::encode_utf8;

verus! {

/// The stage that a completed stage hands its artifact to.
pub open spec fn successor(stage: ConversionStage) -> Option<ConversionStage> {
    match stage {
        ConversionStage::Ingest => Some(ConversionStage::Calibrate),
        ConversionStage::Calibrate => Some(ConversionStage::Profile),
        ConversionStage::Profile => Some(ConversionStage::Search),
        ConversionStage::Search => Some(ConversionStage::Refine),
        ConversionStage::Refine => Some(ConversionStage::Pack),
        ConversionStage::Pack => Some(ConversionStage::Validate),
        ConversionStage::Validate => Some(ConversionStage::Publish),
        ConversionStage::Publish => None,
    }
}

/// The pipeline begins with ingest, and every stage is followed by the one that takes its
/// artifact.
pub proof fn stages_follow_their_artifacts(stage: ConversionStage)
    ensures
        stage_at(0) == Some(ConversionStage::Ingest),
        stage_at(stage.position() as int) == Some(stage),
        stage_at(stage.position() + 1) == successor(stage),
{
}

/// A waiting run that is begun runs the stage that it waited with, with one more attempt, and
/// keeps what it completed.
pub proof fn claims_count_attempts(run: RunView)
    requires
        run.valid(),
        run.status is Ready || run.status is RetryableFailure,
        run.attempts < u32::MAX,
    ensures
        ({
            let after = run.stepped(Transition::Begin);
            &&& after.status is Running
            &&& after.current == run.current
            &&& after.attempts == run.attempts + 1
            &&& after.failure is None
            &&& after.receipts == run.receipts
            &&& after.recipe_id == run.recipe_id
        }),
{
}

/// Completing the running stage adds one receipt, of that stage with its attempts and artifact,
/// and makes the stage after it ready without attempts; after the last one the run has succeeded.
pub proof fn completion_advances_the_run(run: RunView, output_id: Seq<u8>)
    requires
        run.valid(),
        run.status is Running,
    ensures
        ({
            let after = run.stepped(Transition::Complete { output_id });
            &&& run.current is Some
            &&& after.receipts.len() == run.receipts.len() + 1
            &&& after.receipts.drop_last() == run.receipts
            &&& after.receipts.last().stage == run.current->0
            &&& after.receipts.last().attempts == run.attempts
            &&& after.receipts.last().output_id == output_id
            &&& after.current == successor(run.current->0)
            &&& after.attempts == 0
            &&& after.failure is None
            &&& after.recipe_id == run.recipe_id
            &&& run.current->0 is Publish ==> after.status is Succeeded
            &&& !(run.current->0 is Publish) ==> after.status is Ready
        }),
{
    let after = run.stepped(Transition::Complete { output_id });
    assert(after.receipts.drop_last() =~= run.receipts);
}

/// A failure of the running stage is held as it was reported, keeps the stage and its attempts,
/// and may be retried exactly if it was reported so. An interruption may always be.
pub proof fn failures_are_held(
    run: RunView,
    code: Seq<char>,
    message: Seq<char>,
    retryable: bool,
)
    requires
        run.valid(),
        run.status is Running,
        code.len() > 0,
        encode_utf8(code).len() <= u32::MAX,
        encode_utf8(message).len() <= u32::MAX,
    ensures
        ({
            let after = run.stepped(Transition::Fail { code, message, retryable });
            &&& after.status == if retryable {
                RunStatus::RetryableFailure
            } else {
                RunStatus::TerminalFailure
            }
            &&& after.failure is Some
            &&& Some(after.failure->0.stage) == run.current
            &&& after.failure->0.retryable == retryable
            &&& after.failure->0.code == code
            &&& after.failure->0.message == message
            &&& after.current == run.current
            &&& after.attempts == run.attempts
            &&& after.receipts == run.receipts
            &&& after.recipe_id == run.recipe_id
        }),
        run.stepped(Transition::Recover { code, message }) == run.stepped(
            Transition::Fail { code, message, retryable: true },
        ),
{
}

/// Nothing moves a run that has succeeded or failed for good; only a running stage completes or
/// fails, and only a waiting one is begun.
pub proof fn other_calls_change_nothing(run: RunView, transition: Transition)
    requires
        run.status is Succeeded || run.status is TerminalFailure || (run.status is Running
            && transition is Begin) || (!(run.status is Running) && !(transition is Begin)),
    ensures
        run.stepped(transition) == run,
{
}

/// The bytes of a checkpoint stand in fixed places: the magic and the version, the recipe's
/// digest, the codes of status and stage, the attempts and the number of receipts, the lowest
/// byte of a number first.
pub proof fn checkpoint_fields_have_their_places(run: RunView)
    requires
        run.valid(),
    ensures
        ({
            let bytes = payload(run);
            &&& bytes.len() >= 48
            &&& bytes.take(4) == seq![84u8, 81u8, 67u8, 83u8]
            &&& bytes[4] == 1
            &&& bytes.subrange(5, 37) == run.recipe_id
            &&& bytes[37] == match run.status {
                RunStatus::Ready => 0u8,
                RunStatus::Running => 1u8,
                RunStatus::RetryableFailure => 2u8,
                RunStatus::TerminalFailure => 3u8,
                RunStatus::Succeeded => 4u8,
            }
            &&& bytes[38] == if run.status is Succeeded {
                255
            } else {
                run.receipts.len()
            }
            &&& bytes[39] + 0x100 * bytes[40] + 0x1_0000 * bytes[41] + 0x100_0000 * bytes[42]
                == run.attempts
            &&& bytes[43] == run.receipts.len()
            &&& bytes[44] == 0 && bytes[45] == 0 && bytes[46] == 0
        }),
{
    broadcast use lemma_le_len;

    reveal_with_fuel(le, 5);
    let bytes = payload(run);
    let start = head(run);
    assert(start.len() == 47);
    assert(bytes.take(47) =~= start);
    assert forall|k: int| 0 <= k < 47 implies bytes[k] == start[k] by {
        assert(bytes.take(47)[k] == start[k]);
    }
    assert(bytes.take(4) =~= seq![84u8, 81u8, 67u8, 83u8]);
    assert(bytes.subrange(5, 37) =~= run.recipe_id);
    let attempts = le(run.attempts as nat, 4);
    assert(bytes[39] == attempts[0] && bytes[40] == attempts[1] && bytes[41] == attempts[2]
        && bytes[42] == attempts[3]);
    let count = le(run.receipts.len(), 4);
    assert(bytes[43] == count[0] && bytes[44] == count[1] && bytes[45] == count[2] && bytes[46]
        == count[3]);
    assert(run.receipts.len() <= 8);
    assert(bytes[38] == stage_field(run.current));
    if run.current is Some {
        stages_follow_their_artifacts(run.current->0);
    }
}

} // verus!
