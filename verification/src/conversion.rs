//! Resumable control-plane state for a full-model additive-PTQ conversion.
//!
//! The state machine makes stage order and failure semantics explicit. Its
//! deterministic binary checkpoint records only control state and stage-output
//! digests; bulk tensors remain in separately content-addressed artifacts.

use crate::campaign_provenance::PackageId;
use crate::wire::{
    bytes_equal, le, le_at, le_is_canonical, le_round_trip, lemma_le_len, lemma_le_limits,
    push_bytes, push_le, push_text, read_32, read_le, read_text, text_field, window,
};
use vstd::prelude::*;
use vstd::utf8::{decode_utf8, encode_utf8, valid_utf8};

verus! {

/// Conversion-state checkpoint magic (`TQCS`).
pub const CONVERSION_STATE_MAGIC: [u8; 4] = [0x54, 0x51, 0x43, 0x53];

/// Current conversion-state checkpoint version.
pub const CONVERSION_STATE_VERSION: u8 = 1;

/// Code of an absent current stage.
const NO_STAGE: u8 = 255;

/// Ordered stages of the additive-PTQ conversion pipeline.
#[derive(Clone, Copy, Debug, PartialEq, Eq, Hash, Structural)]
#[non_exhaustive]
pub enum ConversionStage {
    /// Discover and fingerprint source configuration and tensors.
    Ingest,
    /// Build the deterministic calibration sample and activation cache.
    Calibrate,
    /// Measure sensitivity, outliers, and baseline quality.
    Profile,
    /// Search quantization recipes and rate allocations.
    Search,
    /// Run optional reconstruction or teacher-guided refinement.
    Refine,
    /// Encode the chosen progressive ternary package.
    Pack,
    /// Run integrity, fidelity, task, and runtime gates.
    Validate,
    /// Atomically publish immutable artifacts and provenance.
    Publish,
}

/// The stage at a position of the pipeline.
pub open spec fn stage_at(index: int) -> Option<ConversionStage> {
    if index == 0 {
        Some(ConversionStage::Ingest)
    } else if index == 1 {
        Some(ConversionStage::Calibrate)
    } else if index == 2 {
        Some(ConversionStage::Profile)
    } else if index == 3 {
        Some(ConversionStage::Search)
    } else if index == 4 {
        Some(ConversionStage::Refine)
    } else if index == 5 {
        Some(ConversionStage::Pack)
    } else if index == 6 {
        Some(ConversionStage::Validate)
    } else if index == 7 {
        Some(ConversionStage::Publish)
    } else {
        None
    }
}

impl ConversionStage {
    /// Canonical pipeline order.
    pub const ALL: [ConversionStage; 8] = [
        ConversionStage::Ingest,
        ConversionStage::Calibrate,
        ConversionStage::Profile,
        ConversionStage::Search,
        ConversionStage::Refine,
        ConversionStage::Pack,
        ConversionStage::Validate,
        ConversionStage::Publish,
    ];

    /// Position in the pipeline.
    pub open spec fn position(self) -> u8 {
        match self {
            ConversionStage::Ingest => 0,
            ConversionStage::Calibrate => 1,
            ConversionStage::Profile => 2,
            ConversionStage::Search => 3,
            ConversionStage::Refine => 4,
            ConversionStage::Pack => 5,
            ConversionStage::Validate => 6,
            ConversionStage::Publish => 7,
        }
    }

    fn code(self) -> (code: u8)
        ensures
            code == self.position(),
    {
        match self {
            ConversionStage::Ingest => 0,
            ConversionStage::Calibrate => 1,
            ConversionStage::Profile => 2,
            ConversionStage::Search => 3,
            ConversionStage::Refine => 4,
            ConversionStage::Pack => 5,
            ConversionStage::Validate => 6,
            ConversionStage::Publish => 7,
        }
    }

    /// The stage at a position of the pipeline.
    fn at(index: usize) -> (stage: Option<ConversionStage>)
        ensures
            stage == stage_at(index as int),
    {
        match index {
            0 => Some(ConversionStage::Ingest),
            1 => Some(ConversionStage::Calibrate),
            2 => Some(ConversionStage::Profile),
            3 => Some(ConversionStage::Search),
            4 => Some(ConversionStage::Refine),
            5 => Some(ConversionStage::Pack),
            6 => Some(ConversionStage::Validate),
            7 => Some(ConversionStage::Publish),
            _ => None,
        }
    }

    fn from_code(code: u8) -> (stage: Result<Self, ConversionError>)
        ensures
            match stage_at(code as int) {
                Some(known) => stage == Ok::<Self, ConversionError>(known),
                None => stage == Err::<Self, ConversionError>(ConversionError::InvalidStage(code)),
            },
    {
        match ConversionStage::at(code as usize) {
            Some(stage) => Ok(stage),
            None => Err(ConversionError::InvalidStage(code)),
        }
    }

    fn next(self) -> (stage: Option<Self>)
        ensures
            stage == stage_at(self.position() + 1),
    {
        ConversionStage::at(self.code() as usize + 1)
    }
}

/// A stage's position names the stage.
pub proof fn stage_positions(stage: ConversionStage)
    ensures
        stage_at(stage.position() as int) == Some(stage),
        stage.position() < 8,
{
}

/// Lifecycle state of a conversion run.
#[derive(Clone, Copy, Debug, PartialEq, Eq, Hash, Structural)]
#[non_exhaustive]
pub enum RunStatus {
    /// The current stage is ready to begin.
    Ready,
    /// A worker owns an active attempt of the current stage.
    Running,
    /// The last attempt failed and may be retried.
    RetryableFailure,
    /// The last attempt failed and requires operator or recipe changes.
    TerminalFailure,
    /// Every stage, including publish, completed.
    Succeeded,
}

/// The status with a code.
pub open spec fn status_of(code: u8) -> Option<RunStatus> {
    if code == 0 {
        Some(RunStatus::Ready)
    } else if code == 1 {
        Some(RunStatus::Running)
    } else if code == 2 {
        Some(RunStatus::RetryableFailure)
    } else if code == 3 {
        Some(RunStatus::TerminalFailure)
    } else if code == 4 {
        Some(RunStatus::Succeeded)
    } else {
        None
    }
}

impl RunStatus {
    /// Code in a checkpoint.
    pub open spec fn number(self) -> u8 {
        match self {
            RunStatus::Ready => 0,
            RunStatus::Running => 1,
            RunStatus::RetryableFailure => 2,
            RunStatus::TerminalFailure => 3,
            RunStatus::Succeeded => 4,
        }
    }

    fn code(self) -> (code: u8)
        ensures
            code == self.number(),
    {
        match self {
            RunStatus::Ready => 0,
            RunStatus::Running => 1,
            RunStatus::RetryableFailure => 2,
            RunStatus::TerminalFailure => 3,
            RunStatus::Succeeded => 4,
        }
    }

    fn from_code(code: u8) -> (status: Result<Self, ConversionError>)
        ensures
            match status_of(code) {
                Some(known) => status == Ok::<Self, ConversionError>(known),
                None => status == Err::<Self, ConversionError>(ConversionError::InvalidStatus(code)),
            },
    {
        match code {
            0 => Ok(RunStatus::Ready),
            1 => Ok(RunStatus::Running),
            2 => Ok(RunStatus::RetryableFailure),
            3 => Ok(RunStatus::TerminalFailure),
            4 => Ok(RunStatus::Succeeded),
            _ => Err(ConversionError::InvalidStatus(code)),
        }
    }
}

/// Why a conversion transition or state checkpoint was rejected.
#[derive(Clone, Copy, Debug, PartialEq, Eq)]
#[non_exhaustive]
pub enum ConversionError {
    /// Operation is not legal in the current lifecycle state.
    InvalidTransition {
        /// Current lifecycle state.
        status: RunStatus,
        /// Attempted operation.
        operation: &'static str,
    },
    /// The current stage's u32 attempt counter overflowed.
    AttemptOverflow,
    /// Failure code was empty.
    EmptyFailureCode,
    /// A persisted string exceeded its u32 length field.
    FieldTooLong,
    /// State checkpoint magic did not match [`CONVERSION_STATE_MAGIC`].
    BadMagic,
    /// State checkpoint version is not supported.
    UnsupportedVersion(u8),
    /// State checkpoint ended before a declared field completed.
    Truncated,
    /// The exact-byte checkpoint checksum did not match its payload.
    ChecksumMismatch,
    /// Bytes remained after the checkpoint was decoded.
    TrailingBytes(usize),
    /// A stage discriminant was not recognized.
    InvalidStage(u8),
    /// A run-status discriminant was not recognized.
    InvalidStatus(u8),
    /// A persisted string was not valid UTF-8.
    InvalidUtf8,
    /// Decoded fields violated state-machine invariants.
    InvalidState(&'static str),
}

/// A newly claimed attempt of the current conversion stage.
#[derive(Clone, Copy, Debug, PartialEq, Eq)]
pub struct StageAttempt {
    stage: ConversionStage,
    number: u32,
}

impl View for StageAttempt {
    type V = (ConversionStage, u32);

    closed spec fn view(&self) -> (ConversionStage, u32) {
        (self.stage, self.number)
    }
}

impl StageAttempt {
    /// Stage claimed by this attempt.
    pub fn stage(&self) -> (stage: ConversionStage)
        ensures
            stage == self@.0,
    {
        self.stage
    }

    /// One-based attempt number for this stage.
    pub fn number(&self) -> (number: u32)
        ensures
            number == self@.1,
    {
        self.number
    }
}

/// Immutable receipt for one completed conversion stage.
#[derive(Clone, Debug, PartialEq, Eq)]
pub struct StageReceipt {
    stage: ConversionStage,
    attempts: u32,
    output_id: [u8; 32],
}

/// What a receipt holds.
pub struct ReceiptView {
    /// Completed stage.
    pub stage: ConversionStage,
    /// Number of attempts needed to complete the stage.
    pub attempts: u32,
    /// Digest of the stage-output artifact.
    pub output_id: Seq<u8>,
}

impl View for StageReceipt {
    type V = ReceiptView;

    closed spec fn view(&self) -> ReceiptView {
        ReceiptView { stage: self.stage, attempts: self.attempts, output_id: self.output_id@ }
    }
}

impl StageReceipt {
    /// Completed stage.
    pub fn stage(&self) -> (stage: ConversionStage)
        ensures
            stage == self@.stage,
    {
        self.stage
    }

    /// Number of attempts needed to complete the stage.
    pub fn attempts(&self) -> (attempts: u32)
        ensures
            attempts == self@.attempts,
    {
        self.attempts
    }

    /// Digest of the immutable stage-output artifact.
    pub fn output_id(&self) -> (id: &[u8; 32])
        ensures
            id@ == self@.output_id,
    {
        &self.output_id
    }
}

/// Structured failure of a conversion-stage attempt.
#[derive(Clone, Debug, PartialEq, Eq)]
pub struct StageFailure {
    stage: ConversionStage,
    retryable: bool,
    code: String,
    message: String,
}

/// What a failure holds.
pub struct FailureView {
    /// Failed stage.
    pub stage: ConversionStage,
    /// Whether the same recipe may retry this stage.
    pub retryable: bool,
    /// Stable machine-readable failure code.
    pub code: Seq<char>,
    /// Human-readable diagnostic.
    pub message: Seq<char>,
}

impl View for StageFailure {
    type V = FailureView;

    closed spec fn view(&self) -> FailureView {
        FailureView {
            stage: self.stage,
            retryable: self.retryable,
            code: self.code@,
            message: self.message@,
        }
    }
}

impl StageFailure {
    /// Failed stage.
    pub fn stage(&self) -> (stage: ConversionStage)
        ensures
            stage == self@.stage,
    {
        self.stage
    }

    /// Whether the same recipe may retry this stage.
    pub fn retryable(&self) -> (retryable: bool)
        ensures
            retryable == self@.retryable,
    {
        self.retryable
    }

    /// Stable machine-readable failure code.
    pub fn code(&self) -> (code: &str)
        ensures
            code@ == self@.code,
    {
        self.code.as_str()
    }

    /// Human-readable diagnostic, which must not be used for control flow.
    pub fn message(&self) -> (message: &str)
        ensures
            message@ == self@.message,
    {
        self.message.as_str()
    }
}

/// What a run holds.
pub struct RunView {
    /// Digest of the immutable conversion recipe.
    pub recipe_id: Seq<u8>,
    /// Lifecycle state.
    pub status: RunStatus,
    /// Stage awaiting work, running, or failed.
    pub current: Option<ConversionStage>,
    /// Attempts already started for the current stage.
    pub attempts: u32,
    /// Receipts for completed stages.
    pub receipts: Seq<ReceiptView>,
    /// Most recent failure.
    pub failure: Option<FailureView>,
}

/// The reason why receipts from a position on are not those of a pipeline prefix, if any.
pub open spec fn receipts_error(receipts: Seq<ReceiptView>, from: int) -> Option<ConversionError>
    decreases receipts.len() - from,
{
    if from < 0 || from >= receipts.len() {
        None
    } else if Some(receipts[from].stage) != stage_at(from) {
        Some(ConversionError::InvalidState("stage receipts are not a canonical prefix"))
    } else if receipts[from].attempts == 0 {
        Some(ConversionError::InvalidState("completed stage has zero attempts"))
    } else {
        receipts_error(receipts, from + 1)
    }
}

impl RunView {
    /// The stage after the completed ones.
    pub open spec fn due(self) -> Option<ConversionStage> {
        stage_at(self.receipts.len() as int)
    }

    /// The reason why status, stage, attempts and failure do not fit together, if any.
    pub open spec fn status_error(self) -> Option<ConversionError> {
        match self.status {
            RunStatus::Ready => if self.current is None || self.current != self.due()
                || self.attempts != 0 || self.failure is Some {
                Some(ConversionError::InvalidState("invalid ready state"))
            } else {
                None
            },
            RunStatus::Running => if self.current is None || self.current != self.due()
                || self.attempts == 0 || self.failure is Some {
                Some(ConversionError::InvalidState("invalid running state"))
            } else {
                None
            },
            RunStatus::RetryableFailure | RunStatus::TerminalFailure => match self.failure {
                None => Some(ConversionError::InvalidState("failure status lacks failure")),
                Some(failure) => if self.current != self.due() || self.attempts == 0 {
                    Some(ConversionError::InvalidState("invalid failure state"))
                } else if self.current is None {
                    Some(ConversionError::InvalidState("failure state has no current stage"))
                } else if Some(failure.stage) != self.current || failure.retryable != (self.status
                    is RetryableFailure) || failure.code.len() == 0 {
                    Some(ConversionError::InvalidState("invalid failure state"))
                } else {
                    None
                },
            },
            RunStatus::Succeeded => if self.receipts.len() != 8 || self.current is Some
                || self.attempts != 0 || self.failure is Some {
                Some(ConversionError::InvalidState("invalid succeeded state"))
            } else {
                None
            },
        }
    }

    /// The broken state-machine invariant, if there is one.
    pub open spec fn state_error(self) -> Option<ConversionError> {
        if self.receipts.len() > 8 {
            Some(ConversionError::InvalidState("too many stage receipts"))
        } else {
            match receipts_error(self.receipts, 0) {
                Some(error) => Some(error),
                None => self.status_error(),
            }
        }
    }

    /// Whether the texts of the failure fit their length fields.
    pub open spec fn texts_fit(self) -> bool {
        self.failure matches Some(failure) ==> encode_utf8(failure.code).len() <= u32::MAX
            && encode_utf8(failure.message).len() <= u32::MAX
    }

    /// Whether digests have their size.
    pub open spec fn digests_fit(self) -> bool {
        &&& self.recipe_id.len() == 32
        &&& forall|k: int|
            0 <= k < self.receipts.len() ==> (#[trigger] self.receipts[k]).output_id.len() == 32
    }

    /// Whether the run satisfies every invariant of the state machine.
    pub open spec fn valid(self) -> bool {
        self.state_error() is None && self.texts_fit() && self.digests_fit()
    }
}

/// A call that may move a run, with what it is given.
pub enum Transition {
    /// The current stage is claimed.
    Begin,
    /// The running stage is completed.
    Complete {
        /// Digest of the stage's artifact.
        output_id: Seq<u8>,
    },
    /// The running stage fails.
    Fail {
        /// Failure code.
        code: Seq<char>,
        /// Diagnostic.
        message: Seq<char>,
        /// Whether the stage may be claimed again.
        retryable: bool,
    },
    /// The running stage was interrupted.
    Recover {
        /// Failure code.
        code: Seq<char>,
        /// Diagnostic.
        message: Seq<char>,
    },
}

impl RunView {
    /// A run that has just started.
    pub open spec fn started(recipe_id: Seq<u8>) -> RunView {
        RunView {
            recipe_id,
            status: RunStatus::Ready,
            current: Some(ConversionStage::Ingest),
            attempts: 0,
            receipts: Seq::empty(),
            failure: None,
        }
    }

    /// The run after a failure of the running stage, unchanged where it is refused.
    pub open spec fn failed(self, code: Seq<char>, message: Seq<char>, retryable: bool) -> RunView {
        if self.status is Running && self.current is Some && code.len() > 0 && encode_utf8(
            code,
        ).len() <= u32::MAX && encode_utf8(message).len() <= u32::MAX {
            RunView {
                status: if retryable {
                    RunStatus::RetryableFailure
                } else {
                    RunStatus::TerminalFailure
                },
                failure: Some(FailureView { stage: self.current->0, retryable, code, message }),
                ..self
            }
        } else {
            self
        }
    }

    /// The run after a transition, unchanged where it is refused.
    pub open spec fn stepped(self, transition: Transition) -> RunView {
        match transition {
            Transition::Begin => if (self.status is Ready || self.status is RetryableFailure)
                && self.current is Some && self.attempts < u32::MAX {
                RunView {
                    status: RunStatus::Running,
                    attempts: (self.attempts + 1) as u32,
                    failure: None,
                    ..self
                }
            } else {
                self
            },
            Transition::Complete { output_id } => if self.status is Running
                && self.current is Some {
                let stage = self.current->0;
                let next = stage_at(stage.position() + 1);
                RunView {
                    status: if next is Some {
                        RunStatus::Ready
                    } else {
                        RunStatus::Succeeded
                    },
                    current: next,
                    attempts: 0,
                    receipts: self.receipts.push(
                        ReceiptView { stage, attempts: self.attempts, output_id },
                    ),
                    failure: None,
                    ..self
                }
            } else {
                self
            },
            Transition::Fail { code, message, retryable } => self.failed(code, message, retryable),
            Transition::Recover { code, message } => self.failed(code, message, true),
        }
    }

    /// The run after transitions one after the other.
    pub open spec fn replayed(self, transitions: Seq<Transition>) -> RunView
        decreases transitions.len(),
    {
        if transitions.len() == 0 {
            self
        } else {
            self.replayed(transitions.drop_last()).stepped(transitions.last())
        }
    }
}

/// A stage or the code of its absence.
pub open spec fn stage_field(stage: Option<ConversionStage>) -> u8 {
    match stage {
        None => 255,
        Some(known) => known.position(),
    }
}

/// The record of a receipt.
pub open spec fn receipt_record(receipt: ReceiptView) -> Seq<u8> {
    seq![receipt.stage.position()] + le(receipt.attempts as nat, 4) + receipt.output_id
}

/// The records of receipts one after the other.
pub open spec fn receipt_records(receipts: Seq<ReceiptView>) -> Seq<u8>
    decreases receipts.len(),
{
    if receipts.len() == 0 {
        Seq::empty()
    } else {
        receipt_records(receipts.drop_last()) + receipt_record(receipts.last())
    }
}

/// A marked optional failure.
pub open spec fn failure_field(failure: Option<FailureView>) -> Seq<u8> {
    match failure {
        None => seq![0u8],
        Some(held) => seq![
            1u8,
            held.stage.position(),
            if held.retryable {
                1u8
            } else {
                0u8
            },
        ] + text_field(held.code) + text_field(held.message),
    }
}

/// `TQCS`, the version, and the fields up to the receipt records.
pub open spec fn head(run: RunView) -> Seq<u8> {
    seq![0x54u8, 0x51u8, 0x43u8, 0x53u8, 1u8] + run.recipe_id + seq![
        run.status.number(),
        stage_field(run.current),
    ] + le(run.attempts as nat, 4) + le(run.receipts.len(), 4)
}

/// The checkpoint of a run without its checksum.
pub open spec fn payload(run: RunView) -> Seq<u8> {
    head(run) + receipt_records(run.receipts) + failure_field(run.failure)
}

/// The reason why bytes do not hold the fields up to the receipt records, if there is one.
pub open spec fn head_error(bytes: Seq<u8>) -> Option<ConversionError> {
    if bytes.len() < 4 {
        Some(ConversionError::Truncated)
    } else if bytes.subrange(0, 4) != seq![0x54u8, 0x51u8, 0x43u8, 0x53u8] {
        Some(ConversionError::BadMagic)
    } else if bytes.len() < 5 {
        Some(ConversionError::Truncated)
    } else if bytes[4] != 1 {
        Some(ConversionError::UnsupportedVersion(bytes[4]))
    } else if bytes.len() < 38 {
        Some(ConversionError::Truncated)
    } else if status_of(bytes[37]) is None {
        Some(ConversionError::InvalidStatus(bytes[37]))
    } else if bytes.len() < 39 {
        Some(ConversionError::Truncated)
    } else if bytes[38] != 255 && stage_at(bytes[38] as int) is None {
        Some(ConversionError::InvalidStage(bytes[38]))
    } else if bytes.len() < 47 {
        Some(ConversionError::Truncated)
    } else if le_at(bytes, 43, 4) > (bytes.len() - 47) / 37 {
        Some(ConversionError::Truncated)
    } else {
        None
    }
}

/// Where the record of a receipt starts.
pub open spec fn receipt_start(index: int) -> int {
    47 + 37 * index
}

/// The receipt whose record stands at a position.
pub open spec fn read_receipt(bytes: Seq<u8>, index: int) -> ReceiptView {
    let start = receipt_start(index);
    ReceiptView {
        stage: stage_at(bytes[start] as int)->0,
        attempts: le_at(bytes, start + 1, 4) as u32,
        output_id: bytes.subrange(start + 5, start + 37),
    }
}

/// The first unknown stage of the receipt records from a position on, if there is one.
pub open spec fn stage_error(bytes: Seq<u8>, from: int, count: int) -> Option<ConversionError>
    decreases count - from,
{
    if from >= count {
        None
    } else if stage_at(bytes[receipt_start(from)] as int) is None {
        Some(ConversionError::InvalidStage(bytes[receipt_start(from)]))
    } else {
        stage_error(bytes, from + 1, count)
    }
}

/// The receipts that bytes hold.
pub open spec fn read_receipts(bytes: Seq<u8>, count: nat) -> Seq<ReceiptView> {
    Seq::new(count, |index: int| read_receipt(bytes, index))
}

/// The text at a position, and where it ends.
pub open spec fn text_at(bytes: Seq<u8>, start: int) -> Result<(Seq<char>, int), ConversionError> {
    if bytes.len() < start + 4 {
        Err(ConversionError::Truncated)
    } else {
        let end = start + 4 + le_at(bytes, start, 4);
        if bytes.len() < end {
            Err(ConversionError::Truncated)
        } else if !valid_utf8(bytes.subrange(start + 4, end)) {
            Err(ConversionError::InvalidUtf8)
        } else {
            Ok((decode_utf8(bytes.subrange(start + 4, end)), end))
        }
    }
}

/// The marked optional failure at a position, and where it ends.
pub open spec fn failure_at(bytes: Seq<u8>, start: int) -> Result<
    (Option<FailureView>, int),
    ConversionError,
> {
    if bytes.len() < start + 1 {
        Err(ConversionError::Truncated)
    } else if bytes[start] == 0 {
        Ok((None, start + 1))
    } else if bytes[start] != 1 {
        Err(ConversionError::InvalidState("invalid failure-present flag"))
    } else if bytes.len() < start + 2 {
        Err(ConversionError::Truncated)
    } else if stage_at(bytes[start + 1] as int) is None {
        Err(ConversionError::InvalidStage(bytes[start + 1]))
    } else if bytes.len() < start + 3 {
        Err(ConversionError::Truncated)
    } else if bytes[start + 2] > 1 {
        Err(ConversionError::InvalidState("invalid retryable flag"))
    } else {
        match text_at(bytes, start + 3) {
            Err(error) => Err(error),
            Ok((code, middle)) => match text_at(bytes, middle) {
                Err(error) => Err(error),
                Ok((message, end)) => Ok(
                    (
                        Some(
                            FailureView {
                                stage: stage_at(bytes[start + 1] as int)->0,
                                retryable: bytes[start + 2] == 1,
                                code,
                                message,
                            },
                        ),
                        end,
                    ),
                ),
            },
        }
    }
}

/// The run that a payload declares, whether or not it satisfies the invariants.
pub open spec fn declared(bytes: Seq<u8>, failure: Option<FailureView>) -> RunView {
    RunView {
        recipe_id: bytes.subrange(5, 37),
        status: status_of(bytes[37])->0,
        current: stage_at(bytes[38] as int),
        attempts: le_at(bytes, 39, 4) as u32,
        receipts: read_receipts(bytes, le_at(bytes, 43, 4)),
        failure,
    }
}

/// The run that a payload restores, or the reason why it is rejected.
pub open spec fn restored(bytes: Seq<u8>) -> Result<RunView, ConversionError> {
    match head_error(bytes) {
        Some(error) => Err(error),
        None => {
            let count = le_at(bytes, 43, 4);
            match stage_error(bytes, 0, count as int) {
                Some(error) => Err(error),
                None => match failure_at(bytes, receipt_start(count as int)) {
                    Err(error) => Err(error),
                    Ok((failure, end)) => if end != bytes.len() {
                        Err(ConversionError::TrailingBytes((bytes.len() - end) as usize))
                    } else {
                        match declared(bytes, failure).state_error() {
                            Some(error) => Err(error),
                            None => Ok(declared(bytes, failure)),
                        }
                    },
                },
            }
        },
    }
}

/// Persisted, resumable state of one immutable conversion recipe.
#[derive(Clone, Debug, PartialEq, Eq)]
pub struct ConversionRun {
    recipe_id: [u8; 32],
    status: RunStatus,
    current: Option<ConversionStage>,
    attempts: u32,
    receipts: Vec<StageReceipt>,
    failure: Option<StageFailure>,
}

/// The contents of receipts.
pub open spec fn receipt_views(receipts: Seq<StageReceipt>) -> Seq<ReceiptView> {
    Seq::new(receipts.len(), |k: int| receipts[k]@)
}

/// The content of an optional failure.
pub open spec fn failure_view(failure: Option<StageFailure>) -> Option<FailureView> {
    match failure {
        Some(held) => Some(held@),
        None => None,
    }
}

impl View for ConversionRun {
    type V = RunView;

    closed spec fn view(&self) -> RunView {
        RunView {
            recipe_id: self.recipe_id@,
            status: self.status,
            current: self.current,
            attempts: self.attempts,
            receipts: receipt_views(self.receipts@),
            failure: failure_view(self.failure),
        }
    }
}

impl ConversionRun {
    /// Start a run at [`ConversionStage::Ingest`].
    pub fn new(recipe_id: [u8; 32]) -> (run: Self)
        ensures
            run@ == RunView::started(recipe_id@),
            run@.valid(),
    {
        let run = ConversionRun {
            recipe_id,
            status: RunStatus::Ready,
            current: Some(ConversionStage::Ingest),
            attempts: 0,
            receipts: Vec::new(),
            failure: None,
        };
        assert(run@.receipts =~= Seq::empty());
        run
    }

    /// Digest of the immutable conversion recipe and source selection.
    pub fn recipe_id(&self) -> (id: &[u8; 32])
        ensures
            id@ == self@.recipe_id,
    {
        &self.recipe_id
    }

    /// Current run lifecycle state.
    pub fn status(&self) -> (status: RunStatus)
        ensures
            status == self@.status,
    {
        self.status
    }

    /// Stage awaiting work, running, or failed; `None` only after success.
    pub fn current_stage(&self) -> (stage: Option<ConversionStage>)
        ensures
            stage == self@.current,
            self@.valid() ==> (stage is None <==> self@.status is Succeeded),
    {
        self.current
    }

    /// Attempts already started for the current stage.
    pub fn current_attempts(&self) -> (attempts: u32)
        ensures
            attempts == self@.attempts,
    {
        self.attempts
    }

    /// Ordered immutable receipts for completed stages.
    pub fn receipts(&self) -> (receipts: &[StageReceipt])
        ensures
            receipt_views(receipts@) == self@.receipts,
    {
        self.receipts.as_slice()
    }

    /// Most recent failure, present only in a failure status.
    pub fn failure(&self) -> (failure: Option<&StageFailure>)
        ensures
            match failure {
                Some(held) => self@.failure == Some(held@),
                None => self@.failure is None,
            },
    {
        match &self.failure {
            Some(held) => Some(held),
            None => None,
        }
    }

    /// Claim the current ready or retryable stage and increment its attempt.
    ///
    /// # Errors
    /// Returns [`ConversionError::InvalidTransition`] when already running,
    /// terminally failed, or complete, and [`ConversionError::AttemptOverflow`]
    /// if the attempt counter is exhausted.
    pub fn begin_stage(&mut self) -> (attempt: Result<StageAttempt, ConversionError>)
        ensures
            old(self)@.valid() ==> final(self)@.valid(),
            final(self)@ == old(self)@.stepped(Transition::Begin),
            attempt is Err ==> final(self)@ == old(self)@,
            if !(old(self)@.status is Ready || old(self)@.status is RetryableFailure) {
                attempt == Err::<StageAttempt, ConversionError>(
                    ConversionError::InvalidTransition {
                        status: old(self)@.status,
                        operation: "begin_stage",
                    },
                )
            } else if old(self)@.current is None {
                attempt == Err::<StageAttempt, ConversionError>(
                    ConversionError::InvalidState("runnable run has no current stage"),
                )
            } else if old(self)@.attempts == u32::MAX {
                attempt == Err::<StageAttempt, ConversionError>(ConversionError::AttemptOverflow)
            } else {
                &&& attempt matches Ok(made)
                &&& made@ == (old(self)@.current->0, (old(self)@.attempts + 1) as u32)
                &&& final(self)@ == (RunView {
                    status: RunStatus::Running,
                    attempts: (old(self)@.attempts + 1) as u32,
                    failure: None,
                    ..old(self)@
                })
            },
    {
        match self.status {
            RunStatus::Ready | RunStatus::RetryableFailure => {},
            _ => {
                return Err(
                    ConversionError::InvalidTransition {
                        status: self.status,
                        operation: "begin_stage",
                    },
                );
            },
        }
        let stage: ConversionStage = match self.current {
            Some(stage) => stage,
            None => {
                return Err(ConversionError::InvalidState("runnable run has no current stage"));
            },
        };
        self.attempts = match self.attempts.checked_add(1) {
            Some(attempts) => attempts,
            None => {
                return Err(ConversionError::AttemptOverflow);
            },
        };
        self.status = RunStatus::Running;
        self.failure = None;
        Ok(StageAttempt { stage, number: self.attempts })
    }

    /// Complete the running stage and advance to the next stage.
    ///
    /// `output_id` identifies the stage's immutable checkpoint artifact.
    ///
    /// # Errors
    /// Returns [`ConversionError::InvalidTransition`] unless a stage is running.
    pub fn complete_stage(&mut self, output_id: [u8; 32]) -> (result: Result<(), ConversionError>)
        ensures
            old(self)@.valid() ==> final(self)@.valid(),
            final(self)@ == old(self)@.stepped(Transition::Complete { output_id: output_id@ }),
            result is Err ==> final(self)@ == old(self)@,
            if !(old(self)@.status is Running) {
                result == Err::<(), ConversionError>(
                    ConversionError::InvalidTransition {
                        status: old(self)@.status,
                        operation: "complete_stage",
                    },
                )
            } else {
                match old(self)@.current {
                    None => result == Err::<(), ConversionError>(
                        ConversionError::InvalidState("running run has no current stage"),
                    ),
                    Some(stage) => {
                        let next = stage_at(stage.position() + 1);
                        &&& result is Ok
                        &&& final(self)@ == (RunView {
                            status: if next is Some {
                                RunStatus::Ready
                            } else {
                                RunStatus::Succeeded
                            },
                            current: next,
                            attempts: 0,
                            receipts: old(self)@.receipts.push(
                                ReceiptView {
                                    stage,
                                    attempts: old(self)@.attempts,
                                    output_id: output_id@,
                                },
                            ),
                            failure: None,
                            ..old(self)@
                        })
                    },
                }
            },
    {
        let ghost before = self@;
        if self.status != RunStatus::Running {
            return Err(
                ConversionError::InvalidTransition {
                    status: self.status,
                    operation: "complete_stage",
                },
            );
        }
        let stage: ConversionStage = match self.current {
            Some(stage) => stage,
            None => {
                return Err(ConversionError::InvalidState("running run has no current stage"));
            },
        };
        let receipt = StageReceipt { stage, attempts: self.attempts, output_id };
        self.receipts.push(receipt);
        self.failure = None;
        self.attempts = 0;
        self.current = stage.next();
        self.status =
        if self.current.is_some() {
            RunStatus::Ready
        } else {
            RunStatus::Succeeded
        };
        proof {
            assert(self@.receipts =~= before.receipts.push(receipt@));
            stage_positions(stage);
            if before.valid() {
                lemma_receipts_push(before.receipts, receipt@, 0);
            }
        }
        Ok(())
    }

    /// Record failure of the running stage.
    ///
    /// A retryable failure may be claimed again with [`Self::begin_stage`]. A
    /// terminal failure cannot transition without constructing a new recipe/run.
    ///
    /// # Errors
    /// Returns [`ConversionError`] unless a stage is running, when `code` is
    /// empty, or when either string exceeds the checkpoint format's u32 length.
    pub fn fail_stage(&mut self, code: &str, message: &str, retryable: bool) -> (result: Result<
        (),
        ConversionError,
    >)
        ensures
            old(self)@.valid() ==> final(self)@.valid(),
            final(self)@ == old(self)@.stepped(
                Transition::Fail { code: code@, message: message@, retryable },
            ),
            result is Err ==> final(self)@ == old(self)@,
            if !(old(self)@.status is Running) {
                result == Err::<(), ConversionError>(
                    ConversionError::InvalidTransition {
                        status: old(self)@.status,
                        operation: "fail_stage",
                    },
                )
            } else if code@.len() == 0 {
                result == Err::<(), ConversionError>(ConversionError::EmptyFailureCode)
            } else if encode_utf8(code@).len() > u32::MAX || encode_utf8(message@).len()
                > u32::MAX {
                result == Err::<(), ConversionError>(ConversionError::FieldTooLong)
            } else {
                match old(self)@.current {
                    None => result == Err::<(), ConversionError>(
                        ConversionError::InvalidState("running run has no current stage"),
                    ),
                    Some(stage) => {
                        &&& result is Ok
                        &&& final(self)@ == (RunView {
                            status: if retryable {
                                RunStatus::RetryableFailure
                            } else {
                                RunStatus::TerminalFailure
                            },
                            failure: Some(
                                FailureView { stage, retryable, code: code@, message: message@ },
                            ),
                            ..old(self)@
                        })
                    },
                }
            },
    {
        if self.status != RunStatus::Running {
            return Err(
                ConversionError::InvalidTransition { status: self.status, operation: "fail_stage" },
            );
        }
        if code.unicode_len() == 0 {
            return Err(ConversionError::EmptyFailureCode);
        }
        if code.as_bytes().len() as u64 > u32::MAX as u64 || message.as_bytes().len() as u64
            > u32::MAX as u64 {
            return Err(ConversionError::FieldTooLong);
        }
        let stage: ConversionStage = match self.current {
            Some(stage) => stage,
            None => {
                return Err(ConversionError::InvalidState("running run has no current stage"));
            },
        };
        self.status =
        if retryable {
            RunStatus::RetryableFailure
        } else {
            RunStatus::TerminalFailure
        };
        self.failure =
        Some(
            StageFailure { stage, retryable, code: code.to_owned(), message: message.to_owned() },
        );
        Ok(())
    }

    /// Convert a persisted running attempt whose worker lease was lost into a
    /// retryable failure of the same stage.
    ///
    /// # Errors
    /// Has the same error conditions as [`Self::fail_stage`].
    pub fn recover_interrupted(&mut self, code: &str, message: &str) -> (result: Result<
        (),
        ConversionError,
    >)
        ensures
            old(self)@.valid() ==> final(self)@.valid(),
            final(self)@ == old(self)@.stepped(
                Transition::Recover { code: code@, message: message@ },
            ),
            result is Err ==> final(self)@ == old(self)@,
            if !(old(self)@.status is Running) {
                result == Err::<(), ConversionError>(
                    ConversionError::InvalidTransition {
                        status: old(self)@.status,
                        operation: "fail_stage",
                    },
                )
            } else if code@.len() == 0 {
                result == Err::<(), ConversionError>(ConversionError::EmptyFailureCode)
            } else if encode_utf8(code@).len() > u32::MAX || encode_utf8(message@).len()
                > u32::MAX {
                result == Err::<(), ConversionError>(ConversionError::FieldTooLong)
            } else {
                match old(self)@.current {
                    None => result == Err::<(), ConversionError>(
                        ConversionError::InvalidState("running run has no current stage"),
                    ),
                    Some(stage) => {
                        &&& result is Ok
                        &&& final(self)@ == (RunView {
                            status: RunStatus::RetryableFailure,
                            failure: Some(
                                FailureView {
                                    stage,
                                    retryable: true,
                                    code: code@,
                                    message: message@,
                                },
                            ),
                            ..old(self)@
                        })
                    },
                }
            },
    {
        self.fail_stage(code, message, true)
    }

    /// Checks that the receipts are those of a pipeline prefix.
    fn check_receipts(&self) -> (result: Result<(), ConversionError>)
        ensures
            match receipts_error(self@.receipts, 0) {
                Some(error) => result == Err::<(), ConversionError>(error),
                None => result is Ok,
            },
    {
        let mut index: usize = 0;
        while index < self.receipts.len()
            invariant
                index <= self.receipts@.len(),
                receipts_error(self@.receipts, 0) == receipts_error(self@.receipts, index as int),
            decreases self.receipts@.len() - index,
        {
            let receipt: &StageReceipt = &self.receipts[index];
            assert(self@.receipts[index as int] == receipt@);
            let known: bool = match ConversionStage::at(index) {
                Some(stage) => stage == receipt.stage,
                None => false,
            };
            if !known {
                return Err(
                    ConversionError::InvalidState("stage receipts are not a canonical prefix"),
                );
            }
            if receipt.attempts == 0 {
                return Err(ConversionError::InvalidState("completed stage has zero attempts"));
            }
            index = index + 1;
        }
        Ok(())
    }

    /// Checks every invariant of the state machine.
    pub fn validate(&self) -> (result: Result<(), ConversionError>)
        ensures
            match self@.state_error() {
                Some(error) => result == Err::<(), ConversionError>(error),
                None => result is Ok,
            },
    {
        if self.receipts.len() > 8 {
            return Err(ConversionError::InvalidState("too many stage receipts"));
        }
        self.check_receipts()?;
        let current: u8 = current_code(self.current);
        let due: u8 = current_code(ConversionStage::at(self.receipts.len()));
        proof {
            lemma_stage_field(self.current, self@.due());
        }
        match self.status {
            RunStatus::Ready => {
                if self.current.is_none() || current != due || self.attempts != 0
                    || self.failure.is_some() {
                    return Err(ConversionError::InvalidState("invalid ready state"));
                }
            },
            RunStatus::Running => {
                if self.current.is_none() || current != due || self.attempts == 0
                    || self.failure.is_some() {
                    return Err(ConversionError::InvalidState("invalid running state"));
                }
            },
            RunStatus::RetryableFailure | RunStatus::TerminalFailure => {
                let failure: &StageFailure = match &self.failure {
                    Some(failure) => failure,
                    None => {
                        return Err(ConversionError::InvalidState("failure status lacks failure"));
                    },
                };
                if current != due || self.attempts == 0 {
                    return Err(ConversionError::InvalidState("invalid failure state"));
                }
                let stage: ConversionStage = match self.current {
                    Some(stage) => stage,
                    None => {
                        return Err(
                            ConversionError::InvalidState("failure state has no current stage"),
                        );
                    },
                };
                let retryable: bool = self.status == RunStatus::RetryableFailure;
                if failure.stage != stage || failure.retryable != retryable
                    || failure.code.as_str().unicode_len() == 0 {
                    return Err(ConversionError::InvalidState("invalid failure state"));
                }
            },
            RunStatus::Succeeded => {
                if self.receipts.len() != 8 || self.current.is_some() || self.attempts != 0
                    || self.failure.is_some() {
                    return Err(ConversionError::InvalidState("invalid succeeded state"));
                }
            },
        }
        Ok(())
    }
}

/// Stages are told apart by their codes.
proof fn lemma_stage_field(left: Option<ConversionStage>, right: Option<ConversionStage>)
    ensures
        left == right <==> stage_field(left) == stage_field(right),
{
}

fn current_code(stage: Option<ConversionStage>) -> (code: u8)
    ensures
        code == stage_field(stage),
{
    match stage {
        None => NO_STAGE,
        Some(known) => known.code(),
    }
}

/// A receipt of the due stage extends a pipeline prefix.
proof fn lemma_receipts_push(receipts: Seq<ReceiptView>, receipt: ReceiptView, from: int)
    requires
        0 <= from <= receipts.len(),
        receipts_error(receipts, from) is None,
        stage_at(receipts.len() as int) == Some(receipt.stage),
        receipt.attempts != 0,
    ensures
        receipts_error(receipts.push(receipt), from) is None,
    decreases receipts.len() - from,
{
    if from < receipts.len() {
        lemma_receipts_push(receipts, receipt, from + 1);
    } else {
        assert(receipts_error(receipts.push(receipt), from + 1) is None);
    }
}

impl ConversionRun {
    /// The checkpoint of this run without its checksum.
    ///
    /// # Errors
    /// Returns [`ConversionError::InvalidState`] for a broken invariant and
    /// [`ConversionError::FieldTooLong`] if a failure string does not fit
    /// the version-1 u32 length fields.
    pub fn payload_bytes(&self) -> (bytes: Result<Vec<u8>, ConversionError>)
        ensures
            match self@.state_error() {
                Some(error) => bytes == Err::<Vec<u8>, ConversionError>(error),
                None => if !self@.texts_fit() {
                    bytes == Err::<Vec<u8>, ConversionError>(ConversionError::FieldTooLong)
                } else {
                    bytes matches Ok(made) && made@ == payload(self@)
                },
            },
    {
        self.validate()?;
        let mut out: Vec<u8> = Vec::new();
        self.push_head(&mut out);
        let ghost front = head(self@);
        let mut index: usize = 0;
        assert(out@ =~= front + receipt_records(self@.receipts.take(0)));
        while index < self.receipts.len()
            invariant
                index <= self.receipts@.len(),
                out@ == front + receipt_records(self@.receipts.take(index as int)),
            decreases self.receipts@.len() - index,
        {
            let receipt: &StageReceipt = &self.receipts[index];
            let ghost before = out@;
            out.push(receipt.stage.code());
            push_le(&mut out, receipt.attempts as u64, 4);
            push_bytes(&mut out, receipt.output_id.as_slice());
            proof {
                assert(self@.receipts[index as int] == receipt@);
                let longer = self@.receipts.take(index + 1);
                assert(longer.drop_last() =~= self@.receipts.take(index as int));
                assert(out@ =~= before + receipt_record(receipt@));
                assert(out@ =~= front + receipt_records(longer));
            }
            index = index + 1;
        }
        assert(self@.receipts.take(index as int) =~= self@.receipts);
        let ghost before = out@;
        match &self.failure {
            None => {
                out.push(0);
            },
            Some(failure) => {
                if failure.code.as_str().as_bytes().len() as u64 > u32::MAX as u64
                    || failure.message.as_str().as_bytes().len() as u64 > u32::MAX as u64 {
                    return Err(ConversionError::FieldTooLong);
                }
                out.push(1);
                out.push(failure.stage.code());
                out.push(
                    if failure.retryable {
                        1
                    } else {
                        0
                    },
                );
                push_text(&mut out, failure.code.as_str());
                push_text(&mut out, failure.message.as_str());
            },
        }
        assert(out@ =~= before + failure_field(self@.failure));
        Ok(out)
    }

    fn push_head(&self, out: &mut Vec<u8>)
        requires
            self@.receipts.len() <= 8,
        ensures
            final(out)@ == old(out)@ + head(self@),
    {
        push_bytes(out, CONVERSION_STATE_MAGIC.as_slice());
        out.push(CONVERSION_STATE_VERSION);
        push_bytes(out, self.recipe_id.as_slice());
        out.push(self.status.code());
        out.push(current_code(self.current));
        push_le(out, self.attempts as u64, 4);
        push_le(out, self.receipts.len() as u64, 4);
        assert(out@ =~= old(out)@ + head(self@));
    }

    /// Serialize deterministic conversion control state.
    ///
    /// `checksum` is the exact-byte identity of [`Self::payload_bytes`].
    ///
    /// # Errors
    /// Has the same error conditions as [`Self::payload_bytes`].
    pub fn to_bytes(&self, checksum: PackageId) -> (bytes: Result<Vec<u8>, ConversionError>)
        ensures
            match self@.state_error() {
                Some(error) => bytes == Err::<Vec<u8>, ConversionError>(error),
                None => if !self@.texts_fit() {
                    bytes == Err::<Vec<u8>, ConversionError>(ConversionError::FieldTooLong)
                } else {
                    bytes matches Ok(made) && made@ == payload(self@) + checksum@
                },
            },
    {
        let mut out: Vec<u8> = self.payload_bytes()?;
        push_bytes(&mut out, checksum.as_bytes().as_slice());
        Ok(out)
    }

    /// The part of a checkpoint that its checksum covers.
    ///
    /// # Errors
    /// Returns [`ConversionError::Truncated`] when the bytes cannot hold a checksum.
    pub fn checkpoint_payload(bytes: &[u8]) -> (covered: Result<&[u8], ConversionError>)
        ensures
            if bytes@.len() < 32 {
                covered == Err::<&[u8], ConversionError>(ConversionError::Truncated)
            } else {
                covered matches Ok(part) && part@ == bytes@.take(bytes@.len() - 32)
            },
    {
        if bytes.len() < 32 {
            return Err(ConversionError::Truncated);
        }
        Ok(window(bytes, 0, bytes.len() - 32))
    }

    /// Restore and fully validate deterministic conversion control state.
    ///
    /// `checksum` is the exact-byte identity of [`Self::checkpoint_payload`].
    ///
    /// # Errors
    /// Returns [`ConversionError`] for malformed, unsupported, trailing, or
    /// internally inconsistent bytes. Parsing never allocates from an unbounded
    /// declared count.
    pub fn from_bytes(bytes: &[u8], checksum: PackageId) -> (run: Result<Self, ConversionError>)
        ensures
            if bytes@.len() < 32 {
                run == Err::<Self, ConversionError>(ConversionError::Truncated)
            } else if bytes@.skip(bytes@.len() - 32) != checksum@ {
                run == Err::<Self, ConversionError>(ConversionError::ChecksumMismatch)
            } else {
                match restored(bytes@.take(bytes@.len() - 32)) {
                    Err(error) => run == Err::<Self, ConversionError>(error),
                    Ok(view) => run matches Ok(made) && made@ == view && view.valid(),
                }
            },
    {
        let covered: &[u8] = ConversionRun::checkpoint_payload(bytes)?;
        let end: usize = bytes.len();
        if !bytes_equal(window(bytes, end - 32, end), checksum.as_bytes().as_slice()) {
            return Err(ConversionError::ChecksumMismatch);
        }
        ConversionRun::from_payload(covered)
    }

    /// Restores the run that a payload declares.
    fn from_payload(bytes: &[u8]) -> (run: Result<Self, ConversionError>)
        ensures
            match restored(bytes@) {
                Err(error) => run == Err::<Self, ConversionError>(error),
                Ok(view) => run matches Ok(made) && made@ == view && view.valid(),
            },
    {
        let length: usize = bytes.len();
        check_head(bytes)?;
        proof {
            lemma_le_limits();
        }
        let count: usize = read_le(bytes, 43, 4) as usize;
        let receipts: Vec<StageReceipt> = decode_receipts(bytes, count)?;
        let start: usize = 47 + 37 * count;
        let (failure, end) = decode_failure(bytes, start)?;
        if end != length {
            return Err(ConversionError::TrailingBytes(length - end));
        }
        proof {
            lemma_failure_fits(bytes@, start as int);
        }
        let run = ConversionRun {
            recipe_id: read_32(bytes, 5),
            status: RunStatus::from_code(bytes[37])?,
            current: ConversionStage::at(bytes[38] as usize),
            attempts: read_le(bytes, 39, 4) as u32,
            receipts,
            failure,
        };
        assert(run@ == declared(bytes@, run@.failure));
        run.validate()?;
        Ok(run)
    }
}

/// Checks the fields up to the receipt records.
fn check_head(bytes: &[u8]) -> (result: Result<(), ConversionError>)
    ensures
        match head_error(bytes@) {
            Some(error) => result == Err::<(), ConversionError>(error),
            None => result is Ok && bytes@.len() >= 47 + 37 * le_at(bytes@, 43, 4),
        },
{
    if bytes.len() < 4 {
        return Err(ConversionError::Truncated);
    }
    assert(CONVERSION_STATE_MAGIC@ =~= seq![0x54u8, 0x51u8, 0x43u8, 0x53u8]);
    if !bytes_equal(window(bytes, 0, 4), CONVERSION_STATE_MAGIC.as_slice()) {
        return Err(ConversionError::BadMagic);
    }
    if bytes.len() < 5 {
        return Err(ConversionError::Truncated);
    }
    if bytes[4] != CONVERSION_STATE_VERSION {
        return Err(ConversionError::UnsupportedVersion(bytes[4]));
    }
    if bytes.len() < 38 {
        return Err(ConversionError::Truncated);
    }
    RunStatus::from_code(bytes[37])?;
    if bytes.len() < 39 {
        return Err(ConversionError::Truncated);
    }
    if bytes[38] != NO_STAGE {
        ConversionStage::from_code(bytes[38])?;
    }
    if bytes.len() < 47 {
        return Err(ConversionError::Truncated);
    }
    let count: u64 = read_le(bytes, 43, 4);
    if count > ((bytes.len() - 47) / 37) as u64 {
        return Err(ConversionError::Truncated);
    }
    Ok(())
}

/// Reads the receipt records.
fn decode_receipts(bytes: &[u8], count: usize) -> (receipts: Result<
    Vec<StageReceipt>,
    ConversionError,
>)
    requires
        bytes@.len() >= 47 + 37 * count,
    ensures
        match stage_error(bytes@, 0, count as int) {
            Some(error) => receipts == Err::<Vec<StageReceipt>, ConversionError>(error),
            None => receipts matches Ok(made) && receipt_views(made@) == read_receipts(
                bytes@,
                count as nat,
            ),
        },
{
    let length: usize = bytes.len();
    let mut receipts: Vec<StageReceipt> = Vec::new();
    let mut index: usize = 0;
    assert(receipt_views(receipts@) =~= read_receipts(bytes@, 0));
    while index < count
        invariant
            index <= count,
            47 + 37 * count <= length == bytes@.len(),
            stage_error(bytes@, 0, count as int) == stage_error(bytes@, index as int, count as int),
            receipt_views(receipts@) == read_receipts(bytes@, index as nat),
        decreases count - index,
    {
        let start: usize = 47 + 37 * index;
        let stage: ConversionStage = ConversionStage::from_code(bytes[start])?;
        proof {
            lemma_le_limits();
        }
        let receipt = StageReceipt {
            stage,
            attempts: read_le(bytes, start + 1, 4) as u32,
            output_id: read_32(bytes, start + 5),
        };
        let ghost before = receipt_views(receipts@);
        receipts.push(receipt);
        proof {
            assert(receipt@ == read_receipt(bytes@, index as int));
            assert(receipt_views(receipts@) =~= before.push(receipt@));
            assert(before.push(receipt@) =~= read_receipts(bytes@, (index + 1) as nat));
        }
        index = index + 1;
    }
    Ok(receipts)
}

/// Reads a text with its length before it, and says where it ends.
fn decode_text(bytes: &[u8], start: usize) -> (text: Result<(String, usize), ConversionError>)
    requires
        start <= bytes@.len(),
    ensures
        match text_at(bytes@, start as int) {
            Err(error) => text == Err::<(String, usize), ConversionError>(error),
            Ok((chars, end)) => text matches Ok(made) && made.0@ == chars && made.1 == end && end
                <= bytes@.len(),
        },
{
    let length: usize = bytes.len();
    if length - start < 4 {
        return Err(ConversionError::Truncated);
    }
    proof {
        lemma_le_limits();
    }
    let size: usize = read_le(bytes, start, 4) as usize;
    if length - start - 4 < size {
        return Err(ConversionError::Truncated);
    }
    let end: usize = start + 4 + size;
    match read_text(window(bytes, start + 4, end)) {
        Some(text) => Ok((text.to_owned(), end)),
        None => Err(ConversionError::InvalidUtf8),
    }
}

/// Reads a marked optional failure, and says where it ends.
fn decode_failure(bytes: &[u8], start: usize) -> (failure: Result<
    (Option<StageFailure>, usize),
    ConversionError,
>)
    requires
        start <= bytes@.len(),
    ensures
        match failure_at(bytes@, start as int) {
            Err(error) => failure == Err::<(Option<StageFailure>, usize), ConversionError>(error),
            Ok((view, end)) => failure matches Ok(made) && failure_view(made.0) == view && made.1
                == end && end <= bytes@.len(),
        },
{
    let length: usize = bytes.len();
    if length - start < 1 {
        return Err(ConversionError::Truncated);
    }
    if bytes[start] == 0 {
        return Ok((None, start + 1));
    }
    if bytes[start] != 1 {
        return Err(ConversionError::InvalidState("invalid failure-present flag"));
    }
    if length - start < 2 {
        return Err(ConversionError::Truncated);
    }
    let stage: ConversionStage = ConversionStage::from_code(bytes[start + 1])?;
    if length - start < 3 {
        return Err(ConversionError::Truncated);
    }
    if bytes[start + 2] > 1 {
        return Err(ConversionError::InvalidState("invalid retryable flag"));
    }
    let retryable: bool = bytes[start + 2] == 1;
    let (code, middle) = decode_text(bytes, start + 3)?;
    let (message, end) = decode_text(bytes, middle)?;
    Ok((Some(StageFailure { stage, retryable, code, message }), end))
}

/// A text that is read occupies its length field and bytes, and fits them.
proof fn lemma_text_is_canonical(bytes: Seq<u8>, start: int)
    requires
        0 <= start,
    ensures
        text_at(bytes, start) matches Ok((text, end)) ==> {
            &&& start + 4 <= end <= bytes.len()
            &&& encode_utf8(text).len() <= u32::MAX
            &&& bytes.subrange(start, end) == text_field(text)
        },
{
    lemma_le_limits();
    if text_at(bytes, start) is Ok {
        let field = bytes.subrange(start, start + 4);
        let end = start + 4 + le_at(bytes, start, 4);
        let held = bytes.subrange(start + 4, end);
        le_is_canonical(field);
        vstd::utf8::decode_utf8_encode_utf8(held);
        assert(held.len() == le_at(bytes, start, 4));
        assert(bytes.subrange(start, end) =~= field + held);
    }
}

/// A text reads back from its field.
proof fn lemma_text_round_trip(bytes: Seq<u8>, start: int, text: Seq<char>)
    requires
        0 <= start,
        encode_utf8(text).len() <= u32::MAX,
        start + text_field(text).len() <= bytes.len(),
        bytes.subrange(start, start + text_field(text).len()) == text_field(text),
    ensures
        text_at(bytes, start) == Ok::<(Seq<char>, int), ConversionError>(
            (text, start + text_field(text).len()),
        ),
{
    broadcast use lemma_le_len;

    lemma_le_limits();
    let held = encode_utf8(text);
    let field = text_field(text);
    assert(field.len() == 4 + held.len());
    let whole = bytes.subrange(start, start + field.len());
    assert(bytes.subrange(start, start + 4) =~= whole.subrange(0, 4));
    assert(whole.subrange(0, 4) =~= le(held.len(), 4));
    le_round_trip(held.len(), 4);
    assert(bytes.subrange(start + 4, start + field.len()) =~= whole.subrange(
        4,
        field.len() as int,
    ));
    assert(whole.subrange(4, field.len() as int) =~= held);
    vstd::utf8::encode_utf8_valid_utf8(text);
    vstd::utf8::encode_utf8_decode_utf8(text);
}

/// The texts of a failure that is read fit their length fields.
proof fn lemma_failure_fits(bytes: Seq<u8>, start: int)
    requires
        0 <= start,
    ensures
        failure_at(bytes, start) matches Ok((Some(failure), _)) ==> encode_utf8(failure.code).len()
            <= u32::MAX && encode_utf8(failure.message).len() <= u32::MAX,
{
    lemma_text_is_canonical(bytes, start + 3);
    match text_at(bytes, start + 3) {
        Ok((_, middle)) => {
            lemma_text_is_canonical(bytes, middle);
        },
        Err(_) => {},
    }
}

/// A failure that is read occupies its canonical field.
proof fn lemma_failure_is_canonical(bytes: Seq<u8>, start: int)
    requires
        0 <= start,
    ensures
        failure_at(bytes, start) matches Ok((failure, end)) ==> {
            &&& start < end <= bytes.len()
            &&& bytes.subrange(start, end) == failure_field(failure)
        },
{
    match failure_at(bytes, start) {
        Ok((None, end)) => {
            assert(bytes.subrange(start, end) =~= seq![0u8]);
        },
        Ok((Some(failure), end)) => {
            lemma_text_is_canonical(bytes, start + 3);
            let middle = (text_at(bytes, start + 3)->Ok_0).1;
            lemma_text_is_canonical(bytes, middle);
            assert(bytes.subrange(start, end) =~= bytes.subrange(start, start + 3)
                + bytes.subrange(start + 3, middle) + bytes.subrange(middle, end));
            assert(bytes.subrange(start, start + 3) =~= seq![
                1u8,
                failure.stage.position(),
                if failure.retryable {
                    1u8
                } else {
                    0u8
                },
            ]);
        },
        Err(_) => {},
    }
}

/// A failure reads back from its field.
proof fn lemma_failure_round_trip(bytes: Seq<u8>, start: int, failure: Option<FailureView>)
    requires
        0 <= start,
        failure matches Some(held) ==> encode_utf8(held.code).len() <= u32::MAX && encode_utf8(
            held.message,
        ).len() <= u32::MAX,
        start + failure_field(failure).len() == bytes.len(),
        bytes.subrange(start, bytes.len() as int) == failure_field(failure),
    ensures
        failure_at(bytes, start) == Ok::<(Option<FailureView>, int), ConversionError>(
            (failure, bytes.len() as int),
        ),
{
    let field = failure_field(failure);
    assert forall|k: int| 0 <= k < field.len() implies bytes[start + k] == #[trigger] field[k] by {
        assert(bytes.subrange(start, bytes.len() as int)[k] == field[k]);
    }
    match failure {
        None => {
            assert(field[0] == 0u8);
        },
        Some(held) => {
            let code = text_field(held.code);
            let message = text_field(held.message);
            let flags = seq![
                1u8,
                held.stage.position(),
                if held.retryable {
                    1u8
                } else {
                    0u8
                },
            ];
            assert(field == flags + code + message);
            assert(field[0] == flags[0] && field[1] == flags[1] && field[2] == flags[2]);
            assert(bytes[start] == flags[0] && bytes[start + 1] == flags[1] && bytes[start + 2]
                == flags[2]);
            let middle = start + 3 + code.len();
            assert(bytes.subrange(start + 3, middle) =~= code) by {
                assert forall|k: int| 0 <= k < code.len() implies bytes[start + 3 + k]
                    == code[k] by {
                    assert(field[3 + k] == code[k]);
                }
            }
            assert(bytes.subrange(middle, bytes.len() as int) =~= message) by {
                assert forall|k: int| 0 <= k < message.len() implies bytes[middle + k]
                    == message[k] by {
                    assert(field[3 + code.len() + k] == message[k]);
                }
            }
            lemma_text_round_trip(bytes, start + 3, held.code);
            lemma_text_round_trip(bytes, middle, held.message);
            stage_positions(held.stage);
        },
    }
}

/// Receipt records have a fixed size.
proof fn lemma_records_len(receipts: Seq<ReceiptView>)
    requires
        forall|k: int| 0 <= k < receipts.len() ==> (#[trigger] receipts[k]).output_id.len() == 32,
    ensures
        receipt_records(receipts).len() == 37 * receipts.len(),
    decreases receipts.len(),
{
    broadcast use lemma_le_len;

    if receipts.len() > 0 {
        let before = receipts.drop_last();
        assert forall|k: int| 0 <= k < before.len() implies (
        #[trigger] before[k]).output_id.len() == 32 by {
            assert(before[k] == receipts[k]);
        }
        lemma_records_len(before);
        assert(receipts.last() == receipts[receipts.len() - 1]);
        assert(receipt_record(receipts.last()).len() == 37);
    }
}

/// The record of a receipt stands at its place.
proof fn lemma_record_at(receipts: Seq<ReceiptView>, index: int)
    requires
        0 <= index < receipts.len(),
        forall|k: int| 0 <= k < receipts.len() ==> (#[trigger] receipts[k]).output_id.len() == 32,
    ensures
        receipt_records(receipts).len() == 37 * receipts.len(),
        receipt_records(receipts).subrange(37 * index, 37 * index + 37) == receipt_record(
            receipts[index],
        ),
    decreases receipts.len(),
{
    broadcast use lemma_le_len;

    lemma_records_len(receipts);
    let before = receipts.drop_last();
    assert forall|k: int| 0 <= k < before.len() implies (
    #[trigger] before[k]).output_id.len() == 32 by {
        assert(before[k] == receipts[k]);
    }
    lemma_records_len(before);
    assert(receipts.last() == receipts[receipts.len() - 1]);
    let whole = receipt_records(receipts);
    if index < before.len() {
        lemma_record_at(before, index);
        assert(whole.subrange(37 * index, 37 * index + 37) =~= receipt_records(before).subrange(
            37 * index,
            37 * index + 37,
        ));
    } else {
        assert(whole.subrange(37 * index, 37 * index + 37) =~= receipt_record(receipts.last()));
    }
}

/// A receipt reads back from its record.
proof fn lemma_receipt_round_trip(bytes: Seq<u8>, index: int, receipt: ReceiptView)
    requires
        0 <= index,
        receipt.output_id.len() == 32,
        receipt_start(index) + 37 <= bytes.len(),
        bytes.subrange(receipt_start(index), receipt_start(index) + 37) == receipt_record(receipt),
    ensures
        stage_at(bytes[receipt_start(index)] as int) == Some(receipt.stage),
        read_receipt(bytes, index) == receipt,
{
    broadcast use lemma_le_len;

    lemma_le_limits();
    let start = receipt_start(index);
    let record = receipt_record(receipt);
    assert forall|k: int| 0 <= k < 37 implies bytes[start + k] == #[trigger] record[k] by {
        assert(bytes.subrange(start, start + 37)[k] == record[k]);
    }
    let whole = bytes.subrange(start, start + 37);
    assert(bytes[start] == record[0]);
    assert(bytes.subrange(start + 1, start + 5) =~= whole.subrange(1, 5));
    assert(record.subrange(1, 5) =~= le(receipt.attempts as nat, 4));
    le_round_trip(receipt.attempts as nat, 4);
    assert(bytes.subrange(start + 5, start + 37) =~= whole.subrange(5, 37));
    assert(record.subrange(5, 37) =~= receipt.output_id);
    stage_positions(receipt.stage);
}

/// A receipt that is read occupies its canonical record.
proof fn lemma_receipt_is_canonical(bytes: Seq<u8>, index: int)
    requires
        0 <= index,
        receipt_start(index) + 37 <= bytes.len(),
        stage_at(bytes[receipt_start(index)] as int) is Some,
    ensures
        bytes.subrange(receipt_start(index), receipt_start(index) + 37) == receipt_record(
            read_receipt(bytes, index),
        ),
{
    lemma_le_limits();
    let start = receipt_start(index);
    le_is_canonical(bytes.subrange(start + 1, start + 5));
    assert(bytes.subrange(start, start + 37) =~= seq![bytes[start]] + bytes.subrange(
        start + 1,
        start + 5,
    ) + bytes.subrange(start + 5, start + 37));
}

/// No stage is unknown exactly when each record starts with a known one.
proof fn lemma_stages_known(bytes: Seq<u8>, from: int, count: int)
    ensures
        stage_error(bytes, from, count) is None <==> forall|k: int|
            from <= k < count ==> stage_at(bytes[#[trigger] receipt_start(k)] as int) is Some,
    decreases count - from,
{
    if from < count {
        lemma_stages_known(bytes, from + 1, count);
        assert(receipt_start(from) == receipt_start(from));
        if stage_error(bytes, from, count) is None {
            assert forall|k: int| from <= k < count implies stage_at(
                bytes[#[trigger] receipt_start(k)] as int,
            ) is Some by {}
        }
    }
}

/// The records of the receipts that are read are the bytes they were read from.
proof fn lemma_records_are_canonical(bytes: Seq<u8>, count: nat)
    requires
        receipt_start(count as int) <= bytes.len(),
        forall|k: int|
            0 <= k < count ==> stage_at(bytes[#[trigger] receipt_start(k)] as int) is Some,
    ensures
        receipt_records(read_receipts(bytes, count)) == bytes.subrange(
            47,
            receipt_start(count as int),
        ),
    decreases count,
{
    if count > 0 {
        let less = (count - 1) as nat;
        lemma_records_are_canonical(bytes, less);
        let receipts = read_receipts(bytes, count);
        assert(receipts.drop_last() =~= read_receipts(bytes, less));
        assert(receipts.last() == read_receipt(bytes, less as int));
        assert(stage_at(bytes[receipt_start(less as int)] as int) is Some);
        lemma_receipt_is_canonical(bytes, less as int);
        assert(bytes.subrange(47, receipt_start(count as int)) =~= bytes.subrange(
            47,
            receipt_start(less as int),
        ) + bytes.subrange(receipt_start(less as int), receipt_start(count as int)));
    } else {
        assert(bytes.subrange(47, 47) =~= receipt_records(read_receipts(bytes, 0)));
    }
}

/// The fields up to the receipt records read back.
proof fn lemma_head_round_trip(bytes: Seq<u8>, run: RunView)
    requires
        run.recipe_id.len() == 32,
        run.receipts.len() <= 8,
        bytes.len() >= 47 + 37 * run.receipts.len(),
        bytes.subrange(0, 47) == head(run),
    ensures
        head_error(bytes) is None,
        le_at(bytes, 43, 4) == run.receipts.len(),
        bytes.subrange(5, 37) == run.recipe_id,
        status_of(bytes[37]) == Some(run.status),
        stage_at(bytes[38] as int) == run.current,
        le_at(bytes, 39, 4) == run.attempts,
{
    broadcast use lemma_le_len;

    lemma_le_limits();
    let front = head(run);
    assert forall|k: int| 0 <= k < 47 implies bytes[k] == #[trigger] front[k] by {
        assert(bytes.subrange(0, 47)[k] == front[k]);
    }
    let whole = bytes.subrange(0, 47);
    assert(bytes.subrange(0, 4) =~= whole.subrange(0, 4));
    assert(front.subrange(0, 4) =~= seq![0x54u8, 0x51u8, 0x43u8, 0x53u8]);
    assert(bytes[4] == front[4]);
    assert(bytes.subrange(5, 37) =~= whole.subrange(5, 37));
    assert(front.subrange(5, 37) =~= run.recipe_id);
    assert(bytes[37] == front[37]);
    assert(bytes[38] == front[38]);
    assert(bytes.subrange(39, 43) =~= whole.subrange(39, 43));
    assert(front.subrange(39, 43) =~= le(run.attempts as nat, 4));
    assert(bytes.subrange(43, 47) =~= whole.subrange(43, 47));
    assert(front.subrange(43, 47) =~= le(run.receipts.len(), 4));
    le_round_trip(run.attempts as nat, 4);
    le_round_trip(run.receipts.len(), 4);
    match run.current {
        Some(stage) => {
            stage_positions(stage);
        },
        None => {},
    }
    assert(37 * run.receipts.len() <= bytes.len() - 47);
    assert((bytes.len() - 47) / 37 >= run.receipts.len()) by (nonlinear_arith)
        requires
            37 * run.receipts.len() <= bytes.len() - 47,
    ;
}

/// The checkpoint of a valid run restores the run.
pub proof fn checkpoint_restores_the_run(run: RunView)
    requires
        run.valid(),
    ensures
        restored(payload(run)) == Ok::<RunView, ConversionError>(run),
{
    broadcast use lemma_le_len;

    let bytes = payload(run);
    let count = run.receipts.len();
    lemma_records_len(run.receipts);
    assert(head(run).len() == 47);
    assert(bytes.subrange(0, 47) =~= head(run));
    lemma_head_round_trip(bytes, run);
    let records = receipt_records(run.receipts);
    assert forall|k: int| 0 <= k < count implies #[trigger] read_receipt(bytes, k)
        == run.receipts[k] && stage_at(bytes[receipt_start(k)] as int) is Some by {
        lemma_record_at(run.receipts, k);
        assert(run.receipts[k].output_id.len() == 32);
        assert(bytes.subrange(receipt_start(k), receipt_start(k) + 37) =~= records.subrange(
            37 * k,
            37 * k + 37,
        ));
        lemma_receipt_round_trip(bytes, k, run.receipts[k]);
    }
    assert forall|k: int| 0 <= k < count implies stage_at(
        bytes[#[trigger] receipt_start(k)] as int,
    ) is Some by {
        assert(read_receipt(bytes, k) == run.receipts[k]);
    }
    lemma_stages_known(bytes, 0, count as int);
    assert(read_receipts(bytes, count) =~= run.receipts);
    let start = receipt_start(count as int);
    assert(bytes.subrange(start, bytes.len() as int) =~= failure_field(run.failure));
    lemma_failure_round_trip(bytes, start, run.failure);
}

/// A payload that restores a run is the run's own checkpoint, and the run is valid.
pub proof fn only_canonical_checkpoints_restore(bytes: Seq<u8>)
    requires
        restored(bytes) is Ok,
    ensures
        payload(restored(bytes)->Ok_0) == bytes,
        (restored(bytes)->Ok_0).valid(),
{
    lemma_le_limits();
    let run = restored(bytes)->Ok_0;
    let count = le_at(bytes, 43, 4);
    let start = receipt_start(count as int);
    assert(37 * count <= bytes.len() - 47) by (nonlinear_arith)
        requires
            count <= (bytes.len() - 47) / 37,
            bytes.len() >= 47,
    ;
    lemma_stages_known(bytes, 0, count as int);
    lemma_records_are_canonical(bytes, count);
    lemma_failure_is_canonical(bytes, start);
    lemma_failure_fits(bytes, start);
    le_is_canonical(bytes.subrange(39, 43));
    le_is_canonical(bytes.subrange(43, 47));
    assert(run.receipts.len() == count);
    assert(bytes.subrange(0, 47) =~= bytes.subrange(0, 4) + seq![bytes[4]] + bytes.subrange(5, 37)
        + seq![bytes[37], bytes[38]] + bytes.subrange(39, 43) + bytes.subrange(43, 47));
    assert(bytes.subrange(0, 4) + seq![bytes[4]] =~= seq![0x54u8, 0x51u8, 0x43u8, 0x53u8, 1u8]);
    assert(stage_field(run.current) == bytes[38]);
    assert(run.status.number() == bytes[37]);
    assert(bytes.subrange(0, 47) == head(run));
    assert(bytes =~= bytes.subrange(0, 47) + bytes.subrange(47, start) + bytes.subrange(
        start,
        bytes.len() as int,
    ));
    assert forall|k: int| 0 <= k < run.receipts.len() implies (
    #[trigger] run.receipts[k]).output_id.len() == 32 by {
        assert(run.receipts[k] == read_receipt(bytes, k));
    }
}

/// The receipts of a valid run are those of the first stages, in pipeline order.
pub proof fn receipts_follow_the_pipeline(run: RunView, index: int)
    requires
        run.valid(),
        0 <= index < run.receipts.len(),
    ensures
        stage_at(index) == Some(run.receipts[index].stage),
        run.receipts[index].attempts > 0,
        run.status is Succeeded <==> run.receipts.len() == 8,
{
    lemma_receipts_known(run.receipts, 0, index);
}

proof fn lemma_receipts_known(receipts: Seq<ReceiptView>, from: int, index: int)
    requires
        0 <= from <= index < receipts.len(),
        receipts_error(receipts, from) is None,
    ensures
        stage_at(index) == Some(receipts[index].stage),
        receipts[index].attempts > 0,
    decreases index - from,
{
    if from < index {
        lemma_receipts_known(receipts, from + 1, index);
    }
}

/// A transition of a valid run leaves it valid, whether or not it is refused.
pub proof fn transitions_keep_the_invariants(run: RunView, transition: Transition)
    requires
        run.valid(),
        transition matches Transition::Complete { output_id } ==> output_id.len() == 32,
    ensures
        run.stepped(transition).valid(),
{
    if let Transition::Complete { output_id } = transition {
        if run.status is Running {
            let stage = run.current->0;
            stage_positions(stage);
            lemma_receipts_push(
                run.receipts,
                ReceiptView { stage, attempts: run.attempts, output_id },
                0,
            );
        }
    }
}

/// Every run that transitions lead to is valid: its receipts are those of the first stages, each
/// with an attempt, the current stage is the one after them and absent exactly after success, a
/// failure of the current stage is held exactly in a failure status, and no attempt is counted
/// exactly before the first one and after success.
pub proof fn reached_runs_are_valid(recipe_id: Seq<u8>, transitions: Seq<Transition>)
    requires
        recipe_id.len() == 32,
        forall|k: int|
            0 <= k < transitions.len() ==> (#[trigger] transitions[k] matches Transition::Complete {
                output_id,
            } ==> output_id.len() == 32),
    ensures
        ({
            let run = RunView::started(recipe_id).replayed(transitions);
            &&& run.valid()
            &&& forall|k: int|
                0 <= k < run.receipts.len() ==> stage_at(k) == Some(
                    (#[trigger] run.receipts[k]).stage,
                ) && run.receipts[k].attempts >= 1
            &&& run.current == stage_at(run.receipts.len() as int)
            &&& run.current is None <==> run.status is Succeeded
            &&& run.failure is Some <==> (run.status is RetryableFailure
                || run.status is TerminalFailure)
            &&& run.failure matches Some(failure) ==> Some(failure.stage) == run.current && (
            failure.retryable <==> run.status is RetryableFailure)
            &&& run.attempts == 0 <==> (run.status is Ready || run.status is Succeeded)
        }),
    decreases transitions.len(),
{
    let run = RunView::started(recipe_id).replayed(transitions);
    if transitions.len() > 0 {
        let earlier = transitions.drop_last();
        assert forall|k: int| 0 <= k < earlier.len() implies (
        #[trigger] earlier[k] matches Transition::Complete { output_id } ==> output_id.len()
            == 32) by {
            assert(earlier[k] == transitions[k]);
        }
        reached_runs_are_valid(recipe_id, earlier);
        transitions_keep_the_invariants(
            RunView::started(recipe_id).replayed(earlier),
            transitions.last(),
        );
    }
    assert forall|k: int| 0 <= k < run.receipts.len() implies stage_at(k) == Some(
        (#[trigger] run.receipts[k]).stage,
    ) && run.receipts[k].attempts >= 1 by {
        lemma_receipts_known(run.receipts, 0, k);
    }
}

} // verus!
