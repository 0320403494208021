//! Instructions, programs, errors and outcomes.

use vstd::prelude::*;
use crate::asset::Asset;
use crate::location::{Junction, Location, LocationView};
use crate::weight::Weight;

verus! {

/// The authority a dispatched call asks for.
#[derive(Clone, Copy, Debug, PartialEq, Eq, Structural)]
pub enum OriginKind {
    /// The origin's native origin.
    Native,
    /// The origin's sovereign account.
    SovereignAccount,
    /// Unrestricted authority.
    Superuser,
    /// The origin as a cross-consensus location.
    Xcm,
}

/// One instruction of a program.
#[derive(Debug)]
pub enum Instruction {
    /// Move an asset from the origin's account into holding.
    WithdrawAsset(Asset),
    /// Credit holding with an asset whose reserve is the origin.
    ReserveAssetDeposited(Asset),
    /// Credit holding with an asset teleported from the origin.
    ReceiveTeleportedAsset(Asset),
    /// Pay for execution out of holding, offering at most `fees`.
    BuyExecution { fees: Asset, weight_limit: Weight },
    /// Move everything held of class `id` to the account of `beneficiary`.
    DepositAsset { id: u64, beneficiary: Location },
    /// Move an asset from the origin's account to that of `beneficiary`.
    TransferAsset { asset: Asset, beneficiary: Location },
    /// Dispatch an encoded call as the origin, with the authority of
    /// `origin_kind`; the call may cost at most `require_weight_at_most`.
    Transact { origin_kind: OriginKind, require_weight_at_most: Weight, call: Vec<u8> },
    /// The answer to an outstanding query.
    QueryResponse { query_id: u64, response: u64 },
    /// Take back a set of assets that was trapped under the origin.
    ClaimAsset { assets: Vec<Asset> },
    /// Drop the origin: later instructions that need one fail.
    ClearOrigin,
    /// Continue with the origin moved one level down.
    DescendOrigin(Junction),
    /// Ask to be told, under `query_id`, when the protocol version changes.
    SubscribeVersion { query_id: u64 },
    /// Stop being told of version changes.
    UnsubscribeVersion,
    /// Continue with `target` as origin, where the configuration lets the
    /// origin act as it.
    AliasOrigin(Location),
    /// Move an asset from the origin's account to the account of `dest`, its
    /// reserve here, and tell `dest` to credit `beneficiary` with it; the
    /// delivery fee is paid out of holding.
    TransferReserveAsset { asset: Asset, dest: Location, beneficiary: Location },
    /// Send `destination`, as the answer to its query `query_id`, the code of
    /// the error recorded so far in this execution.
    ReportError { query_id: u64, destination: Location },
}

/// The mathematical value of an instruction.
pub enum InstructionView {
    WithdrawAsset(Asset),
    ReserveAssetDeposited(Asset),
    ReceiveTeleportedAsset(Asset),
    BuyExecution { fees: Asset, weight_limit: Weight },
    DepositAsset { id: u64, beneficiary: LocationView },
    TransferAsset { asset: Asset, beneficiary: LocationView },
    Transact { origin_kind: OriginKind, require_weight_at_most: Weight, call: Seq<u8> },
    QueryResponse { query_id: u64, response: u64 },
    ClaimAsset { assets: Seq<Asset> },
    ClearOrigin,
    DescendOrigin(Junction),
    SubscribeVersion { query_id: u64 },
    UnsubscribeVersion,
    AliasOrigin(LocationView),
    TransferReserveAsset { asset: Asset, dest: LocationView, beneficiary: LocationView },
    ReportError { query_id: u64, destination: LocationView },
}

impl View for Instruction {
    type V = InstructionView;

    open spec fn view(&self) -> InstructionView {
        match self {
            Instruction::WithdrawAsset(a) => InstructionView::WithdrawAsset(*a),
            Instruction::ReserveAssetDeposited(a) => InstructionView::ReserveAssetDeposited(*a),
            Instruction::ReceiveTeleportedAsset(a) => InstructionView::ReceiveTeleportedAsset(*a),
            Instruction::BuyExecution { fees, weight_limit } => InstructionView::BuyExecution {
                fees: *fees,
                weight_limit: *weight_limit,
            },
            Instruction::DepositAsset { id, beneficiary } => InstructionView::DepositAsset {
                id: *id,
                beneficiary: beneficiary@,
            },
            Instruction::TransferAsset { asset, beneficiary } => InstructionView::TransferAsset {
                asset: *asset,
                beneficiary: beneficiary@,
            },
            Instruction::Transact { origin_kind, require_weight_at_most, call } => InstructionView::Transact {
                origin_kind: *origin_kind,
                require_weight_at_most: *require_weight_at_most,
                call: call@,
            },
            Instruction::QueryResponse { query_id, response } => InstructionView::QueryResponse {
                query_id: *query_id,
                response: *response,
            },
            Instruction::ClaimAsset { assets } => InstructionView::ClaimAsset { assets: assets@ },
            Instruction::ClearOrigin => InstructionView::ClearOrigin,
            Instruction::DescendOrigin(j) => InstructionView::DescendOrigin(*j),
            Instruction::SubscribeVersion { query_id } => InstructionView::SubscribeVersion {
                query_id: *query_id,
            },
            Instruction::UnsubscribeVersion => InstructionView::UnsubscribeVersion,
            Instruction::AliasOrigin(l) => InstructionView::AliasOrigin(l@),
            Instruction::ReportError { query_id, destination } => InstructionView::ReportError {
                query_id: *query_id,
                destination: destination@,
            },
            Instruction::TransferReserveAsset { asset, dest, beneficiary } =>
                InstructionView::TransferReserveAsset {
                asset: *asset,
                dest: dest@,
                beneficiary: beneficiary@,
            },
        }
    }
}

/// The values of a sequence of instructions.
pub open spec fn views(s: Seq<Instruction>) -> Seq<InstructionView> {
    s.map_values(|i: Instruction| i@)
}

/// The mathematical value of a program.
pub struct ProgramView {
    pub version: u8,
    pub instructions: Seq<InstructionView>,
    pub error_handler: Seq<InstructionView>,
    pub appendix: Seq<InstructionView>,
}

/// A program: its protocol version, its instructions, the instructions run
/// when one of them fails, and those run after everything else.
#[derive(Debug)]
pub struct Program {
    pub version: u8,
    pub instructions: Vec<Instruction>,
    pub error_handler: Vec<Instruction>,
    pub appendix: Vec<Instruction>,
}

impl View for Program {
    type V = ProgramView;

    open spec fn view(&self) -> ProgramView {
        ProgramView {
            version: self.version,
            instructions: views(self.instructions@),
            error_handler: views(self.error_handler@),
            appendix: views(self.appendix@),
        }
    }
}

impl Program {
    pub fn new(version: u8, instructions: Vec<Instruction>) -> (r: Program)
        ensures
            r.version == version,
            r.instructions@ == instructions@,
            r.error_handler@.len() == 0,
            r.appendix@.len() == 0,
    {
        Program { version, instructions, error_handler: Vec::new(), appendix: Vec::new() }
    }
}

/// Why an execution or an instruction failed.
#[derive(Clone, Copy, Debug, PartialEq, Eq, Structural)]
pub enum XcmError {
    /// The admission policy refused the program.
    Barrier,
    /// The program's version is not the one executed here.
    UnhandledXcmVersion,
    /// The program's cost bound does not fit in a weight.
    Overweight,
    /// The program's cost bound exceeds the weight limit given.
    WeightLimitReached,
    /// An amount would leave the range of its type.
    Overflow,
    /// The instruction needs an origin and there is none.
    BadOrigin,
    /// The origin is not a trusted reserve for the asset.
    UntrustedReserveLocation,
    /// The origin is not a trusted teleporter for the asset.
    UntrustedTeleportLocation,
    /// The ledger refused a withdrawal.
    FailedToTransactAsset,
    /// Holding does not contain the fees offered.
    NotHoldingFees,
    /// The fees offered do not pay for the weight asked.
    TooExpensive,
    /// The call costs more than the instruction allows.
    MaxWeightInvalid,
    /// The call filter refused the call.
    NoPermission,
    /// No trapped set matches the claim.
    UnknownClaim,
    /// No route leads to the destination.
    Unroutable,
    /// Holding would contain more asset classes than allowed.
    HoldingWouldOverflow,
}

/// The code that reports an error: zero for none, else one more than the
/// error's position in the list of errors.
pub open spec fn spec_error_code(e: Option<XcmError>) -> u64 {
    match e {
        None => 0,
        Some(XcmError::Barrier) => 1,
        Some(XcmError::UnhandledXcmVersion) => 2,
        Some(XcmError::Overweight) => 3,
        Some(XcmError::WeightLimitReached) => 4,
        Some(XcmError::Overflow) => 5,
        Some(XcmError::BadOrigin) => 6,
        Some(XcmError::UntrustedReserveLocation) => 7,
        Some(XcmError::UntrustedTeleportLocation) => 8,
        Some(XcmError::FailedToTransactAsset) => 9,
        Some(XcmError::NotHoldingFees) => 10,
        Some(XcmError::TooExpensive) => 11,
        Some(XcmError::MaxWeightInvalid) => 12,
        Some(XcmError::NoPermission) => 13,
        Some(XcmError::UnknownClaim) => 14,
        Some(XcmError::Unroutable) => 15,
        Some(XcmError::HoldingWouldOverflow) => 16,
    }
}

pub fn error_code(e: Option<XcmError>) -> (r: u64)
    ensures
        r == spec_error_code(e),
{
    match e {
        None => 0,
        Some(XcmError::Barrier) => 1,
        Some(XcmError::UnhandledXcmVersion) => 2,
        Some(XcmError::Overweight) => 3,
        Some(XcmError::WeightLimitReached) => 4,
        Some(XcmError::Overflow) => 5,
        Some(XcmError::BadOrigin) => 6,
        Some(XcmError::UntrustedReserveLocation) => 7,
        Some(XcmError::UntrustedTeleportLocation) => 8,
        Some(XcmError::FailedToTransactAsset) => 9,
        Some(XcmError::NotHoldingFees) => 10,
        Some(XcmError::TooExpensive) => 11,
        Some(XcmError::MaxWeightInvalid) => 12,
        Some(XcmError::NoPermission) => 13,
        Some(XcmError::UnknownClaim) => 14,
        Some(XcmError::Unroutable) => 15,
        Some(XcmError::HoldingWouldOverflow) => 16,
    }
}

/// The result of one execution.
#[derive(Clone, Copy, Debug, PartialEq, Eq, Structural)]
pub enum Outcome {
    /// Every instruction succeeded.
    Complete { used: Weight },
    /// The instruction at `index` failed with `error`; earlier effects stay.
    Incomplete { used: Weight, error: XcmError, index: usize },
    /// The program was not executed at all.
    Error { error: XcmError },
}

} // verus!
