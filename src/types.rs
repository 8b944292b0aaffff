//! Plain records exchanged with callers, data sources and the DAO contract.
use vstd::prelude::*;
use crate::batch::MultiTxsOperationProcessingResult;

verus! {

/// Total stake a data source reports for one validator.
#[derive(Clone, Debug)]
pub struct ValidatorStakeRecord {
    pub validator_id: String,
    pub total_stake: u128,
}

/// A validator's stake, source by source, its sum and its rank.
#[derive(Clone, Debug)]
pub struct ValidatorStake {
    pub validator_id: String,
    /// Appchain id and the stake reported from that appchain's anchor.
    pub stake_in_appchains: Vec<(String, u128)>,
    pub total_stake: u128,
    pub overall_rank: u32,
}

/// What a change-history record asks of the council.
#[derive(Clone, Debug)]
pub enum CouncilChangeAction {
    MaxNumberOfMembersChanged(u32),
    MemberAdded(String),
    MemberRemoved(String),
}

/// Lifecycle of a change-history record against the DAO contract.
#[derive(Clone, Copy, Debug, PartialEq, Eq, Structural)]
pub enum CouncilChangeHistoryState {
    WaitingForApplying,
    ProposalAdded(u64),
    ProposalApproved(u64),
    NoNeedToApply,
}

/// One record of the change ledger.
#[derive(Clone, Debug)]
pub struct CouncilChangeHistory {
    pub action: CouncilChangeAction,
    pub index: u64,
    pub state: CouncilChangeHistoryState,
    pub timestamp: u64,
}

/// Why a call was rejected.
#[derive(Clone, Copy, Debug, PartialEq, Eq, Structural)]
pub enum CouncilError {
    /// An index or start index lies beyond the collection.
    OutOfRange,
    /// Stored state contradicts itself, or a callback found a record in a
    /// state that its transition does not start from.
    InternalConsistency,
    /// The caller is not an appchain anchor under the registry account.
    NotAnAnchor,
    /// The keeper's own account is not a sub-account of a registry account.
    NotUnderRegistry,
    /// A validator's total stake would exceed `u128::MAX`.
    StakeOverflow,
    /// The new setting equals the current one.
    ValueUnchanged,
    /// The account is not a known validator.
    UnknownValidator,
    /// The validator is already excluded from the council.
    AlreadyExcluded,
    /// The validator is not excluded from the council.
    NotExcluded,
    /// The DAO contract answered with bytes that are not a proposal id.
    MalformedResponse,
    /// The ledger's indices would run past `u64::MAX`.
    LedgerFull,
}

/// The role change that a proposal asks the DAO contract to make.
#[derive(Clone, Copy, Debug, PartialEq, Eq, Structural)]
pub enum ProposalKind {
    AddMemberToRole,
    RemoveMemberFromRole,
}

/// A call to be made on the DAO contract for a change-history record; its
/// answer comes back through the matching `resolve_*` method with the same
/// `history_index`.
#[derive(Clone, Debug, PartialEq, Eq)]
pub enum DaoRequest {
    AddProposal { history_index: u64, member_id: String, kind: ProposalKind },
    ActProposal { history_index: u64, proposal_id: u64 },
}

/// The indices of the records a ledger holds: `start_index` up to, but not
/// including, `end_index`.
#[derive(Clone, Copy, Debug, PartialEq, Eq, Structural)]
pub struct IndexRange {
    pub start_index: u64,
    pub end_index: u64,
}

/// Outcome of one pass over the ledger: whether it reached the end, where
/// the next pass should start, and the calls to make on the DAO contract.
pub struct ApplyOutcome {
    pub result: MultiTxsOperationProcessingResult,
    pub next_index: u64,
    pub requests: Vec<DaoRequest>,
}

/// How an asynchronous call to another contract ended.
#[derive(Clone, Debug)]
pub enum PromiseOutcome {
    /// The call returned; its JSON-encoded return value.
    Successful(Vec<u8>),
    Failed,
}

} // verus!
