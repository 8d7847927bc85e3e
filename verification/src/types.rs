//! Plain data records of the consensus core: blocks, certificates, ledger
//! info, execution results, and the error kinds the store surfaces.
//!
//! Identifiers and hashes are modelled as `u64` values; the store treats
//! them as opaque, globally unique tags and never computes with them.

use vstd::prelude::*;

verus! {

/// Placeholder accumulator hash carried by certificates produced in
/// decoupled-execution mode; consistency checks treat it as "don't care".
pub const ACCUMULATOR_PLACEHOLDER_HASH: u64 = 0;

/// The tuple of facts a quorum certificate speaks about a block.
#[derive(Clone, Copy, PartialEq, Eq, Structural, Debug)]
pub struct BlockInfo {
    pub epoch: u64,
    pub round: u64,
    pub id: u64,
    pub executed_state_id: u64,
    pub version: u64,
    pub timestamp_usecs: u64,
}

impl BlockInfo {
    /// The zero block info used by non-committing certificates.
    pub open spec fn spec_empty() -> BlockInfo {
        BlockInfo { epoch: 0, round: 0, id: 0, executed_state_id: 0, version: 0, timestamp_usecs: 0 }
    }

    pub fn empty() -> (r: BlockInfo)
        ensures
            r == BlockInfo::spec_empty(),
    {
        BlockInfo { epoch: 0, round: 0, id: 0, executed_state_id: 0, version: 0, timestamp_usecs: 0 }
    }

    /// Equality on the fields fixed by ordering alone, ignoring the two
    /// execution-dependent fields (`executed_state_id`, `version`), which
    /// decoupled execution fills with placeholders.
    pub open spec fn spec_match_ordered_only(&self, other: &BlockInfo) -> bool {
        &&& self.epoch == other.epoch
        &&& self.round == other.round
        &&& self.id == other.id
        &&& self.timestamp_usecs == other.timestamp_usecs
    }

    #[verifier::when_used_as_spec(spec_match_ordered_only)]
    pub fn match_ordered_only(&self, other: &BlockInfo) -> (r: bool)
        ensures
            r == self.spec_match_ordered_only(other),
    {
        self.epoch == other.epoch && self.round == other.round && self.id == other.id
            && self.timestamp_usecs == other.timestamp_usecs
    }

    /// A stored executed info agrees with a certificate's claim: the
    /// ordered-only fields match, and the execution-dependent fields match
    /// too unless the claim carries the decoupled-execution placeholders.
    pub open spec fn spec_consistent_with_certified(&self, certified: &BlockInfo) -> bool {
        &&& self.spec_match_ordered_only(certified)
        &&& (certified.version == 0 || certified.version == self.version)
        &&& (certified.executed_state_id == ACCUMULATOR_PLACEHOLDER_HASH
            || certified.executed_state_id == self.executed_state_id)
    }

    #[verifier::when_used_as_spec(spec_consistent_with_certified)]
    pub fn consistent_with_certified(&self, certified: &BlockInfo) -> (r: bool)
        ensures
            r == self.spec_consistent_with_certified(certified),
    {
        self.match_ordered_only(certified) && (certified.version == 0 || certified.version
            == self.version) && (certified.executed_state_id == ACCUMULATOR_PLACEHOLDER_HASH
            || certified.executed_state_id == self.executed_state_id)
    }
}

/// A finality statement: the block info it commits plus a digest of the
/// consensus data it was derived from.
#[derive(Clone, Copy, PartialEq, Eq, Structural, Debug)]
pub struct LedgerInfo {
    pub commit_info: BlockInfo,
    pub consensus_data_hash: u64,
}

impl LedgerInfo {
    /// Id of the block this ledger info asks consensus to commit.
    pub open spec fn spec_consensus_block_id(&self) -> u64 {
        self.commit_info.id
    }

    #[verifier::when_used_as_spec(spec_consensus_block_id)]
    pub fn consensus_block_id(&self) -> (r: u64)
        ensures
            r == self.spec_consensus_block_id(),
    {
        self.commit_info.id
    }
}

/// A ledger info together with an (abstracted) aggregate signature.
#[derive(Clone, Copy, PartialEq, Eq, Structural, Debug)]
pub struct LedgerInfoWithSignatures {
    pub ledger_info: LedgerInfo,
    pub signatures: u64,
}

impl LedgerInfoWithSignatures {
    pub open spec fn spec_commit_info(&self) -> BlockInfo {
        self.ledger_info.commit_info
    }

    #[verifier::when_used_as_spec(spec_commit_info)]
    pub fn commit_info(&self) -> (r: BlockInfo)
        ensures
            r == self.spec_commit_info(),
    {
        self.ledger_info.commit_info
    }
}

/// Proof that a supermajority timed out the carried round.
#[derive(Clone, Copy, PartialEq, Eq, Structural, Debug)]
pub struct TimeoutCertificate {
    pub round: u64,
    pub signatures: u64,
}

/// Certificate that a supermajority voted for `certified_block`; its
/// embedded ledger info may additionally commit an ancestor.
#[derive(Clone, Copy, PartialEq, Eq, Structural, Debug)]
pub struct QuorumCert {
    pub certified_block: BlockInfo,
    pub ledger_info: LedgerInfoWithSignatures,
}

impl QuorumCert {
    /// The block info this certificate commits; the zero info when the
    /// certifying vote committed nothing.
    pub open spec fn spec_commit_info(&self) -> BlockInfo {
        self.ledger_info.ledger_info.commit_info
    }

    #[verifier::when_used_as_spec(spec_commit_info)]
    pub fn commit_info(&self) -> (r: BlockInfo)
        ensures
            r == self.spec_commit_info(),
    {
        self.ledger_info.ledger_info.commit_info
    }

    /// Whether the certifying vote also committed a real block.
    pub open spec fn spec_commits_a_block(&self) -> bool {
        self.spec_commit_info() != BlockInfo::spec_empty()
    }

    #[verifier::when_used_as_spec(spec_commits_a_block)]
    pub fn commits_a_block(&self) -> (r: bool)
        ensures
            r == self.spec_commits_a_block(),
    {
        let empty = BlockInfo::empty();
        !(self.ledger_info.ledger_info.commit_info == empty)
    }
}

/// A proposal unit. Immutable once formed; its embedded quorum
/// certificate certifies its parent, which fixes `parent_id`.
#[derive(Clone, Copy, PartialEq, Eq, Structural, Debug)]
pub struct Block {
    pub id: u64,
    pub epoch: u64,
    pub round: u64,
    pub timestamp_usecs: u64,
    pub payload: u64,
    pub quorum_cert: QuorumCert,
}

impl Block {
    /// A block's parent is the block its embedded certificate certifies.
    pub open spec fn spec_parent_id(&self) -> u64 {
        self.quorum_cert.certified_block.id
    }

    #[verifier::when_used_as_spec(spec_parent_id)]
    pub fn parent_id(&self) -> (r: u64)
        ensures
            r == self.spec_parent_id(),
    {
        self.quorum_cert.certified_block.id
    }
}

/// What the executor reports back for one executed block.
#[derive(Clone, Copy, PartialEq, Eq, Structural, Debug)]
pub struct StateComputeResult {
    pub root_hash: u64,
    pub num_leaves: u64,
}

impl StateComputeResult {
    /// Version of the last transaction in the accumulator, 0 when empty.
    pub open spec fn spec_version(&self) -> u64 {
        if self.num_leaves == 0 {
            0
        } else {
            (self.num_leaves - 1) as u64
        }
    }

    #[verifier::when_used_as_spec(spec_version)]
    pub fn version(&self) -> (r: u64)
        ensures
            r == self.spec_version(),
    {
        if self.num_leaves == 0 {
            0
        } else {
            self.num_leaves - 1
        }
    }
}

/// A block paired with the result of executing it; the unit the tree stores.
#[derive(Clone, Copy, PartialEq, Eq, Structural, Debug)]
pub struct ExecutedBlock {
    pub block: Block,
    pub state_compute_result: StateComputeResult,
}

impl ExecutedBlock {
    pub open spec fn spec_id(&self) -> u64 {
        self.block.id
    }

    #[verifier::when_used_as_spec(spec_id)]
    pub fn id(&self) -> (r: u64)
        ensures
            r == self.spec_id(),
    {
        self.block.id
    }

    pub open spec fn spec_round(&self) -> u64 {
        self.block.round
    }

    #[verifier::when_used_as_spec(spec_round)]
    pub fn round(&self) -> (r: u64)
        ensures
            r == self.spec_round(),
    {
        self.block.round
    }

    pub open spec fn spec_parent_id(&self) -> u64 {
        self.block.spec_parent_id()
    }

    #[verifier::when_used_as_spec(spec_parent_id)]
    pub fn parent_id(&self) -> (r: u64)
        ensures
            r == self.spec_parent_id(),
    {
        self.block.parent_id()
    }

    pub open spec fn spec_timestamp_usecs(&self) -> u64 {
        self.block.timestamp_usecs
    }

    #[verifier::when_used_as_spec(spec_timestamp_usecs)]
    pub fn timestamp_usecs(&self) -> (r: u64)
        ensures
            r == self.spec_timestamp_usecs(),
    {
        self.block.timestamp_usecs
    }

    /// The block info this executed block answers for in certificate checks.
    pub open spec fn spec_block_info(&self) -> BlockInfo {
        BlockInfo {
            epoch: self.block.epoch,
            round: self.block.round,
            id: self.block.id,
            executed_state_id: self.state_compute_result.root_hash,
            version: self.state_compute_result.spec_version(),
            timestamp_usecs: self.block.timestamp_usecs,
        }
    }

    #[verifier::when_used_as_spec(spec_block_info)]
    pub fn block_info(&self) -> (r: BlockInfo)
        ensures
            r == self.spec_block_info(),
    {
        BlockInfo {
            epoch: self.block.epoch,
            round: self.block.round,
            id: self.block.id,
            executed_state_id: self.state_compute_result.root_hash,
            version: self.state_compute_result.version(),
            timestamp_usecs: self.block.timestamp_usecs,
        }
    }
}

/// The committed root and its three certificates, as recovered from the log.
#[derive(Clone, Copy, PartialEq, Eq, Structural, Debug)]
pub struct RootInfo {
    pub root_block: Block,
    pub root_qc: QuorumCert,
    pub root_ordered_cert: QuorumCert,
    pub root_commit_li: LedgerInfoWithSignatures,
}

/// Accumulator summary of the committed state at the recovered root.
#[derive(Debug)]
pub struct RootMetadata {
    pub accu_hash: u64,
    pub frozen_root_hashes: Vec<u64>,
    pub num_leaves: u64,
}

impl RootMetadata {
    pub open spec fn spec_version(&self) -> u64 {
        if self.num_leaves == 0 {
            0
        } else {
            (self.num_leaves - 1) as u64
        }
    }

    #[verifier::when_used_as_spec(spec_version)]
    pub fn version(&self) -> (r: u64)
        ensures
            r == self.spec_version(),
    {
        if self.num_leaves == 0 {
            0
        } else {
            self.num_leaves - 1
        }
    }
}

/// Everything the persistent log yields on startup.
#[derive(Debug)]
pub struct RecoveryData {
    pub root: RootInfo,
    pub root_metadata: RootMetadata,
    pub blocks: Vec<Block>,
    pub quorum_certs: Vec<QuorumCert>,
    pub highest_timeout_certificate: Option<TimeoutCertificate>,
}

/// Error kinds surfaced by the store and the tree.
#[derive(Clone, Copy, PartialEq, Eq, Structural, Debug)]
pub enum Error {
    /// Insert of a block whose round is not above the ordered root's.
    StaleBlock,
    /// Insert of a block whose parent is not in the tree.
    MissingParent,
    /// Insert of a block whose round is not above its parent's.
    InvalidRound,
    /// Certificate inserted before the block it certifies.
    QcBlockMissing,
    /// Certificate disagrees with the locally executed block info.
    QcInconsistent,
    /// Finality proof names a block the tree does not hold.
    CommitTargetMissing,
    /// Finality proof round is not above the ordered root's.
    CommitStale,
    /// Finality proof names a block off the ordered root's subtree.
    CommitTargetDisconnected,
    /// The executor failed while the commit was being made durable.
    ExecutorFatal,
    /// The persistent log refused a write; the tree was left untouched.
    PersistenceError,
    /// Recovered root data is internally inconsistent.
    RootInconsistent,
}

/// Error kinds of the executor collaborator.
#[derive(Clone, Copy, PartialEq, Eq, Structural, Debug)]
pub enum ExecError {
    /// The executor does not know the named block; recoverable by
    /// re-executing the parent chain.
    BlockNotFound(u64),
    /// Any other, unrecoverable executor failure.
    InternalError,
}

/// Failure of a persistent log operation.
#[derive(Clone, Copy, PartialEq, Eq, Structural, Debug)]
pub struct StorageError {
    pub code: u64,
}

/// The certificates a participant gossips to let peers catch up.
#[derive(Clone, Copy, PartialEq, Eq, Structural, Debug)]
pub struct SyncInfo {
    pub highest_quorum_cert: QuorumCert,
    pub highest_ordered_cert: QuorumCert,
    pub highest_ledger_info: Option<LedgerInfoWithSignatures>,
    pub highest_timeout_cert: Option<TimeoutCertificate>,
}

} // verus!
