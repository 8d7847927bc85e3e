//! The transactional facade over the block tree.
//!
//! The store owns the tree together with three collaborators the embedding
//! process supplies: the executor that computes state, the persistent log
//! that every write reaches before the in-memory tree, and the clock that
//! keeps stored timestamps out of the future. Every mutation either
//! completes its log write first or leaves the tree untouched; pruning the
//! log is best effort, because after a commit the tree's root advance is
//! the authoritative fact.

use vstd::prelude::*;
use crate::block_tree::BlockTree;
use crate::types::{
    Block, Error, ExecError, ExecutedBlock, LedgerInfoWithSignatures, QuorumCert, RecoveryData,
    RootInfo, RootMetadata, StateComputeResult, StorageError, SyncInfo, TimeoutCertificate,
    ACCUMULATOR_PLACEHOLDER_HASH,
};

verus! {

/// The executor collaborator. Nothing is assumed of its behaviour: the
/// store states what holds of its own data whatever these calls return.
pub trait StateComputer {
    /// Compute the execution result of `block` on top of `parent_id`.
    fn compute(&mut self, block: &Block, parent_id: u64) -> Result<StateComputeResult, ExecError>;

    /// Durably commit `blocks` under `finality_proof`; on success the
    /// returned ledger info is the commit decision handed to the store.
    fn commit(
        &mut self,
        blocks: &Vec<ExecutedBlock>,
        finality_proof: LedgerInfoWithSignatures,
    ) -> Result<LedgerInfoWithSignatures, ExecError>;
}

/// The persistent log collaborator.
pub trait PersistentStorage {
    /// Atomically append or update blocks and certificates.
    fn save_tree(&mut self, blocks: Vec<Block>, qcs: Vec<QuorumCert>) -> Result<(), StorageError>;

    /// Best-effort delete; a failure is logged by callers and repaired on
    /// the next startup.
    fn prune_tree(&mut self, ids: Vec<u64>) -> Result<(), StorageError>;

    /// Overwrite the singleton slot for the highest timeout certificate.
    fn save_highest_timeout_cert(&mut self, tc: TimeoutCertificate) -> Result<(), StorageError>;
}

/// The clock collaborator.
pub trait TimeService {
    /// Current wall-clock time in microseconds.
    fn get_current_timestamp(&mut self) -> u64;

    /// Block until the local time reaches `deadline_usecs`.
    fn wait_until(&mut self, deadline_usecs: u64);
}

/// Maintains all blocks of payload and the dependencies between them
/// (parent links and certificate links), backed by the persistent log.
pub struct BlockStore<S, P, T> {
    pub inner: BlockTree,
    pub state_computer: S,
    pub storage: P,
    pub time_service: T,
}

/// The round of the highest timeout certificate, 0 when none is held.
pub open spec fn timeout_round(t: BlockTree) -> u64 {
    match t.highest_timeout_cert {
        Option::None => 0,
        Option::Some(tc) => tc.round,
    }
}

/// The certificate's vote commits a live block that sits, with a
/// round-faithful commit info, strictly above the ordered root on its
/// own branch: replaying it must advance ordering, whatever the
/// executor answers.
pub open spec fn replayable_via(t: BlockTree, qc: QuorumCert) -> bool {
    let info = qc.spec_commit_info();
    &&& qc.spec_commits_a_block()
    &&& t.has_block(info.id)
    &&& info.round == t.round_of(info.id)
    &&& t.round_of(info.id) > t.round_of(t.ordered_root_id)
    &&& t.is_ancestor_or_equal(t.ordered_root_id, info.id)
}

/// Some certificate held by the tree is replayable.
pub open spec fn has_replayable_commit(t: BlockTree) -> bool {
    exists|cid: u64| #[trigger] t.qcs().contains_key(cid) && replayable_via(t, t.qcs()[cid])
}

/// The recovered root data agrees with the accumulator summary: version
/// and executed-state hash match unless they carry the decoupled-execution
/// placeholders, and the root certificate certifies the root block.
pub open spec fn root_consistent(root: RootInfo, meta: RootMetadata) -> bool {
    &&& root.root_qc.certified_block.version == 0 || root.root_qc.certified_block.version
        == meta.spec_version()
    &&& root.root_qc.certified_block.executed_state_id == ACCUMULATOR_PLACEHOLDER_HASH
        || root.root_qc.certified_block.executed_state_id == meta.accu_hash
    &&& root.root_qc.certified_block.id == root.root_block.id
    &&& root.root_qc.certified_block.epoch == root.root_block.epoch
    &&& root.root_qc.certified_block.round == root.root_block.round
    &&& root.root_qc.certified_block.timestamp_usecs == root.root_block.timestamp_usecs
}

/// The root block the loaded tree anchors on: the recovered block paired
/// with a synthetic compute result mirroring the accumulator summary.
pub open spec fn synthetic_root(root: RootInfo, meta: RootMetadata) -> ExecutedBlock {
    ExecutedBlock {
        block: root.root_block,
        state_compute_result: StateComputeResult {
            root_hash: meta.accu_hash,
            num_leaves: meta.num_leaves,
        },
    }
}

/// Run the executor on `block`; the result is paired with the block.
fn execute_block<S: StateComputer>(state_computer: &mut S, block: Block) -> (r: Result<
    ExecutedBlock,
    ExecError,
>)
    ensures
        r matches Ok(eb) ==> eb.block == block,
{
    let parent_id = block.parent_id();
    match state_computer.compute(&block, parent_id) {
        Ok(res) => Ok(ExecutedBlock { block, state_compute_result: res }),
        Err(e) => Err(e),
    }
}

/// Execute `block`, wait out its timestamp, persist it, then insert it
/// into `tree`. The tree is left untouched on every failure path.
fn execute_and_insert_block_inner<S: StateComputer, P: PersistentStorage, T: TimeService>(
    tree: &mut BlockTree,
    state_computer: &mut S,
    storage: &mut P,
    time_service: &mut T,
    block: Block,
) -> (r: Result<ExecutedBlock, Error>)
    requires
        old(tree).wf(),
    ensures
        final(tree).wf(),
        final(tree).commit_root_id == old(tree).commit_root_id,
        final(tree).ordered_root_id == old(tree).ordered_root_id,
        final(tree).highest_ordered_cert == old(tree).highest_ordered_cert,
        final(tree).highest_ledger_info == old(tree).highest_ledger_info,
        final(tree).highest_timeout_cert == old(tree).highest_timeout_cert,
        final(tree).pruned_block_ids@ == old(tree).pruned_block_ids@,
        final(tree).max_pruned_blocks_in_mem == old(tree).max_pruned_blocks_in_mem,
        final(tree).qcs() == old(tree).qcs(),
        old(tree).has_block(block.id) ==> r == Ok::<ExecutedBlock, Error>(
            old(tree).block_of(block.id),
        ) && *final(tree) == *old(tree),
        !old(tree).has_block(block.id) && block.round <= old(tree).round_of(
            old(tree).ordered_root_id,
        ) ==> r == Err::<ExecutedBlock, Error>(Error::StaleBlock) && *final(tree) == *old(tree),
        r matches Err(_) ==> *final(tree) == *old(tree),
        r matches Ok(eb) ==> {
            &&& eb.block.id == block.id
            &&& final(tree).has_block(block.id)
            &&& final(tree).block_of(block.id) == eb
        },
        forall|id: u64|
            #[trigger] old(tree).has_block(id) ==> final(tree).has_block(id) && final(tree).block_of(id) == old(tree).block_of(id),
        forall|id: u64|
            #[trigger] final(tree).has_block(id) ==> old(tree).has_block(id) || id == block.id,
        r matches Ok(eb) ==> (!old(tree).has_block(block.id) ==> eb.block == block
            && final(tree).blocks() == old(tree).blocks().insert(block.id, eb)),
        r matches Err(e) ==> (e == Error::StaleBlock || e == Error::MissingParent || e
            == Error::InvalidRound || e == Error::ExecutorFatal || e == Error::PersistenceError),
        r matches Ok(eb) ==> (!old(tree).has_block(block.id) ==> {
            let bumped = old(tree).round_of(block.spec_parent_id()) > old(tree).round_of(
                old(tree).highest_certified_block_id,
            );
            &&& final(tree).highest_certified_block_id == if bumped {
                block.spec_parent_id()
            } else {
                old(tree).highest_certified_block_id
            }
            &&& final(tree).highest_quorum_cert == if bumped {
                block.quorum_cert
            } else {
                old(tree).highest_quorum_cert
            }
        }),
        old(tree).edge_timestamps_monotone() && (!old(tree).has_block(block.id) && old(tree).has_block(block.spec_parent_id()) ==> old(tree).timestamp_of(block.spec_parent_id())
            <= block.timestamp_usecs) ==> final(tree).edge_timestamps_monotone(),
    {
    let id = block.id;
    if let Some(existing) = tree.get_block(id) {
        return Ok(existing);
    }
    if block.round <= tree.ordered_root().round() {
        return Err(Error::StaleBlock);
    }
    let executed = match execute_block(state_computer, block) {
        Ok(eb) => eb,
        Err(ExecError::BlockNotFound(parent_block_id)) => {
            // Recover the executor's internal tree by re-executing the
            // chain from the ordered root down to the missing parent,
            // then retry the block itself.
            let to_reexecute = match tree.path_from_root_id(tree.ordered_root_id, parent_block_id) {
                Some(v) => v,
                None => Vec::new(),
            };
            let n = to_reexecute.len();
            let mut k: usize = 0;
            while k < n
                invariant
                    n == to_reexecute@.len(),
                    0 <= k <= n,
                    *tree == *old(tree),
                    old(tree).wf(),
                    !old(tree).has_block(block.id),
                    block.round > old(tree).round_of(old(tree).ordered_root_id),
                decreases n - k,
            {
                let redo = to_reexecute[k];
                match execute_block(state_computer, redo.block) {
                    Ok(_) => {},
                    Err(_) => {
                        return Err(Error::ExecutorFatal);
                    },
                }
                k = k + 1;
            }
            match execute_block(state_computer, block) {
                Ok(eb) => eb,
                Err(_) => {
                    return Err(Error::ExecutorFatal);
                },
            }
        },
        Err(ExecError::InternalError) => {
            return Err(Error::ExecutorFatal);
        },
    };
    // Ensure the local time is past the block time before it is stored.
    time_service.wait_until(executed.timestamp_usecs());
    let mut to_save: Vec<Block> = Vec::new();
    to_save.push(block);
    match storage.save_tree(to_save, Vec::new()) {
        Ok(()) => {},
        Err(_) => {
            return Err(Error::PersistenceError);
        },
    }
    tree.insert_block(executed)
}

/// Validate `qc` against the executed block it certifies, persist it,
/// then index it in `tree`.
fn insert_quorum_cert_inner<P: PersistentStorage>(
    tree: &mut BlockTree,
    storage: &mut P,
    qc: QuorumCert,
) -> (r: Result<(), Error>)
    requires
        old(tree).wf(),
    ensures
        final(tree).wf(),
        final(tree).blocks() == old(tree).blocks(),
        final(tree).block_ids@ == old(tree).block_ids@,
        final(tree).commit_root_id == old(tree).commit_root_id,
        final(tree).ordered_root_id == old(tree).ordered_root_id,
        final(tree).highest_timeout_cert == old(tree).highest_timeout_cert,
        final(tree).pruned_block_ids@ == old(tree).pruned_block_ids@,
        final(tree).max_pruned_blocks_in_mem == old(tree).max_pruned_blocks_in_mem,
        !old(tree).has_block(qc.certified_block.id) ==> r == Err::<(), Error>(Error::QcBlockMissing)
            && *final(tree) == *old(tree),
        old(tree).has_block(qc.certified_block.id) && !old(tree).block_of(
            qc.certified_block.id,
        ).spec_block_info().spec_consistent_with_certified(&qc.certified_block) ==> r == Err::<
            (),
            Error,
        >(Error::QcInconsistent) && *final(tree) == *old(tree),
        old(tree).has_block(qc.certified_block.id) && old(tree).block_of(
            qc.certified_block.id,
        ).spec_block_info().spec_consistent_with_certified(&qc.certified_block) ==> r == Ok::<
            (),
            Error,
        >(()) || (r == Err::<(), Error>(Error::PersistenceError) && *final(tree) == *old(tree)),
        r == Ok::<(), Error>(()) ==> {
            let cid = qc.certified_block.id;
            let bumped = old(tree).round_of(cid) > old(tree).round_of(
                old(tree).highest_certified_block_id,
            );
            &&& final(tree).qcs() == if old(tree).qcs().contains_key(cid) {
                old(tree).qcs()
            } else {
                old(tree).qcs().insert(cid, qc)
            }
            &&& final(tree).highest_certified_block_id == if bumped {
                cid
            } else {
                old(tree).highest_certified_block_id
            }
            &&& final(tree).highest_quorum_cert == if bumped {
                qc
            } else {
                old(tree).highest_quorum_cert
            }
            &&& final(tree).highest_ordered_cert == if qc.spec_commit_info().round > old(tree).highest_ordered_cert.spec_commit_info().round {
                qc
            } else {
                old(tree).highest_ordered_cert
            }
            &&& final(tree).highest_ledger_info == if qc.spec_commits_a_block()
                && qc.spec_commit_info().round > old(tree).highest_ledger_info.spec_commit_info().round {
                qc.ledger_info
            } else {
                old(tree).highest_ledger_info
            }
        },
{
    let cid = qc.certified_block.id;
    let certified = match tree.get_block(cid) {
        Some(b) => b,
        None => {
            return Err(Error::QcBlockMissing);
        },
    };
    if !certified.block_info().consistent_with_certified(&qc.certified_block) {
        return Err(Error::QcInconsistent);
    }
    let mut to_save: Vec<QuorumCert> = Vec::new();
    to_save.push(qc);
    match storage.save_tree(Vec::new(), to_save) {
        Ok(()) => {},
        Err(_) => {
            return Err(Error::PersistenceError);
        },
    }
    tree.insert_quorum_cert(qc)
}

/// Copy of a list of ids.
fn copy_u64s(v: &Vec<u64>) -> (r: Vec<u64>)
    ensures
        r@ == v@,
{
    let n = v.len();
    let mut out: Vec<u64> = Vec::new();
    let mut i: usize = 0;
    while i < n
        invariant
            n == v@.len(),
            0 <= i <= n,
            out@ == v@.take(i as int),
        decreases n - i,
    {
        out.push(v[i]);
        proof {
            assert(out@ =~= v@.take(i as int + 1));
        }
        i = i + 1;
    }
    proof {
        assert(v@.take(n as int) == v@);
    }
    out
}

/// The tail of a successful commit: prune every branch abandoned by the
/// newly committed block, first from the log (best effort) and then from
/// the tree, whose commit root advances to that block.
pub fn update_counters_and_prune_blocks<P: PersistentStorage>(
    tree: &mut BlockTree,
    storage: &mut P,
    blocks_to_commit: &Vec<ExecutedBlock>,
)
    requires
        old(tree).wf(),
        blocks_to_commit@.len() > 0,
        old(tree).has_block(blocks_to_commit@.last().spec_id()),
        old(tree).is_ancestor_or_equal(
            blocks_to_commit@.last().spec_id(),
            old(tree).ordered_root_id,
        ),
    ensures
        final(tree).wf(),
        ({
            let target = blocks_to_commit@.last().spec_id();
            &&& final(tree).commit_root_id == target
            &&& final(tree).ordered_root_id == old(tree).ordered_root_id
            &&& forall|id: u64|
                #[trigger] final(tree).has_block(id) <==> old(tree).has_block(id) && old(tree).is_ancestor_or_equal(target, id)
            &&& forall|id: u64|
                #[trigger] final(tree).has_block(id) ==> final(tree).block_of(id) == old(tree).block_of(id)
            &&& forall|cid: u64|
                #[trigger] final(tree).qcs().contains_key(cid) <==> old(tree).qcs().contains_key(
                    cid,
                ) && old(tree).is_ancestor_or_equal(target, cid)
            &&& forall|cid: u64|
                #[trigger] final(tree).qcs().contains_key(cid) ==> final(tree).qcs()[cid] == old(tree).qcs()[cid]
            &&& final(tree).highest_certified_block_id == if old(tree).is_ancestor_or_equal(
                target,
                old(tree).highest_certified_block_id,
            ) {
                old(tree).highest_certified_block_id
            } else {
                target
            }
            &&& final(tree).highest_quorum_cert == old(tree).highest_quorum_cert
            &&& final(tree).highest_ordered_cert == old(tree).highest_ordered_cert
            &&& final(tree).highest_ledger_info == old(tree).highest_ledger_info
            &&& final(tree).highest_timeout_cert == old(tree).highest_timeout_cert
            &&& final(tree).max_pruned_blocks_in_mem == old(tree).max_pruned_blocks_in_mem
            &&& final(tree).inserts@ == old(tree).inserts@
            &&& forall|id: u64|
                old(tree).has_block(id) && !old(tree).is_ancestor_or_equal(target, id)
                    ==> final(tree).pruned_block_ids@.contains(id) || final(tree).pruned_block_ids@.len() == final(tree).max_pruned_blocks_in_mem
        }),
{
    let n = blocks_to_commit.len();
    let block_to_commit = blocks_to_commit[n - 1];
    let target = block_to_commit.id();
    let id_to_remove = tree.find_blocks_to_prune(target);
    let to_delete = copy_u64s(&id_to_remove);
    // A failed log prune is fine: the commit root advance below is the
    // authoritative fact, and the next startup cleans dangling blocks.
    let _ = storage.prune_tree(to_delete);
    tree.update_commit_id_and_process_pruned_blocks(target, &id_to_remove);
    proof {
        let o = *old(tree);
        let t = *tree;
        assert forall|cid: u64|
            #[trigger] t.qcs().contains_key(cid) <==> o.qcs().contains_key(cid)
                && o.is_ancestor_or_equal(target, cid) by {
            if o.qcs().contains_key(cid) {
                assert(o.has_block(cid));
                assert(t.qcs().contains_key(cid) <==> !id_to_remove@.contains(cid));
            }
            if t.qcs().contains_key(cid) {
                assert(o.qcs().contains_key(cid));
            }
        }
        assert forall|id: u64|
            o.has_block(id) && !o.is_ancestor_or_equal(target, id) && t.pruned_block_ids@.len()
                != t.max_pruned_blocks_in_mem implies t.pruned_block_ids@.contains(id) by {
            assert(id_to_remove@.contains(id));
            let all = o.pruned_block_ids@ + id_to_remove@;
            assert(all.len() <= t.max_pruned_blocks_in_mem);
            let p = choose|p: int| 0 <= p < id_to_remove@.len() && id_to_remove@[p] == id;
            assert(all[o.pruned_block_ids@.len() + p] == id);
        }
    }
}

/// Stable ordering of certificates by the round their vote committed,
/// ascending; replay then applies them in the order they were decided.
fn sort_qcs_by_commit_round(v: Vec<QuorumCert>) -> (r: Vec<QuorumCert>)
    ensures
        r@.len() == v@.len(),
        r@.to_multiset() == v@.to_multiset(),
        forall|j: int| 0 <= j < r@.len() ==> v@.contains(#[trigger] r@[j]),
        forall|a: int, b: int|
            0 <= a < b < r@.len() ==> (#[trigger] r@[a]).spec_commit_info().round
                <= (#[trigger] r@[b]).spec_commit_info().round,
{
    let n = v.len();
    let mut out: Vec<QuorumCert> = Vec::new();
    proof {
        assert(v@.take(0) =~= out@);
    }
    let mut i: usize = 0;
    while i < n
        invariant
            n == v@.len(),
            0 <= i <= n,
            out@.len() == i,
            out@.to_multiset() == v@.take(i as int).to_multiset(),
            forall|j: int| 0 <= j < out@.len() ==> v@.contains(#[trigger] out@[j]),
            forall|a: int, b: int|
                0 <= a < b < out@.len() ==> (#[trigger] out@[a]).spec_commit_info().round
                    <= (#[trigger] out@[b]).spec_commit_info().round,
        decreases n - i,
    {
        let x = v[i];
        let mut pos: usize = 0;
        while pos < out.len() && out[pos].commit_info().round <= x.commit_info().round
            invariant
                0 <= pos <= out@.len(),
                forall|t: int|
                    0 <= t < pos ==> (#[trigger] out@[t]).spec_commit_info().round
                        <= x.spec_commit_info().round,
            decreases out@.len() - pos,
        {
            pos = pos + 1;
        }
        let ghost out0 = out@;
        out.insert(pos, x);
        proof {
            assert(out@ == out0.insert(pos as int, x));
            assert(v@.contains(x)) by {
                assert(v@[i as int] == x);
            }
            assert(out@.to_multiset() == v@.take(i as int + 1).to_multiset()) by {
                vstd::seq_lib::to_multiset_insert(out0, pos as int, x);
                vstd::seq_lib::to_multiset_build(v@.take(i as int), x);
                assert(v@.take(i as int + 1) =~= v@.take(i as int).push(x));
            }
            assert forall|j: int| 0 <= j < out@.len() implies v@.contains(#[trigger] out@[j]) by {
                if j < pos {
                    assert(out@[j] == out0[j]);
                } else if j > pos {
                    assert(out@[j] == out0[j - 1]);
                } else {
                    assert(out@[j] == x);
                }
            }
            assert forall|a: int, b: int|
                0 <= a < b < out@.len() implies (#[trigger] out@[a]).spec_commit_info().round
                <= (#[trigger] out@[b]).spec_commit_info().round by {
                let oa: QuorumCert = if a < pos {
                    out0[a]
                } else if a == pos {
                    x
                } else {
                    out0[a - 1]
                };
                let ob: QuorumCert = if b < pos {
                    out0[b]
                } else if b == pos {
                    x
                } else {
                    out0[b - 1]
                };
                assert(out@[a] == oa && out@[b] == ob);
                if b == pos {
                    assert(oa.spec_commit_info().round <= x.spec_commit_info().round);
                }
                if a == pos && b > pos {
                    assert(pos < out0.len());
                    assert(x.spec_commit_info().round < out0[pos as int].spec_commit_info().round
                        || x.spec_commit_info().round <= ob.spec_commit_info().round) by {
                        assert(out0[pos as int].spec_commit_info().round
                            <= ob.spec_commit_info().round);
                    }
                }
            }
        }
        i = i + 1;
    }
    proof {
        assert(v@.take(n as int) == v@);
    }
    out
}

/// Bulk-load a tree from recovered data: verify the root against the
/// accumulator summary, then replay every recovered block and certificate
/// in order. Recovered data is authoritative, so any failure aborts the
/// load and surfaces the error.
fn build_tree<S: StateComputer, P: PersistentStorage, T: TimeService>(
    root: RootInfo,
    root_metadata: RootMetadata,
    blocks: Vec<Block>,
    quorum_certs: Vec<QuorumCert>,
    highest_timeout_cert: Option<TimeoutCertificate>,
    state_computer: &mut S,
    storage: &mut P,
    time_service: &mut T,
    max_pruned_blocks_in_mem: usize,
) -> (r: Result<BlockTree, Error>)
    ensures
        !root_consistent(root, root_metadata) ==> r == Err::<BlockTree, Error>(
            Error::RootInconsistent,
        ),
        root_consistent(root, root_metadata) ==> r != Err::<BlockTree, Error>(
            Error::RootInconsistent,
        ),
        root_consistent(root, root_metadata) && blocks@.len() == 0 && quorum_certs@.len() == 0
            ==> r is Ok,
        r matches Ok(t) ==> {
            &&& t.wf()
            &&& root_consistent(root, root_metadata)
            &&& t.commit_root_id == root.root_block.id
            &&& t.ordered_root_id == root.root_block.id
            &&& t.highest_timeout_cert == highest_timeout_cert
            &&& t.max_pruned_blocks_in_mem == max_pruned_blocks_in_mem
            &&& t.has_block(root.root_block.id)
            &&& t.block_of(root.root_block.id) == synthetic_root(root, root_metadata)
            &&& forall|i: int| 0 <= i < blocks@.len() ==> t.has_block((#[trigger] blocks@[i]).id)
            &&& forall|i: int|
                0 <= i < quorum_certs@.len() ==> t.qcs().contains_key(
                    (#[trigger] quorum_certs@[i]).certified_block.id,
                )
            &&& forall|id: u64|
                #[trigger] t.has_block(id) ==> id == root.root_block.id || exists|k: int|
                    0 <= k < blocks@.len() && (#[trigger] blocks@[k]).id == id
            &&& 1 <= t.blocks().len() <= 1 + blocks@.len()
            &&& (blocks@.len() == 0 ==> t.blocks() == Map::<u64, ExecutedBlock>::empty().insert(
                root.root_block.id,
                synthetic_root(root, root_metadata),
            ))
            &&& (quorum_certs@.len() == 0 ==> t.qcs() == Map::<u64, QuorumCert>::empty().insert(
                root.root_block.id,
                root.root_qc,
            ))
        },
{
    let cb = root.root_qc.certified_block;
    if !(cb.version == 0 || cb.version == root_metadata.version()) {
        return Err(Error::RootInconsistent);
    }
    if !(cb.executed_state_id == ACCUMULATOR_PLACEHOLDER_HASH || cb.executed_state_id
        == root_metadata.accu_hash) {
        return Err(Error::RootInconsistent);
    }
    if !(cb.id == root.root_block.id && cb.epoch == root.root_block.epoch && cb.round
        == root.root_block.round && cb.timestamp_usecs == root.root_block.timestamp_usecs) {
        return Err(Error::RootInconsistent);
    }
    // A synthetic compute result mirroring the recovered accumulator lets
    // later blocks chain to the root without re-executing history.
    let result = StateComputeResult {
        root_hash: root_metadata.accu_hash,
        num_leaves: root_metadata.num_leaves,
    };
    let executed_root = ExecutedBlock { block: root.root_block, state_compute_result: result };
    let mut tree = BlockTree::new(
        executed_root,
        root.root_qc,
        root.root_ordered_cert,
        root.root_commit_li,
        max_pruned_blocks_in_mem,
        highest_timeout_cert,
    );
    let nb = blocks.len();
    let mut i: usize = 0;
    while i < nb
        invariant
            nb == blocks@.len(),
            0 <= i <= nb,
            tree.wf(),
            tree.commit_root_id == root.root_block.id,
            tree.ordered_root_id == root.root_block.id,
            tree.highest_timeout_cert == highest_timeout_cert,
            tree.max_pruned_blocks_in_mem == max_pruned_blocks_in_mem,
            tree.has_block(root.root_block.id),
            tree.block_of(root.root_block.id) == synthetic_root(root, root_metadata),
            tree.qcs() == Map::<u64, QuorumCert>::empty().insert(root.root_block.id, root.root_qc),
            tree.blocks().len() <= 1 + i,
            i == 0 ==> tree.blocks() == Map::<u64, ExecutedBlock>::empty().insert(
                root.root_block.id,
                synthetic_root(root, root_metadata),
            ),
            root_consistent(root, root_metadata),
            forall|j: int| 0 <= j < i ==> tree.has_block((#[trigger] blocks@[j]).id),
            forall|id: u64|
                #[trigger] tree.has_block(id) ==> id == root.root_block.id || exists|k: int|
                    0 <= k < i && (#[trigger] blocks@[k]).id == id,
        decreases nb - i,
    {
        let b = blocks[i];
        let ghost before = tree;
        match execute_and_insert_block_inner(&mut tree, state_computer, storage, time_service, b) {
            Ok(_) => {},
            Err(e) => {
                return Err(e);
            },
        }
        proof {
            assert(tree.blocks().len() <= before.blocks().len() + 1) by {
                if !before.has_block(b.id) {
                    assert(tree.blocks().dom() =~= before.blocks().dom().insert(b.id));
                }
            }
            assert forall|id: u64|
                #[trigger] tree.has_block(id) implies id == root.root_block.id || exists|k: int|
                0 <= k < i as int + 1 && (#[trigger] blocks@[k]).id == id by {
                if id != root.root_block.id {
                    if before.has_block(id) {
                        let k = choose|k: int| 0 <= k < i as int && blocks@[k].id == id;
                        assert(blocks@[k].id == id);
                    } else {
                        assert(id == b.id);
                        assert(blocks@[i as int].id == id);
                    }
                }
            }
        }
        i = i + 1;
    }
    let nq = quorum_certs.len();
    let mut k: usize = 0;
    while k < nq
        invariant
            nq == quorum_certs@.len(),
            nb == blocks@.len(),
            0 <= k <= nq,
            tree.wf(),
            tree.commit_root_id == root.root_block.id,
            tree.ordered_root_id == root.root_block.id,
            tree.highest_timeout_cert == highest_timeout_cert,
            tree.max_pruned_blocks_in_mem == max_pruned_blocks_in_mem,
            tree.has_block(root.root_block.id),
            tree.block_of(root.root_block.id) == synthetic_root(root, root_metadata),
            tree.blocks().len() <= 1 + nb,
            nb == 0 ==> tree.blocks() == Map::<u64, ExecutedBlock>::empty().insert(
                root.root_block.id,
                synthetic_root(root, root_metadata),
            ),
            k == 0 ==> tree.qcs() == Map::<u64, QuorumCert>::empty().insert(
                root.root_block.id,
                root.root_qc,
            ),
            root_consistent(root, root_metadata),
            forall|j: int| 0 <= j < nb ==> tree.has_block((#[trigger] blocks@[j]).id),
            forall|id: u64|
                #[trigger] tree.has_block(id) ==> id == root.root_block.id || exists|kk: int|
                    0 <= kk < nb && (#[trigger] blocks@[kk]).id == id,
            forall|j: int|
                0 <= j < k ==> tree.qcs().contains_key(
                    (#[trigger] quorum_certs@[j]).certified_block.id,
                ),
        decreases nq - k,
    {
        let qc = quorum_certs[k];
        let ghost t0 = tree;
        match insert_quorum_cert_inner(&mut tree, storage, qc) {
            Ok(()) => {},
            Err(e) => {
                return Err(e);
            },
        }
        proof {
            assert forall|j: int|
                0 <= j < k as int + 1 implies tree.qcs().contains_key(
                (#[trigger] quorum_certs@[j]).certified_block.id,
            ) by {
                if j < k as int {
                    assert(t0.qcs().contains_key(quorum_certs@[j].certified_block.id));
                }
            }
            assert forall|j: int|
                0 <= j < nb implies tree.has_block((#[trigger] blocks@[j]).id) by {
                assert(t0.has_block(blocks@[j].id));
            }
            assert forall|id: u64|
                #[trigger] tree.has_block(id) implies id == root.root_block.id || exists|kk: int|
                0 <= kk < nb && (#[trigger] blocks@[kk]).id == id by {
                assert(t0.has_block(id));
            }
        }
        k = k + 1;
    }
    proof {
        tree.lemma_nonempty();
    }
    Ok(tree)
}

impl<S: StateComputer, P: PersistentStorage, T: TimeService> BlockStore<S, P, T> {
    fn build(
        root: RootInfo,
        root_metadata: RootMetadata,
        blocks: Vec<Block>,
        quorum_certs: Vec<QuorumCert>,
        highest_timeout_cert: Option<TimeoutCertificate>,
        state_computer: S,
        storage: P,
        max_pruned_blocks_in_mem: usize,
        time_service: T,
    ) -> (r: Result<BlockStore<S, P, T>, Error>)
        ensures
            !root_consistent(root, root_metadata) ==> (r matches Err(e) && e
                == Error::RootInconsistent),
            root_consistent(root, root_metadata) ==> !(r matches Err(e) && e
                == Error::RootInconsistent),
            root_consistent(root, root_metadata) && blocks@.len() == 0 && quorum_certs@.len() == 0
                ==> r is Ok,
            r matches Ok(s) ==> {
                &&& s.inner.wf()
                &&& s.inner.commit_root_id == root.root_block.id
                &&& s.inner.ordered_root_id == root.root_block.id
                &&& s.inner.block_of(root.root_block.id) == synthetic_root(root, root_metadata)
                &&& s.inner.highest_timeout_cert == highest_timeout_cert
                &&& s.inner.max_pruned_blocks_in_mem == max_pruned_blocks_in_mem
                &&& forall|i: int|
                    0 <= i < blocks@.len() ==> s.inner.has_block((#[trigger] blocks@[i]).id)
                &&& forall|i: int|
                    0 <= i < quorum_certs@.len() ==> s.inner.qcs().contains_key(
                        (#[trigger] quorum_certs@[i]).certified_block.id,
                    )
                &&& forall|id: u64|
                    #[trigger] s.inner.has_block(id) ==> id == root.root_block.id || exists|k: int|
                        0 <= k < blocks@.len() && (#[trigger] blocks@[k]).id == id
                &&& 1 <= s.inner.blocks().len() <= 1 + blocks@.len()
                &&& (blocks@.len() == 0 ==> s.inner.blocks() == Map::<
                    u64,
                    ExecutedBlock,
                >::empty().insert(root.root_block.id, synthetic_root(root, root_metadata)))
                &&& (quorum_certs@.len() == 0 ==> s.inner.qcs() == Map::<
                    u64,
                    QuorumCert,
                >::empty().insert(root.root_block.id, root.root_qc))
            },
    {
        let mut state_computer = state_computer;
        let mut storage = storage;
        let mut time_service = time_service;
        match build_tree(
            root,
            root_metadata,
            blocks,
            quorum_certs,
            highest_timeout_cert,
            &mut state_computer,
            &mut storage,
            &mut time_service,
            max_pruned_blocks_in_mem,
        ) {
            Ok(tree) => Ok(BlockStore { inner: tree, state_computer, storage, time_service }),
            Err(e) => Err(e),
        }
    }

    /// Build a store from recovered data, then replay any commit already
    /// durable in a recovered certificate but not yet applied.
    pub fn new(
        storage: P,
        initial_data: RecoveryData,
        state_computer: S,
        max_pruned_blocks_in_mem: usize,
        time_service: T,
    ) -> (r: Result<BlockStore<S, P, T>, Error>)
        ensures
            !root_consistent(initial_data.root, initial_data.root_metadata) ==> (r matches Err(
            e) && e == Error::RootInconsistent),
            root_consistent(initial_data.root, initial_data.root_metadata) ==> !(r matches Err(
            e) && e == Error::RootInconsistent),
            root_consistent(initial_data.root, initial_data.root_metadata)
                && initial_data.blocks@.len() == 0 && initial_data.quorum_certs@.len() == 0
                ==> r is Ok,
            r matches Ok(s) ==> {
                &&& s.inner.wf()
                &&& s.inner.highest_timeout_cert == initial_data.highest_timeout_certificate
                &&& s.inner.max_pruned_blocks_in_mem == max_pruned_blocks_in_mem
                &&& s.inner.round_of(s.inner.commit_root_id)
                    >= initial_data.root.root_block.round
                &&& forall|id: u64|
                    #[trigger] s.inner.has_block(id) ==> id == initial_data.root.root_block.id
                        || exists|k: int|
                        0 <= k < initial_data.blocks@.len() && (#[trigger] initial_data.blocks@[k]).id
                            == id
                &&& 1 <= s.inner.blocks().len() <= 1 + initial_data.blocks@.len()
            },
            r matches Ok(s) ==> (initial_data.blocks@.len() == 0 && initial_data.quorum_certs@.len()
                == 0 && !initial_data.root.root_qc.spec_commits_a_block() ==> {
                &&& s.inner.commit_root_id == initial_data.root.root_block.id
                &&& s.inner.ordered_root_id == initial_data.root.root_block.id
                &&& s.inner.blocks() == Map::<u64, ExecutedBlock>::empty().insert(
                    initial_data.root.root_block.id,
                    synthetic_root(initial_data.root, initial_data.root_metadata),
                )
                &&& s.inner.qcs() == Map::<u64, QuorumCert>::empty().insert(
                    initial_data.root.root_block.id,
                    initial_data.root.root_qc,
                )
            }),
    {
        let highest_tc = initial_data.highest_timeout_certificate;
        let root = initial_data.root;
        let root_metadata = initial_data.root_metadata;
        let blocks = initial_data.blocks;
        let quorum_certs = initial_data.quorum_certs;
        let built = BlockStore::<S, P, T>::build(
            root,
            root_metadata,
            blocks,
            quorum_certs,
            highest_tc,
            state_computer,
            storage,
            max_pruned_blocks_in_mem,
            time_service,
        );
        match built {
            Err(e) => Err(e),
            Ok(block_store) => {
                let mut block_store = block_store;
                let ghost s0 = block_store.inner;
                proof {
                    if blocks@.len() == 0 && quorum_certs@.len() == 0
                        && !root.root_qc.spec_commits_a_block() {
                        assert forall|cid: u64| #[trigger] s0.qcs().contains_key(cid) implies !s0.qcs()[cid].spec_commits_a_block() by {
                            assert(s0.qcs() == Map::<u64, QuorumCert>::empty().insert(
                                root.root_block.id,
                                root.root_qc,
                            ));
                            assert(s0.qcs()[cid] == root.root_qc);
                        }
                    }
                }
                block_store.try_commit();
                proof {
                    let t = block_store.inner;
                    t.lemma_nonempty();
                    assert forall|id: u64| #[trigger] t.has_block(id) implies id
                        == root.root_block.id || exists|k: int|
                        0 <= k < blocks@.len() && (#[trigger] blocks@[k]).id == id by {
                        assert(s0.has_block(id));
                    }
                    assert(t.blocks().dom().subset_of(s0.blocks().dom())) by {
                        assert forall|id: u64| t.blocks().dom().contains(id) implies s0.blocks().dom().contains(id) by {
                            assert(t.has_block(id));
                        }
                    }
                    vstd::set_lib::lemma_len_subset(t.blocks().dom(), s0.blocks().dom());
                }
                Ok(block_store)
            },
        }
    }

    /// Replay, in ascending order of committed round, every commit that a
    /// certificate in the tree vouches for beyond the current commit root.
    /// Individual failures are ignored: a later restart converges.
    pub fn try_commit(&mut self)
        requires
            old(self).inner.wf(),
        ensures
            final(self).inner.wf(),
            final(self).inner.highest_timeout_cert == old(self).inner.highest_timeout_cert,
            final(self).inner.max_pruned_blocks_in_mem == old(self).inner.max_pruned_blocks_in_mem,
            final(self).inner.round_of(final(self).inner.commit_root_id) >= old(self).inner.round_of(old(self).inner.commit_root_id),
            final(self).inner.round_of(final(self).inner.ordered_root_id) >= old(self).inner.round_of(old(self).inner.ordered_root_id),
            forall|id: u64|
                #[trigger] final(self).inner.has_block(id) ==> old(self).inner.has_block(id)
                    && final(self).inner.block_of(id) == old(self).inner.block_of(id),
            (forall|cid: u64|
                #[trigger] old(self).inner.qcs().contains_key(cid) ==> !old(self).inner.qcs()[cid].spec_commits_a_block()) ==> final(self).inner == old(self).inner,
            has_replayable_commit(old(self).inner) ==> final(self).inner.round_of(
                final(self).inner.ordered_root_id,
            ) > old(self).inner.round_of(old(self).inner.ordered_root_id),
    {
        let certs = self.inner.get_all_quorum_certs_with_commit_info();
        let sorted = sort_qcs_by_commit_round(certs);
        let m = sorted.len();
        let ghost replay = has_replayable_commit(old(self).inner);
        let ghost cid0 = choose|cid: u64|
            old(self).inner.qcs().contains_key(cid) && replayable_via(
                old(self).inner,
                old(self).inner.qcs()[cid],
            );
        let ghost qc0 = old(self).inner.qcs()[cid0];
        proof {
            if replay {
                assert(old(self).inner.qcs().contains_key(cid0) && replayable_via(
                    old(self).inner,
                    qc0,
                ));
                assert(certs@.contains(qc0));
                vstd::seq_lib::to_multiset_contains(certs@, qc0);
                vstd::seq_lib::to_multiset_contains(sorted@, qc0);
                assert(sorted@.contains(qc0));
            }
            if forall|cid: u64|
                #[trigger] old(self).inner.qcs().contains_key(cid) ==> !old(self).inner.qcs()[cid].spec_commits_a_block() {
                assert(certs@.len() == 0) by {
                    if certs@.len() > 0 {
                        assert(old(self).inner.qcs().contains_key(certs@[0].certified_block.id));
                    }
                }
                assert(m == 0);
            }
        }
        let mut i: usize = 0;
        while i < m
            invariant
                m == sorted@.len(),
                0 <= i <= m,
                self.inner.wf(),
                self.inner.highest_timeout_cert == old(self).inner.highest_timeout_cert,
                self.inner.max_pruned_blocks_in_mem == old(self).inner.max_pruned_blocks_in_mem,
                self.inner.round_of(self.inner.commit_root_id) >= old(self).inner.round_of(
                    old(self).inner.commit_root_id,
                ),
                self.inner.round_of(self.inner.ordered_root_id) >= old(self).inner.round_of(
                    old(self).inner.ordered_root_id,
                ),
                forall|id: u64|
                    #[trigger] self.inner.has_block(id) ==> old(self).inner.has_block(id)
                        && self.inner.block_of(id) == old(self).inner.block_of(id),
                (forall|cid: u64|
                    #[trigger] old(self).inner.qcs().contains_key(cid) ==> !old(self).inner.qcs()[cid].spec_commits_a_block()) ==> m == 0,
                m == 0 ==> self.inner == old(self).inner,
                replay ==> replayable_via(old(self).inner, qc0),
                replay ==> self.inner.round_of(self.inner.ordered_root_id) > old(self).inner.round_of(old(self).inner.ordered_root_id)
                    || (self.inner == old(self).inner && exists|idx: int|
                    i <= idx < m && sorted@[idx] == qc0),
            decreases m - i,
        {
            let qc = sorted[i];
            let ghost prev = self.inner;
            let ghost advanced_before = replay && prev.round_of(prev.ordered_root_id) > old(self).inner.round_of(old(self).inner.ordered_root_id);
            if qc.commit_info().round > self.inner.commit_root().round() {
                let _ = self.commit(qc.ledger_info);
                proof {
                    if replay && !advanced_before && sorted@[i as int] == qc0 {
                        let o = old(self).inner;
                        assert(prev == o);
                        let target = qc0.spec_commit_info().id;
                        assert(qc.ledger_info.ledger_info.commit_info == qc0.spec_commit_info());
                        assert(o.has_block(target) && o.round_of(target) > o.round_of(
                            o.ordered_root_id,
                        ) && o.is_ancestor_or_equal(o.ordered_root_id, target));
                        assert(self.inner.ordered_root_id == target);
                        assert(self.inner.round_of(target) == o.round_of(target));
                    }
                }
            } else {
                proof {
                    if replay && !advanced_before && sorted@[i as int] == qc0 {
                        // a replayable certificate always passes the guard
                        let o = old(self).inner;
                        o.lemma_root_round_order();
                        assert(false);
                    }
                }
            }
            proof {
                assert forall|id: u64| #[trigger] self.inner.has_block(id) implies prev.has_block(
                    id,
                ) && self.inner.block_of(id) == prev.block_of(id) by {
                    assert(self.inner.blocks() == prev.blocks() || (prev.has_block(id)
                        && self.inner.block_of(id) == prev.block_of(id)));
                }
                if replay && !advanced_before {
                    let idx = choose|idx: int| i <= idx < m && sorted@[idx] == qc0;
                    if sorted@[i as int] != qc0 {
                        assert(idx >= i as int + 1);
                        if self.inner != prev {
                            // any change a commit makes starts with an
                            // ordered-root advance past its previous round
                            assert(self.inner.round_of(self.inner.ordered_root_id)
                                > prev.round_of(prev.ordered_root_id));
                        } else {
                            assert(i as int + 1 <= idx < m && sorted@[idx] == qc0);
                        }
                    }
                }
            }
            i = i + 1;
        }
    }

    /// Commit the block the finality proof names: advance the ordered
    /// root, hand the committed chain to the executor, and on its success
    /// record the commit decision and prune the abandoned branches.
    pub fn commit(&mut self, finality_proof: LedgerInfoWithSignatures) -> (r: Result<(), Error>)
        requires
            old(self).inner.wf(),
        ensures
            final(self).inner.wf(),
            final(self).inner.highest_timeout_cert == old(self).inner.highest_timeout_cert,
            final(self).inner.max_pruned_blocks_in_mem == old(self).inner.max_pruned_blocks_in_mem,
            final(self).inner.round_of(final(self).inner.commit_root_id) >= old(self).inner.round_of(old(self).inner.commit_root_id),
            final(self).inner.round_of(final(self).inner.ordered_root_id) >= old(self).inner.round_of(old(self).inner.ordered_root_id),
            ({
                let o = old(self).inner;
                let target = finality_proof.ledger_info.commit_info.id;
                &&& (!o.has_block(target) ==> r == Err::<(), Error>(Error::CommitTargetMissing)
                    && final(self).inner == o)
                &&& (o.has_block(target) && o.round_of(target) <= o.round_of(o.ordered_root_id)
                    ==> r == Err::<(), Error>(Error::CommitStale) && final(self).inner == o)
                &&& (o.has_block(target) && o.round_of(target) > o.round_of(o.ordered_root_id)
                    && !o.is_ancestor_or_equal(o.ordered_root_id, target) ==> r == Err::<
                    (),
                    Error,
                >(Error::CommitTargetDisconnected) && final(self).inner == o)
                &&& (o.has_block(target) && o.round_of(target) > o.round_of(o.ordered_root_id)
                    && o.is_ancestor_or_equal(o.ordered_root_id, target) ==> {
                    &&& final(self).inner.ordered_root_id == target
                    &&& (r == Err::<(), Error>(Error::ExecutorFatal) || r == Ok::<(), Error>(()))
                    &&& (r == Err::<(), Error>(Error::ExecutorFatal) ==> final(self).inner
                        == (BlockTree { ordered_root_id: target, ..o }))
                    &&& (r == Ok::<(), Error>(()) ==> {
                        &&& final(self).inner.commit_root_id == target
                        &&& forall|id: u64|
                            #[trigger] final(self).inner.has_block(id) <==> o.has_block(id)
                                && o.is_ancestor_or_equal(target, id)
                        &&& forall|id: u64|
                            #[trigger] final(self).inner.has_block(id) ==> final(self).inner.block_of(id) == o.block_of(id)
                        &&& forall|cid: u64|
                            #[trigger] final(self).inner.qcs().contains_key(cid) <==> o.qcs().contains_key(
                                cid,
                            ) && o.is_ancestor_or_equal(target, cid)
                        &&& forall|cid: u64|
                            #[trigger] final(self).inner.qcs().contains_key(cid) ==> final(self).inner.qcs()[cid] == o.qcs()[cid]
                        &&& final(self).inner.highest_quorum_cert == o.highest_quorum_cert
                        &&& final(self).inner.highest_ordered_cert == o.highest_ordered_cert
                        &&& final(self).inner.highest_certified_block_id
                            == if o.is_ancestor_or_equal(target, o.highest_certified_block_id) {
                            o.highest_certified_block_id
                        } else {
                            target
                        }
                        &&& forall|id: u64|
                            o.has_block(id) && !o.is_ancestor_or_equal(target, id) ==> final(self).inner.pruned_block_ids@.contains(id) || final(self).inner.pruned_block_ids@.len() == final(self).inner.max_pruned_blocks_in_mem
                    })
                })
            }),
    {
        let block_id_to_commit = finality_proof.ledger_info.consensus_block_id();
        let block_to_commit = match self.inner.get_block(block_id_to_commit) {
            Some(b) => b,
            None => {
                return Err(Error::CommitTargetMissing);
            },
        };
        // First make sure that this commit is new.
        if block_to_commit.round() <= self.inner.ordered_root().round() {
            return Err(Error::CommitStale);
        }
        let blocks_to_commit = match self.inner.path_from_root_id(
            self.inner.ordered_root_id,
            block_id_to_commit,
        ) {
            Some(v) => v,
            None => {
                return Err(Error::CommitTargetDisconnected);
            },
        };
        proof {
            assert(blocks_to_commit@.len() > 0);
        }
        let ghost o = self.inner;
        proof {
            o.lemma_root_round_order();
            o.lemma_rounds_increase_on_chains(o.ordered_root_id, block_id_to_commit);
        }
        self.inner.update_ordered_root_id(block_id_to_commit);
        match self.state_computer.commit(&blocks_to_commit, finality_proof) {
            Err(_) => Err(Error::ExecutorFatal),
            Ok(commit_decision) => {
                self.inner.update_highest_ledger_info(commit_decision);
                let ghost mid = self.inner;
                proof {
                    assert(blocks_to_commit@.last().spec_id() == block_id_to_commit);
                    assert(mid.ordered_root_id == block_id_to_commit);
                    assert(mid.reaches(block_id_to_commit, mid.ordered_root_id, 0));
                    assert(mid.has_block(block_id_to_commit)) by {
                        assert(mid.id_to_block == o.id_to_block);
                        assert(o.has_block(block_id_to_commit));
                    }
                }
                update_counters_and_prune_blocks(
                    &mut self.inner,
                    &mut self.storage,
                    &blocks_to_commit,
                );
                proof {
                    let t = self.inner;
                    assert forall|id: u64|
                        #[trigger] t.has_block(id) <==> o.has_block(id) && o.is_ancestor_or_equal(
                            block_id_to_commit,
                            id,
                        ) by {
                        BlockTree::lemma_anc_agree(&o, &mid, block_id_to_commit, id);
                    }
                    assert forall|cid: u64|
                        #[trigger] t.qcs().contains_key(cid) <==> o.qcs().contains_key(cid)
                            && o.is_ancestor_or_equal(block_id_to_commit, cid) by {
                        BlockTree::lemma_anc_agree(&o, &mid, block_id_to_commit, cid);
                    }
                    BlockTree::lemma_anc_agree(
                        &o,
                        &mid,
                        block_id_to_commit,
                        o.highest_certified_block_id,
                    );
                    assert forall|id: u64|
                        o.has_block(id) && !o.is_ancestor_or_equal(
                            block_id_to_commit,
                            id,
                        ) implies t.pruned_block_ids@.contains(id) || t.pruned_block_ids@.len()
                        == t.max_pruned_blocks_in_mem by {
                        BlockTree::lemma_anc_agree(&o, &mid, block_id_to_commit, id);
                        assert(mid.has_block(id));
                    }
                }
                Ok(())
            },
        }
    }

    /// Throw the current tree away and rebuild from `root`, carrying the
    /// highest timeout certificate and the FIFO bound over; used after
    /// state sync fast-forwards past the tree. The old blocks are pruned
    /// from the log best-effort, then commits vouched for by the
    /// recovered certificates are replayed.
    pub fn rebuild(
        &mut self,
        root: RootInfo,
        root_metadata: RootMetadata,
        blocks: Vec<Block>,
        quorum_certs: Vec<QuorumCert>,
    ) -> (r: Result<(), Error>)
        requires
            old(self).inner.wf(),
        ensures
            final(self).inner.wf(),
            r matches Err(_) ==> final(self).inner == old(self).inner,
            !root_consistent(root, root_metadata) ==> (r matches Err(e) && e
                == Error::RootInconsistent),
            root_consistent(root, root_metadata) ==> !(r matches Err(e) && e
                == Error::RootInconsistent),
            root_consistent(root, root_metadata) && blocks@.len() == 0 && quorum_certs@.len() == 0
                ==> r is Ok,
            r matches Ok(_) ==> {
                &&& final(self).inner.highest_timeout_cert == old(self).inner.highest_timeout_cert
                &&& final(self).inner.max_pruned_blocks_in_mem == old(self).inner.max_pruned_blocks_in_mem
                &&& final(self).inner.round_of(final(self).inner.commit_root_id)
                    >= root.root_block.round
                &&& forall|id: u64|
                    #[trigger] final(self).inner.has_block(id) ==> id == root.root_block.id
                        || exists|k: int|
                        0 <= k < blocks@.len() && (#[trigger] blocks@[k]).id == id
                &&& 1 <= final(self).inner.blocks().len() <= 1 + blocks@.len()
            },
    {
        let max_pruned_blocks_in_mem = self.inner.max_pruned_blocks_in_mem();
        // Rollover the previous highest TC from the old tree to the new one.
        let prev_htc = self.inner.highest_timeout_cert();
        let new_tree = match build_tree(
            root,
            root_metadata,
            blocks,
            quorum_certs,
            prev_htc,
            &mut self.state_computer,
            &mut self.storage,
            &mut self.time_service,
            max_pruned_blocks_in_mem,
        ) {
            Ok(t) => t,
            Err(e) => {
                return Err(e);
            },
        };
        let to_remove = self.inner.get_all_block_id();
        // A failed log prune is fine: the next restart cleans up again.
        let _ = self.storage.prune_tree(to_remove);
        self.inner = new_tree;
        let ghost s0 = self.inner;
        self.try_commit();
        proof {
            let t = self.inner;
            t.lemma_nonempty();
            assert forall|id: u64| #[trigger] t.has_block(id) implies id == root.root_block.id
                || exists|k: int| 0 <= k < blocks@.len() && (#[trigger] blocks@[k]).id == id by {
                assert(s0.has_block(id));
            }
            assert(t.blocks().dom().subset_of(s0.blocks().dom())) by {
                assert forall|id: u64| t.blocks().dom().contains(id) implies s0.blocks().dom().contains(id) by {
                    assert(t.has_block(id));
                }
            }
            vstd::set_lib::lemma_len_subset(t.blocks().dom(), s0.blocks().dom());
        }
        Ok(())
    }

    /// Execute and insert a block if it passes all validation tests,
    /// returning the executed block kept in the store.
    ///
    /// Duplicate inserts return the previously inserted block: a
    /// certificate may arrive for a block that is being added. The
    /// ancestors must be present; a missing parent surfaces as an error
    /// for the caller's state sync to repair.
    pub fn execute_and_insert_block(&mut self, block: Block) -> (r: Result<ExecutedBlock, Error>)
        requires
            old(self).inner.wf(),
        ensures
            final(self).inner.wf(),
            old(self).inner.has_block(block.id) ==> r == Ok::<ExecutedBlock, Error>(
                old(self).inner.block_of(block.id),
            ) && final(self).inner == old(self).inner,
            !old(self).inner.has_block(block.id) && block.round <= old(self).inner.round_of(
                old(self).inner.ordered_root_id,
            ) ==> r == Err::<ExecutedBlock, Error>(Error::StaleBlock) && final(self).inner == old(self).inner,
            r matches Err(_) ==> final(self).inner == old(self).inner,
            r matches Ok(eb) ==> {
                &&& eb.block.id == block.id
                &&& final(self).inner.has_block(block.id)
                &&& final(self).inner.block_of(block.id) == eb
            },
            r matches Ok(eb) ==> (!old(self).inner.has_block(block.id) ==> eb.block == block
                && final(self).inner.blocks() == old(self).inner.blocks().insert(block.id, eb)),
            r matches Err(e) ==> (e == Error::StaleBlock || e == Error::MissingParent || e
                == Error::InvalidRound || e == Error::ExecutorFatal || e
                == Error::PersistenceError),
            r matches Ok(eb) ==> (!old(self).inner.has_block(block.id) ==> {
                let bumped = old(self).inner.round_of(block.spec_parent_id()) > old(self).inner.round_of(old(self).inner.highest_certified_block_id);
                &&& final(self).inner.highest_certified_block_id == if bumped {
                    block.spec_parent_id()
                } else {
                    old(self).inner.highest_certified_block_id
                }
                &&& final(self).inner.highest_quorum_cert == if bumped {
                    block.quorum_cert
                } else {
                    old(self).inner.highest_quorum_cert
                }
            }),
            forall|id: u64|
                #[trigger] old(self).inner.has_block(id) ==> final(self).inner.has_block(id)
                    && final(self).inner.block_of(id) == old(self).inner.block_of(id),
            final(self).inner.commit_root_id == old(self).inner.commit_root_id,
            final(self).inner.ordered_root_id == old(self).inner.ordered_root_id,
            final(self).inner.qcs() == old(self).inner.qcs(),
            final(self).inner.highest_timeout_cert == old(self).inner.highest_timeout_cert,
            final(self).inner.pruned_block_ids@ == old(self).inner.pruned_block_ids@,
            final(self).inner.max_pruned_blocks_in_mem == old(self).inner.max_pruned_blocks_in_mem,
    {
        execute_and_insert_block_inner(
            &mut self.inner,
            &mut self.state_computer,
            &mut self.storage,
            &mut self.time_service,
            block,
        )
    }

    /// Validate a quorum certificate against the executed block it
    /// certifies, persist it, and index it in the tree.
    pub fn insert_single_quorum_cert(&mut self, qc: QuorumCert) -> (r: Result<(), Error>)
        requires
            old(self).inner.wf(),
        ensures
            final(self).inner.wf(),
            final(self).inner.blocks() == old(self).inner.blocks(),
            final(self).inner.commit_root_id == old(self).inner.commit_root_id,
            final(self).inner.ordered_root_id == old(self).inner.ordered_root_id,
            final(self).inner.highest_timeout_cert == old(self).inner.highest_timeout_cert,
            final(self).inner.pruned_block_ids@ == old(self).inner.pruned_block_ids@,
            final(self).inner.max_pruned_blocks_in_mem == old(self).inner.max_pruned_blocks_in_mem,
            !old(self).inner.has_block(qc.certified_block.id) ==> r == Err::<(), Error>(
                Error::QcBlockMissing,
            ) && final(self).inner == old(self).inner,
            old(self).inner.has_block(qc.certified_block.id) && !old(self).inner.block_of(
                qc.certified_block.id,
            ).spec_block_info().spec_consistent_with_certified(&qc.certified_block) ==> r == Err::<
                (),
                Error,
            >(Error::QcInconsistent) && final(self).inner == old(self).inner,
            old(self).inner.has_block(qc.certified_block.id) && old(self).inner.block_of(
                qc.certified_block.id,
            ).spec_block_info().spec_consistent_with_certified(&qc.certified_block) ==> r == Ok::<
                (),
                Error,
            >(()) || (r == Err::<(), Error>(Error::PersistenceError) && final(self).inner == old(self).inner),
            r == Ok::<(), Error>(()) ==> {
                let cid = qc.certified_block.id;
                let bumped = old(self).inner.round_of(cid) > old(self).inner.round_of(
                    old(self).inner.highest_certified_block_id,
                );
                &&& final(self).inner.qcs() == if old(self).inner.qcs().contains_key(cid) {
                    old(self).inner.qcs()
                } else {
                    old(self).inner.qcs().insert(cid, qc)
                }
                &&& final(self).inner.qcs().contains_key(cid)
                &&& final(self).inner.highest_certified_block_id == if bumped {
                    cid
                } else {
                    old(self).inner.highest_certified_block_id
                }
                &&& final(self).inner.highest_quorum_cert == if bumped {
                    qc
                } else {
                    old(self).inner.highest_quorum_cert
                }
                &&& final(self).inner.highest_ordered_cert == if qc.spec_commit_info().round > old(self).inner.highest_ordered_cert.spec_commit_info().round {
                    qc
                } else {
                    old(self).inner.highest_ordered_cert
                }
                &&& final(self).inner.highest_ledger_info == if qc.spec_commits_a_block()
                    && qc.spec_commit_info().round > old(self).inner.highest_ledger_info.spec_commit_info().round {
                    qc.ledger_info
                } else {
                    old(self).inner.highest_ledger_info
                }
            },
    {
        let r = insert_quorum_cert_inner(&mut self.inner, &mut self.storage, qc);
        proof {
            if r == Ok::<(), Error>(()) {
                assert(final(self).inner.qcs().contains_key(qc.certified_block.id));
            }
        }
        r
    }

    /// Replace the highest timeout certificate when the given one carries
    /// a higher round, persisting it first; otherwise do nothing.
    pub fn insert_timeout_certificate(&mut self, tc: TimeoutCertificate) -> (r: Result<(), Error>)
        requires
            old(self).inner.wf(),
        ensures
            final(self).inner.wf(),
            tc.round <= timeout_round(old(self).inner) ==> r == Ok::<(), Error>(()) && final(self).inner == old(self).inner,
            tc.round > timeout_round(old(self).inner) ==> (r == Ok::<(), Error>(()) && final(self).inner == (BlockTree {
                highest_timeout_cert: Some(tc),
                ..old(self).inner
            })) || (r == Err::<(), Error>(Error::PersistenceError) && final(self).inner == old(self).inner),
    {
        let cur_tc_round = match self.inner.highest_timeout_cert() {
            Some(cur) => cur.round,
            None => 0,
        };
        if tc.round <= cur_tc_round {
            return Ok(());
        }
        match self.storage.save_highest_timeout_cert(tc) {
            Err(_) => Err(Error::PersistenceError),
            Ok(()) => {
                self.inner.replace_timeout_cert(tc);
                Ok(())
            },
        }
    }

    /// Prune the tree up to `next_root_id`, which becomes both roots; any
    /// branch off its subtree is removed. Returns the ids removed.
    pub fn prune_tree(&mut self, next_root_id: u64) -> (r: Vec<u64>)
        requires
            old(self).inner.wf(),
            old(self).inner.has_block(next_root_id),
            old(self).inner.is_ancestor_or_equal(old(self).inner.ordered_root_id, next_root_id),
        ensures
            final(self).inner.wf(),
            forall|id: u64|
                #[trigger] r@.contains(id) <==> old(self).inner.has_block(id) && !old(self).inner.is_ancestor_or_equal(next_root_id, id),
            r@.no_duplicates(),
            forall|i: int, j: int|
                0 <= i < j < r@.len() ==> !old(self).inner.is_ancestor_or_equal(
                    #[trigger] r@[i],
                    #[trigger] r@[j],
                ),
            final(self).inner.commit_root_id == next_root_id,
            final(self).inner.ordered_root_id == next_root_id,
            forall|id: u64|
                #[trigger] final(self).inner.has_block(id) <==> old(self).inner.has_block(id)
                    && old(self).inner.is_ancestor_or_equal(next_root_id, id),
    {
        let ghost o = self.inner;
        let id_to_remove = self.inner.find_blocks_to_prune(next_root_id);
        let to_delete = copy_u64s(&id_to_remove);
        // A failed log prune is fine: the commit root advance below is
        // the authoritative fact, and the next restart cleans up.
        let _ = self.storage.prune_tree(to_delete);
        self.inner.update_ordered_root_id(next_root_id);
        let ghost mid = self.inner;
        proof {
            assert(mid.reaches(next_root_id, mid.ordered_root_id, 0));
            assert(mid.has_block(next_root_id)) by {
                assert(mid.id_to_block == o.id_to_block);
            }
            assert forall|id: u64| #[trigger] id_to_remove@.contains(id) <==> mid.has_block(id)
                && !mid.is_ancestor_or_equal(next_root_id, id) by {
                BlockTree::lemma_anc_agree(&o, &mid, next_root_id, id);
            }
        }
        self.inner.update_commit_id_and_process_pruned_blocks(next_root_id, &id_to_remove);
        proof {
            assert forall|id: u64|
                #[trigger] final(self).inner.has_block(id) <==> o.has_block(id)
                    && o.is_ancestor_or_equal(next_root_id, id) by {
                BlockTree::lemma_anc_agree(&o, &mid, next_root_id, id);
            }
        }
        id_to_remove
    }

    /// Insert a block together with its embedded certificate for the
    /// parent: the certificate goes through `insert_single_quorum_cert`
    /// first, then the block through `execute_and_insert_block`.
    pub fn insert_block_with_qc(&mut self, block: Block) -> (r: Result<ExecutedBlock, Error>)
        requires
            old(self).inner.wf(),
        ensures
            final(self).inner.wf(),
            !old(self).inner.has_block(block.spec_parent_id()) ==> r == Err::<ExecutedBlock, Error>(
                Error::QcBlockMissing,
            ) && final(self).inner == old(self).inner,
            old(self).inner.has_block(block.spec_parent_id()) && !old(self).inner.block_of(
                block.spec_parent_id(),
            ).spec_block_info().spec_consistent_with_certified(&block.quorum_cert.certified_block)
                ==> r == Err::<ExecutedBlock, Error>(Error::QcInconsistent) && final(self).inner
                == old(self).inner,
            r matches Ok(eb) ==> {
                &&& eb.block.id == block.id
                &&& final(self).inner.has_block(block.id)
                &&& final(self).inner.block_of(block.id) == eb
                &&& (!old(self).inner.has_block(block.id) ==> eb.block == block)
                &&& (old(self).inner.has_block(block.id) ==> eb == old(self).inner.block_of(
                    block.id,
                ))
            },
            r matches Err(e) ==> (e == Error::QcBlockMissing || e == Error::QcInconsistent || e
                == Error::PersistenceError || e == Error::StaleBlock || e == Error::MissingParent
                || e == Error::InvalidRound || e == Error::ExecutorFatal),
            forall|id: u64|
                #[trigger] old(self).inner.has_block(id) ==> final(self).inner.has_block(id)
                    && final(self).inner.block_of(id) == old(self).inner.block_of(id),
            final(self).inner.commit_root_id == old(self).inner.commit_root_id,
            final(self).inner.ordered_root_id == old(self).inner.ordered_root_id,
            final(self).inner.highest_timeout_cert == old(self).inner.highest_timeout_cert,
            final(self).inner.pruned_block_ids@ == old(self).inner.pruned_block_ids@,
            final(self).inner.max_pruned_blocks_in_mem == old(self).inner.max_pruned_blocks_in_mem,
    {
        match self.insert_single_quorum_cert(block.quorum_cert) {
            Err(e) => {
                return Err(e);
            },
            Ok(()) => {},
        }
        self.execute_and_insert_block(block)
    }
}

impl<S, P, T> BlockStore<S, P, T> {
    /// Whether `block_id` is live or still in the recently-pruned FIFO.
    pub fn block_exists(&self, block_id: u64) -> (r: bool)
        ensures
            r == (self.inner.has_block(block_id) || self.inner.pruned_block_ids@.contains(
                block_id,
            )),
    {
        self.inner.block_exists(block_id)
    }

    /// The live block of this id, if any.
    pub fn get_block(&self, block_id: u64) -> (r: Option<ExecutedBlock>)
        ensures
            r == if self.inner.has_block(block_id) {
                Some(self.inner.block_of(block_id))
            } else {
                Option::<ExecutedBlock>::None
            },
    {
        self.inner.get_block(block_id)
    }

    /// The latest block whose ordering is final.
    pub fn ordered_root(&self) -> (r: ExecutedBlock)
        requires
            self.inner.wf(),
        ensures
            r == self.inner.block_of(self.inner.ordered_root_id),
    {
        self.inner.ordered_root()
    }

    /// The latest durably committed block.
    pub fn commit_root(&self) -> (r: ExecutedBlock)
        requires
            self.inner.wf(),
        ensures
            r == self.inner.block_of(self.inner.commit_root_id),
    {
        self.inner.commit_root()
    }

    /// The certificate certifying `block_id`, if one is held.
    pub fn get_quorum_cert_for_block(&self, block_id: u64) -> (r: Option<QuorumCert>)
        ensures
            r == if self.inner.qcs().contains_key(block_id) {
                Some(self.inner.qcs()[block_id])
            } else {
                Option::<QuorumCert>::None
            },
    {
        self.inner.get_quorum_cert_for_block(block_id)
    }

    /// The chain from the ordered root (exclusive) down to `block_id`,
    /// oldest first; `None` when `block_id` is not its descendant.
    pub fn path_from_ordered_root(&self, block_id: u64) -> (r: Option<Vec<ExecutedBlock>>)
        requires
            self.inner.wf(),
        ensures
            r is Some <==> self.inner.has_block(block_id) && self.inner.is_ancestor_or_equal(
                self.inner.ordered_root_id,
                block_id,
            ),
            r matches Some(v) ==> (v@.len() == 0 <==> block_id == self.inner.ordered_root_id),
            r matches Some(v) ==> (v@.len() > 0 ==> v@[0].spec_parent_id()
                == self.inner.ordered_root_id && v@[v@.len() - 1].spec_id() == block_id),
            r matches Some(v) ==> forall|i: int|
                0 <= i < v@.len() ==> self.inner.has_block((#[trigger] v@[i]).spec_id())
                    && self.inner.block_of(v@[i].spec_id()) == v@[i],
            r matches Some(v) ==> forall|i: int|
                0 <= i < v@.len() - 1 ==> (#[trigger] v@[i + 1]).spec_parent_id()
                    == v@[i].spec_id(),
            r matches Some(v) ==> forall|i: int|
                0 <= i < v@.len() - 1 ==> (#[trigger] v@[i]).spec_round() < v@[i
                    + 1].spec_round(),
            r matches Some(v) ==> self.inner.is_chain_to(v@, block_id),
    {
        self.inner.path_from_root_id(self.inner.ordered_root_id, block_id)
    }

    /// The chain from the commit root (exclusive) down to `block_id`,
    /// oldest first; `None` when `block_id` is not its descendant.
    pub fn path_from_commit_root(&self, block_id: u64) -> (r: Option<Vec<ExecutedBlock>>)
        requires
            self.inner.wf(),
        ensures
            r is Some <==> self.inner.has_block(block_id) && self.inner.is_ancestor_or_equal(
                self.inner.commit_root_id,
                block_id,
            ),
            r matches Some(v) ==> (v@.len() == 0 <==> block_id == self.inner.commit_root_id),
            r matches Some(v) ==> (v@.len() > 0 ==> v@[0].spec_parent_id()
                == self.inner.commit_root_id && v@[v@.len() - 1].spec_id() == block_id),
            r matches Some(v) ==> forall|i: int|
                0 <= i < v@.len() ==> self.inner.has_block((#[trigger] v@[i]).spec_id())
                    && self.inner.block_of(v@[i].spec_id()) == v@[i],
            r matches Some(v) ==> forall|i: int|
                0 <= i < v@.len() - 1 ==> (#[trigger] v@[i + 1]).spec_parent_id()
                    == v@[i].spec_id(),
            r matches Some(v) ==> forall|i: int|
                0 <= i < v@.len() - 1 ==> (#[trigger] v@[i]).spec_round() < v@[i
                    + 1].spec_round(),
            r matches Some(v) ==> self.inner.is_chain_to(v@, block_id),
    {
        self.inner.path_from_root_id(self.inner.commit_root_id, block_id)
    }

    /// The block with the greatest certified round observed so far.
    pub fn highest_certified_block(&self) -> (r: ExecutedBlock)
        requires
            self.inner.wf(),
        ensures
            r == self.inner.block_of(self.inner.highest_certified_block_id),
    {
        self.inner.highest_certified_block()
    }

    pub fn highest_quorum_cert(&self) -> (r: QuorumCert)
        ensures
            r == self.inner.highest_quorum_cert,
    {
        self.inner.highest_quorum_cert()
    }

    pub fn highest_ordered_cert(&self) -> (r: QuorumCert)
        ensures
            r == self.inner.highest_ordered_cert,
    {
        self.inner.highest_ordered_cert()
    }

    pub fn highest_ledger_info(&self) -> (r: LedgerInfoWithSignatures)
        ensures
            r == self.inner.highest_ledger_info,
    {
        self.inner.highest_ledger_info()
    }

    pub fn highest_timeout_cert(&self) -> (r: Option<TimeoutCertificate>)
        ensures
            r == self.inner.highest_timeout_cert,
    {
        self.inner.highest_timeout_cert()
    }

    /// The certificates a peer needs to catch up with this participant.
    pub fn sync_info(&self) -> (r: SyncInfo)
        ensures
            r.highest_quorum_cert == self.inner.highest_quorum_cert,
            r.highest_ordered_cert == self.inner.highest_ordered_cert,
            r.highest_ledger_info == Some(self.inner.highest_ledger_info),
            r.highest_timeout_cert == self.inner.highest_timeout_cert,
    {
        SyncInfo {
            highest_quorum_cert: self.inner.highest_quorum_cert(),
            highest_ordered_cert: self.inner.highest_ordered_cert(),
            highest_ledger_info: Some(self.inner.highest_ledger_info()),
            highest_timeout_cert: self.inner.highest_timeout_cert(),
        }
    }

    /// Number of blocks in the tree.
    pub fn len(&self) -> (r: usize)
        ensures
            r == self.inner.blocks().len(),
    {
        self.inner.len()
    }

    /// Number of child links in the tree.
    pub fn child_links(&self) -> (r: usize)
        requires
            self.inner.wf(),
        ensures
            r == self.inner.blocks().len() - 1,
    {
        self.inner.child_links()
    }

    /// The number of pruned blocks still recorded in memory.
    pub fn pruned_blocks_in_mem(&self) -> (r: usize)
        ensures
            r == self.inner.pruned_block_ids@.len(),
    {
        self.inner.pruned_blocks_in_mem()
    }
}

} // verus!

