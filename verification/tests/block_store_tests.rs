use block_store::block_store::{BlockStore, PersistentStorage, StateComputer, TimeService};
use block_store::types::{
    Block, BlockInfo, Error, ExecError, LedgerInfo, LedgerInfoWithSignatures, QuorumCert,
    RecoveryData, RootInfo, RootMetadata, StateComputeResult, StorageError, TimeoutCertificate,
};

struct TestExecutor {
    missing_parent_once: Option<u64>,
    always_fail: bool,
    fail_commit_once: bool,
    compute_calls: usize,
}

impl TestExecutor {
    fn new() -> TestExecutor {
        TestExecutor {
            missing_parent_once: None,
            always_fail: false,
            fail_commit_once: false,
            compute_calls: 0,
        }
    }
}

impl StateComputer for TestExecutor {
    fn compute(&mut self, block: &Block, parent_id: u64) -> Result<StateComputeResult, ExecError> {
        self.compute_calls += 1;
        if self.always_fail {
            return Err(ExecError::InternalError);
        }
        if self.missing_parent_once == Some(parent_id) {
            self.missing_parent_once = None;
            return Err(ExecError::BlockNotFound(parent_id));
        }
        Ok(StateComputeResult { root_hash: block.id.wrapping_mul(31), num_leaves: block.round + 1 })
    }

    fn commit(
        &mut self,
        _blocks: &Vec<block_store::types::ExecutedBlock>,
        finality_proof: LedgerInfoWithSignatures,
    ) -> Result<LedgerInfoWithSignatures, ExecError> {
        if self.fail_commit_once {
            self.fail_commit_once = false;
            return Err(ExecError::InternalError);
        }
        Ok(finality_proof)
    }
}

struct TestStorage {
    saves: usize,
    tc_saves: usize,
    pruned: Vec<Vec<u64>>,
    fail_saves: bool,
}

impl TestStorage {
    fn new() -> TestStorage {
        TestStorage { saves: 0, tc_saves: 0, pruned: Vec::new(), fail_saves: false }
    }
}

impl PersistentStorage for TestStorage {
    fn save_tree(&mut self, _blocks: Vec<Block>, _qcs: Vec<QuorumCert>) -> Result<(), StorageError> {
        if self.fail_saves {
            return Err(StorageError { code: 1 });
        }
        self.saves += 1;
        Ok(())
    }

    fn prune_tree(&mut self, ids: Vec<u64>) -> Result<(), StorageError> {
        self.pruned.push(ids);
        Ok(())
    }

    fn save_highest_timeout_cert(&mut self, _tc: TimeoutCertificate) -> Result<(), StorageError> {
        if self.fail_saves {
            return Err(StorageError { code: 2 });
        }
        self.tc_saves += 1;
        Ok(())
    }
}

struct TestClock {
    now: u64,
}

impl TimeService for TestClock {
    fn get_current_timestamp(&mut self) -> u64 {
        self.now
    }

    fn wait_until(&mut self, deadline_usecs: u64) {
        if deadline_usecs > self.now {
            self.now = deadline_usecs;
        }
    }
}

type Store = BlockStore<TestExecutor, TestStorage, TestClock>;

fn ordered_info(b: &Block) -> BlockInfo {
    BlockInfo {
        epoch: b.epoch,
        round: b.round,
        id: b.id,
        executed_state_id: 0,
        version: 0,
        timestamp_usecs: b.timestamp_usecs,
    }
}

fn qc_certifying(b: &Block, commit_info: BlockInfo) -> QuorumCert {
    QuorumCert {
        certified_block: ordered_info(b),
        ledger_info: LedgerInfoWithSignatures {
            ledger_info: LedgerInfo { commit_info, consensus_data_hash: 9 },
            signatures: 3,
        },
    }
}

fn zero_info() -> BlockInfo {
    BlockInfo { epoch: 0, round: 0, id: 0, executed_state_id: 0, version: 0, timestamp_usecs: 0 }
}

fn genesis() -> Block {
    let virtual_parent = QuorumCert {
        certified_block: zero_info(),
        ledger_info: LedgerInfoWithSignatures {
            ledger_info: LedgerInfo { commit_info: zero_info(), consensus_data_hash: 0 },
            signatures: 0,
        },
    };
    Block { id: 1, epoch: 1, round: 0, timestamp_usecs: 100, payload: 0, quorum_cert: virtual_parent }
}

fn child_of(parent: &Block, id: u64, round: u64, timestamp_usecs: u64) -> Block {
    Block {
        id,
        epoch: parent.epoch,
        round,
        timestamp_usecs,
        payload: id,
        quorum_cert: qc_certifying(parent, zero_info()),
    }
}

fn recovery_from(root_block: Block, blocks: Vec<Block>, qcs: Vec<QuorumCert>) -> RecoveryData {
    let root_qc = qc_certifying(&root_block, zero_info());
    let root_commit_li = LedgerInfoWithSignatures {
        ledger_info: LedgerInfo { commit_info: ordered_info(&root_block), consensus_data_hash: 9 },
        signatures: 3,
    };
    RecoveryData {
        root: RootInfo { root_block, root_qc, root_ordered_cert: root_qc, root_commit_li },
        root_metadata: RootMetadata { accu_hash: 0, frozen_root_hashes: Vec::new(), num_leaves: 0 },
        blocks,
        quorum_certs: qcs,
        highest_timeout_certificate: None,
    }
}

fn fresh_store() -> Store {
    let data = recovery_from(genesis(), Vec::new(), Vec::new());
    BlockStore::new(TestStorage::new(), data, TestExecutor::new(), 10, TestClock { now: 0 })
        .expect("fresh store builds")
}

fn proof_naming(b: &Block) -> LedgerInfoWithSignatures {
    LedgerInfoWithSignatures {
        ledger_info: LedgerInfo { commit_info: ordered_info(b), consensus_data_hash: 9 },
        signatures: 3,
    }
}

#[test]
fn build_from_genesis() {
    let store = fresh_store();
    assert_eq!(store.ordered_root().round(), 0);
    assert_eq!(store.commit_root().round(), 0);
    assert_eq!(store.len(), 1);
    assert!(store.sync_info().highest_timeout_cert.is_none());
    assert_eq!(store.pruned_blocks_in_mem(), 0);
}

#[test]
fn straight_line_commit() {
    let mut store = fresh_store();
    let g = genesis();
    let b1 = child_of(&g, 10, 1, 110);
    let b2 = child_of(&b1, 20, 2, 120);
    let b3 = child_of(&b2, 30, 3, 130);
    for b in [b1, b2, b3] {
        store.insert_block_with_qc(b).expect("insert");
    }
    assert_eq!(store.len(), 4);
    store.commit(proof_naming(&b1)).expect("commit succeeds");
    assert_eq!(store.ordered_root().id(), b1.id);
    assert_eq!(store.commit_root().id(), b1.id);
    assert!(store.get_block(b2.id).is_some());
    assert!(store.get_block(b3.id).is_some());
    assert!(store.get_block(g.id).is_none());
    // the pruned genesis is still answered for from the FIFO
    assert!(store.block_exists(g.id));
    assert_eq!(store.pruned_blocks_in_mem(), 1);
}

#[test]
fn branching_and_prune() {
    let mut store = fresh_store();
    let g = genesis();
    let b1 = child_of(&g, 10, 1, 110);
    let c2 = child_of(&b1, 20, 2, 120);
    let d2 = child_of(&b1, 21, 2, 120);
    let e3 = child_of(&c2, 30, 3, 130);
    for b in [b1, c2, d2, e3] {
        store.insert_block_with_qc(b).expect("insert");
    }
    store.insert_single_quorum_cert(qc_certifying(&c2, zero_info())).expect("qc for c2");
    store.commit(proof_naming(&c2)).expect("commit succeeds");
    assert_eq!(store.commit_root().id(), c2.id);
    assert!(store.get_block(d2.id).is_none());
    assert!(store.block_exists(d2.id));
    assert!(store.get_block(e3.id).is_some());
    // both the log and the tree saw the prune
    let pruned: Vec<u64> = store.storage.pruned.concat();
    assert!(pruned.contains(&d2.id));
    assert!(pruned.contains(&b1.id));
    assert!(pruned.contains(&g.id));
    assert!(!pruned.contains(&e3.id));
}

#[test]
fn missing_parent_recovery() {
    let mut store = fresh_store();
    let g = genesis();
    let b1 = child_of(&g, 10, 1, 110);
    store.execute_and_insert_block(b1).expect("insert b1");
    let calls_before = store.state_computer.compute_calls;
    // the executor forgets b1 once; the store re-executes the chain from
    // the ordered root and retries
    store.state_computer.missing_parent_once = Some(b1.id);
    let b2 = child_of(&b1, 20, 2, 120);
    store.execute_and_insert_block(b2).expect("insert b2 recovers");
    assert!(store.get_block(b2.id).is_some());
    assert_eq!(store.len(), 3);
    // failed attempt + re-executed chain (b1) + retry
    assert_eq!(store.state_computer.compute_calls, calls_before + 3);
}

#[test]
fn stale_block_rejected() {
    let mut store = fresh_store();
    let g = genesis();
    let mut parent = g;
    let mut blocks = Vec::new();
    for r in 1..=5u64 {
        let b = child_of(&parent, 10 * r, r, 100 + 10 * r);
        blocks.push(b);
        parent = b;
    }
    for b in &blocks {
        store.insert_block_with_qc(*b).expect("insert");
    }
    store.commit(proof_naming(&blocks[4])).expect("commit to round 5");
    assert_eq!(store.ordered_root().round(), 5);
    let len_before = store.len();
    let stale = child_of(&blocks[4], 999, 4, 160);
    assert_eq!(store.execute_and_insert_block(stale), Err(Error::StaleBlock));
    assert_eq!(store.len(), len_before);
}

#[test]
fn timeout_monotone() {
    let mut store = fresh_store();
    let tc7 = TimeoutCertificate { round: 7, signatures: 3 };
    store.insert_timeout_certificate(tc7).expect("first tc");
    assert_eq!(store.storage.tc_saves, 1);
    let tc6 = TimeoutCertificate { round: 6, signatures: 3 };
    store.insert_timeout_certificate(tc6).expect("lower tc is a no-op");
    // no persistence call on the second insert
    assert_eq!(store.storage.tc_saves, 1);
    assert_eq!(store.highest_timeout_cert(), Some(tc7));
}

#[test]
fn rebuild_after_state_sync() {
    let mut store = fresh_store();
    let g = genesis();
    let mut parent = g;
    for r in 1..=4u64 {
        let b = child_of(&parent, 10 * r, r, 100 + 10 * r);
        store.insert_block_with_qc(b).expect("insert");
        parent = b;
    }
    let tc = TimeoutCertificate { round: 200, signatures: 3 };
    store.insert_timeout_certificate(tc).expect("tc");
    // state sync jumped to round 100
    let new_root = Block {
        id: 77,
        epoch: 1,
        round: 100,
        timestamp_usecs: 1000,
        payload: 0,
        quorum_cert: qc_certifying(&parent, zero_info()),
    };
    let data = recovery_from(new_root, Vec::new(), Vec::new());
    store
        .rebuild(data.root, data.root_metadata, data.blocks, data.quorum_certs)
        .expect("rebuild succeeds");
    assert_eq!(store.commit_root().round(), 100);
    assert_eq!(store.len(), 1);
    // the previous timeout certificate is carried over
    assert_eq!(store.highest_timeout_cert(), Some(tc));
    // the old blocks were pruned from the log
    let pruned: Vec<u64> = store.storage.pruned.concat();
    assert!(pruned.contains(&g.id));
    assert!(pruned.contains(&10));
}

#[test]
fn duplicate_block_insert_is_idempotent() {
    let mut store = fresh_store();
    let g = genesis();
    let b1 = child_of(&g, 10, 1, 110);
    let first = store.execute_and_insert_block(b1).expect("first insert");
    let saves_after_first = store.storage.saves;
    let second = store.execute_and_insert_block(b1).expect("second insert");
    assert_eq!(first, second);
    assert_eq!(store.len(), 2);
    // the duplicate is answered from memory: no second save
    assert_eq!(store.storage.saves, saves_after_first);
}

#[test]
fn duplicate_quorum_cert_is_ignored() {
    let mut store = fresh_store();
    let g = genesis();
    let b1 = child_of(&g, 10, 1, 110);
    store.execute_and_insert_block(b1).expect("insert");
    let qc = qc_certifying(&b1, zero_info());
    store.insert_single_quorum_cert(qc).expect("first qc");
    let held = store.get_quorum_cert_for_block(b1.id);
    let hqc = store.highest_quorum_cert();
    store.insert_single_quorum_cert(qc).expect("second qc is a no-op");
    assert_eq!(store.get_quorum_cert_for_block(b1.id), held);
    assert_eq!(store.highest_quorum_cert(), hqc);
}

#[test]
fn qc_without_block_is_rejected() {
    let mut store = fresh_store();
    let g = genesis();
    let unknown = child_of(&g, 404, 1, 110);
    let qc = qc_certifying(&unknown, zero_info());
    assert_eq!(store.insert_single_quorum_cert(qc), Err(Error::QcBlockMissing));
}

#[test]
fn inconsistent_qc_is_rejected() {
    let mut store = fresh_store();
    let g = genesis();
    let b1 = child_of(&g, 10, 1, 110);
    store.execute_and_insert_block(b1).expect("insert");
    let mut lying = b1;
    lying.round = 2;
    let qc = qc_certifying(&lying, zero_info());
    assert_eq!(store.insert_single_quorum_cert(qc), Err(Error::QcInconsistent));
}

#[test]
fn commit_of_unknown_block_fails() {
    let mut store = fresh_store();
    let g = genesis();
    let unknown = child_of(&g, 404, 1, 110);
    assert_eq!(store.commit(proof_naming(&unknown)), Err(Error::CommitTargetMissing));
}

#[test]
fn commit_below_ordered_root_is_stale() {
    let mut store = fresh_store();
    let g = genesis();
    assert_eq!(store.commit(proof_naming(&g)), Err(Error::CommitStale));
}

#[test]
fn failed_save_leaves_tree_untouched() {
    let mut store = fresh_store();
    let g = genesis();
    let b1 = child_of(&g, 10, 1, 110);
    store.storage.fail_saves = true;
    assert_eq!(store.execute_and_insert_block(b1), Err(Error::PersistenceError));
    assert_eq!(store.len(), 1);
    assert!(store.get_block(b1.id).is_none());
    let tc = TimeoutCertificate { round: 7, signatures: 3 };
    assert_eq!(store.insert_timeout_certificate(tc), Err(Error::PersistenceError));
    assert_eq!(store.highest_timeout_cert(), None);
}

#[test]
fn executor_failure_surfaces() {
    let mut store = fresh_store();
    let g = genesis();
    let b1 = child_of(&g, 10, 1, 110);
    store.state_computer.always_fail = true;
    assert_eq!(store.execute_and_insert_block(b1), Err(Error::ExecutorFatal));
    assert_eq!(store.len(), 1);
}

#[test]
fn inconsistent_root_is_refused() {
    let mut data = recovery_from(genesis(), Vec::new(), Vec::new());
    data.root.root_qc.certified_block.version = 5;
    data.root.root_qc.certified_block.executed_state_id = 6;
    let r: Result<Store, Error> =
        BlockStore::new(TestStorage::new(), data, TestExecutor::new(), 10, TestClock { now: 0 });
    assert_eq!(r.err(), Some(Error::RootInconsistent));
}

#[test]
fn paths_follow_parent_links() {
    let mut store = fresh_store();
    let g = genesis();
    let b1 = child_of(&g, 10, 1, 110);
    let b2 = child_of(&b1, 20, 2, 120);
    store.insert_block_with_qc(b1).expect("insert");
    store.insert_block_with_qc(b2).expect("insert");
    let path = store.path_from_ordered_root(b2.id).expect("b2 descends from the root");
    let ids: Vec<u64> = path.iter().map(|eb| eb.id()).collect();
    assert_eq!(ids, vec![b1.id, b2.id]);
    assert!(store.path_from_commit_root(999).is_none());
    assert_eq!(store.child_links(), 2);
    assert_eq!(store.highest_certified_block().id(), b1.id);
    assert_eq!(store.get_quorum_cert_for_block(b1.id), Some(b2.quorum_cert));
}

#[test]
fn recovered_commits_replay_on_startup() {
    // a recovered certificate whose vote committed b1 replays that commit
    let g = genesis();
    let b1 = child_of(&g, 10, 1, 110);
    let b2 = child_of(&b1, 20, 2, 120);
    let b3 = child_of(&b2, 30, 3, 130);
    let committing_qc = qc_certifying(&b3, ordered_info(&b1));
    let data = recovery_from(genesis(), vec![b1, b2, b3], vec![committing_qc]);
    let store: Store =
        BlockStore::new(TestStorage::new(), data, TestExecutor::new(), 10, TestClock { now: 0 })
            .expect("store builds");
    assert_eq!(store.commit_root().id(), b1.id);
    assert_eq!(store.ordered_root().id(), b1.id);
    assert!(store.get_block(b3.id).is_some());
}

#[test]
fn clock_waits_out_block_timestamps() {
    let mut store = fresh_store();
    let g = genesis();
    let b1 = child_of(&g, 10, 1, 500_000);
    store.execute_and_insert_block(b1).expect("insert");
    // stored blocks never carry a timestamp from the future
    assert!(store.time_service.now >= b1.timestamp_usecs);
}

#[test]
fn root_rounds_stay_ordered() {
    let mut store = fresh_store();
    let g = genesis();
    let b1 = child_of(&g, 10, 1, 110);
    let b2 = child_of(&b1, 20, 2, 120);
    let b3 = child_of(&b2, 30, 3, 130);
    for b in [b1, b2, b3] {
        store.insert_block_with_qc(b).expect("insert");
        assert!(store.commit_root().round() <= store.ordered_root().round());
        assert!(store.ordered_root().round() <= store.highest_certified_block().round());
    }
    store.commit(proof_naming(&b2)).expect("commit");
    assert!(store.commit_root().round() <= store.ordered_root().round());
    assert!(store.ordered_root().round() <= store.highest_certified_block().round());
}

#[test]
fn timestamps_grow_along_paths() {
    let mut store = fresh_store();
    let g = genesis();
    let b1 = child_of(&g, 10, 1, 110);
    let b2 = child_of(&b1, 20, 2, 125);
    let b3 = child_of(&b2, 30, 3, 130);
    for b in [b1, b2, b3] {
        store.insert_block_with_qc(b).expect("insert");
    }
    let path = store.path_from_commit_root(b3.id).expect("descends from root");
    let mut last = store.commit_root().timestamp_usecs();
    for eb in &path {
        assert!(last <= eb.timestamp_usecs());
        last = eb.timestamp_usecs();
    }
}

#[test]
fn live_and_remembered_blocks_stay_within_budget() {
    let mut store = fresh_store();
    let g = genesis();
    let b1 = child_of(&g, 10, 1, 110);
    let c2 = child_of(&b1, 20, 2, 120);
    let d2 = child_of(&b1, 21, 2, 120);
    let mut inserts = 1usize; // the root
    for b in [b1, c2, d2] {
        store.insert_block_with_qc(b).expect("insert");
        inserts += 1;
        assert!(store.len() + store.pruned_blocks_in_mem() <= inserts);
    }
    store.insert_single_quorum_cert(qc_certifying(&c2, zero_info())).expect("qc");
    store.commit(proof_naming(&c2)).expect("commit");
    assert!(store.len() + store.pruned_blocks_in_mem() <= inserts);
}

#[test]
fn pruned_fifo_is_bounded() {
    // a FIFO bound of one keeps only the most recently pruned id
    let g = genesis();
    let data = recovery_from(g, Vec::new(), Vec::new());
    let mut store: Store =
        BlockStore::new(TestStorage::new(), data, TestExecutor::new(), 1, TestClock { now: 0 })
            .expect("store builds");
    let b1 = child_of(&g, 10, 1, 110);
    let b2 = child_of(&b1, 20, 2, 120);
    let b3 = child_of(&b2, 30, 3, 130);
    for b in [b1, b2, b3] {
        store.insert_block_with_qc(b).expect("insert");
    }
    store.commit(proof_naming(&b2)).expect("commit");
    // genesis and b1 left the tree, but only one id fits the FIFO;
    // children are pruned first, so the id kept longest is the parent's
    assert_eq!(store.pruned_blocks_in_mem(), 1);
    assert!(store.block_exists(g.id));
    assert!(!store.block_exists(b1.id));
}

#[test]
fn executed_state_mismatch_is_rejected() {
    let mut store = fresh_store();
    let g = genesis();
    let b1 = child_of(&g, 10, 1, 110);
    store.execute_and_insert_block(b1).expect("insert");
    // the executor reported root hash 310 and version 1 for b1
    let mut full = ordered_info(&b1);
    full.executed_state_id = b1.id.wrapping_mul(31);
    full.version = 1;
    let honest = QuorumCert {
        certified_block: full,
        ledger_info: LedgerInfoWithSignatures {
            ledger_info: LedgerInfo { commit_info: zero_info(), consensus_data_hash: 9 },
            signatures: 3,
        },
    };
    store.insert_single_quorum_cert(honest).expect("matching executed state is accepted");
    let mut lying = full;
    lying.executed_state_id = 12345;
    let forged = QuorumCert {
        certified_block: lying,
        ledger_info: honest.ledger_info,
    };
    assert_eq!(store.insert_single_quorum_cert(forged), Err(Error::QcInconsistent));
}

#[test]
fn prune_lists_children_before_parents() {
    let mut store = fresh_store();
    let g = genesis();
    let b1 = child_of(&g, 10, 1, 110);
    let c2 = child_of(&b1, 20, 2, 120);
    let d2 = child_of(&b1, 21, 2, 120);
    let e3 = child_of(&c2, 30, 3, 130);
    for b in [b1, c2, d2, e3] {
        store.insert_block_with_qc(b).expect("insert");
    }
    // everything off c2's subtree leaves, each id before its ancestors,
    // so an interrupted deletion never leaves a parentless survivor
    let doomed = store.inner.find_blocks_to_prune(c2.id);
    assert_eq!(doomed, vec![d2.id, b1.id, g.id]);
    let removed = store.prune_tree(c2.id);
    assert_eq!(removed, doomed);
    assert_eq!(store.commit_root().id(), c2.id);
    assert_eq!(store.ordered_root().id(), c2.id);
    assert_eq!(store.len(), 2);
}

#[test]
fn commit_off_the_ordered_branch_is_refused() {
    let mut store = fresh_store();
    let g = genesis();
    let b1 = child_of(&g, 10, 1, 110);
    let c2 = child_of(&b1, 20, 2, 120);
    let d2 = child_of(&b1, 21, 2, 120);
    for b in [b1, c2, d2] {
        store.insert_block_with_qc(b).expect("insert");
    }
    // the executor dies while committing c2: ordering is already final,
    // but the commit root stays behind and the branches survive
    store.state_computer.fail_commit_once = true;
    assert_eq!(store.commit(proof_naming(&c2)), Err(Error::ExecutorFatal));
    assert_eq!(store.ordered_root().id(), c2.id);
    assert_eq!(store.commit_root().id(), g.id);
    assert!(store.get_block(d2.id).is_some());
    // a finality proof for a block off the ordered branch is refused
    let d3 = child_of(&d2, 31, 3, 130);
    store.insert_block_with_qc(d3).expect("insert");
    assert_eq!(store.commit(proof_naming(&d3)), Err(Error::CommitTargetDisconnected));
    // replaying the interrupted commit still works
    store.commit(proof_naming(&c2)).expect_err("stale now: ordering already advanced");
}
