//! The in-memory block tree: executed blocks linked by parent pointers,
//! the certificate index, the ordered and commit roots, the highest
//! certificates seen so far, and the FIFO of recently pruned ids.
//!
//! The tree performs no I/O; every operation states its effect exactly
//! over the maps `blocks()` and `qcs()` and the scalar roots.

use vstd::prelude::*;
use std::collections::HashMap;
use crate::types::{
    BlockInfo, Error, ExecutedBlock, LedgerInfoWithSignatures, QuorumCert, TimeoutCertificate,
};

verus! {

broadcast use vstd::std_specs::hash::group_hash_axioms;

/// The block tree. All fields are public so that callers can state and
/// prove properties over the model; mutation goes through the methods,
/// each of which preserves `wf()`.
pub struct BlockTree {
    /// Executed blocks keyed by block id.
    pub id_to_block: HashMap<u64, ExecutedBlock>,
    /// The keys of `id_to_block`, kept for iteration.
    pub block_ids: Vec<u64>,
    /// Quorum certificates keyed by the id of the block they certify.
    pub id_to_quorum_cert: HashMap<u64, QuorumCert>,
    /// Root of the whole tree: the latest durably committed block.
    pub commit_root_id: u64,
    /// The latest block whose ordering is final; descendant of the commit root.
    pub ordered_root_id: u64,
    /// Block with the greatest certified round observed so far.
    pub highest_certified_block_id: u64,
    /// Certificate of the greatest certified round observed so far.
    pub highest_quorum_cert: QuorumCert,
    /// Certificate whose commit info has the greatest round observed so far.
    pub highest_ordered_cert: QuorumCert,
    /// The most recent finality proof.
    pub highest_ledger_info: LedgerInfoWithSignatures,
    /// Timeout certificate of the greatest round observed, if any.
    pub highest_timeout_cert: Option<TimeoutCertificate>,
    /// Recently pruned block ids, oldest first.
    pub pruned_block_ids: Vec<u64>,
    /// Bound on `pruned_block_ids`.
    pub max_pruned_blocks_in_mem: usize,
    /// Number of blocks ever placed in the tree, the root included.
    pub inserts: Ghost<nat>,
}

impl BlockTree {
    /// The map of live blocks.
    pub open spec fn blocks(&self) -> Map<u64, ExecutedBlock> {
        self.id_to_block@
    }

    /// The map of live certificates, keyed by certified block id.
    pub open spec fn qcs(&self) -> Map<u64, QuorumCert> {
        self.id_to_quorum_cert@
    }

    pub open spec fn has_block(&self, id: u64) -> bool {
        self.blocks().contains_key(id)
    }

    pub open spec fn block_of(&self, id: u64) -> ExecutedBlock {
        self.blocks()[id]
    }

    pub open spec fn parent_of(&self, id: u64) -> u64 {
        self.block_of(id).block.quorum_cert.certified_block.id
    }

    pub open spec fn round_of(&self, id: u64) -> u64 {
        self.block_of(id).block.round
    }

    pub open spec fn timestamp_of(&self, id: u64) -> u64 {
        self.block_of(id).block.timestamp_usecs
    }

    /// Walking parent links from `b` meets `a` within `fuel` steps, without
    /// stepping past the commit root.
    pub open spec fn reaches(&self, a: u64, b: u64, fuel: nat) -> bool
        decreases fuel,
    {
        b == a || (fuel > 0 && b != self.commit_root_id && self.has_block(b) && self.reaches(
            a,
            self.parent_of(b),
            (fuel - 1) as nat,
        ))
    }

    /// `a` lies on the parent chain from `b` to the commit root (or is `b`).
    pub open spec fn is_ancestor_or_equal(&self, a: u64, b: u64) -> bool {
        exists|fuel: nat| self.reaches(a, b, fuel)
    }

    /// Every block's parent carries a timestamp no later than the block's own.
    pub open spec fn edge_timestamps_monotone(&self) -> bool {
        forall|id: u64|
            #[trigger] self.has_block(id) && id != self.commit_root_id
                ==> self.timestamp_of(self.parent_of(id)) <= self.timestamp_of(id)
    }

    /// Structural well-formedness; established by `new` and preserved by
    /// every mutating operation.
    pub open spec fn wf(&self) -> bool {
        &&& self.has_block(self.commit_root_id)
        &&& self.has_block(self.ordered_root_id)
        &&& self.has_block(self.highest_certified_block_id)
        &&& forall|id: u64| #[trigger] self.has_block(id) ==> self.block_of(id).block.id == id
        &&& forall|id: u64|
            #[trigger] self.has_block(id) && id != self.commit_root_id ==> self.has_block(
                self.parent_of(id),
            ) && self.round_of(self.parent_of(id)) < self.round_of(id)
        &&& self.block_ids@.no_duplicates()
        &&& forall|i: int|
            0 <= i < self.block_ids@.len() ==> self.has_block(#[trigger] self.block_ids@[i])
        &&& forall|id: u64| #[trigger] self.has_block(id) ==> self.block_ids@.contains(id)
        &&& forall|i: int|
            0 <= i < self.block_ids@.len() ==> #[trigger] self.block_ids@[i]
                == self.commit_root_id || exists|j: int|
                0 <= j < i && self.block_ids@[j] == self.parent_of(self.block_ids@[i])
        &&& forall|cid: u64|
            #[trigger] self.qcs().contains_key(cid) ==> self.qcs()[cid].certified_block.id == cid
                && self.has_block(cid) && self.block_of(cid).spec_block_info().spec_match_ordered_only(
                &self.qcs()[cid].certified_block,
            )
        &&& self.pruned_block_ids@.len() <= self.max_pruned_blocks_in_mem
        &&& self.blocks().len() + self.pruned_block_ids@.len() <= self.inserts@
    }

    /// A larger fuel reaches everything a smaller one does.
    pub proof fn lemma_reaches_mono(&self, a: u64, b: u64, f1: nat, f2: nat)
        requires
            self.reaches(a, b, f1),
            f1 <= f2,
        ensures
            self.reaches(a, b, f2),
        decreases f1,
    {
        if b != a {
            self.lemma_reaches_mono(a, self.parent_of(b), (f1 - 1) as nat, (f2 - 1) as nat);
        }
    }

    /// Along a chain the lower end is a live block and carries the smaller
    /// round; rounds are strictly smaller on proper ancestors.
    pub proof fn lemma_reaches_props(&self, a: u64, b: u64, fuel: nat)
        requires
            self.wf(),
            self.has_block(b),
            self.reaches(a, b, fuel),
        ensures
            self.has_block(a),
            self.round_of(a) <= self.round_of(b),
            a != b ==> self.round_of(a) < self.round_of(b),
        decreases fuel,
    {
        if b != a {
            let p = self.parent_of(b);
            assert(self.has_block(p) && self.round_of(p) < self.round_of(b));
            self.lemma_reaches_props(a, p, (fuel - 1) as nat);
        }
    }

    /// Chains compose: reaching `b` from `c` and `a` from `b` reaches `a`
    /// from `c`.
    pub proof fn lemma_reaches_trans(&self, a: u64, b: u64, c: u64, f1: nat, f2: nat)
        requires
            self.reaches(b, c, f1),
            self.reaches(a, b, f2),
        ensures
            self.reaches(a, c, f1 + f2),
        decreases f1,
    {
        if c == b {
            self.lemma_reaches_mono(a, b, f2, f1 + f2);
        } else {
            self.lemma_reaches_trans(a, b, self.parent_of(c), (f1 - 1) as nat, f2);
        }
    }

    /// Every live block descends from the commit root: the tree is a
    /// connected subtree anchored at `commit_root_id`.
    pub proof fn lemma_all_reach_commit_root(&self, b: u64)
        requires
            self.wf(),
            self.has_block(b),
        ensures
            self.is_ancestor_or_equal(self.commit_root_id, b),
        decreases self.round_of(b),
    {
        let root = self.commit_root_id;
        if b == root {
            assert(self.reaches(root, b, 0));
        } else {
            let p = self.parent_of(b);
            assert(self.has_block(p) && self.round_of(p) < self.round_of(b));
            self.lemma_all_reach_commit_root(p);
            let f = choose|f: nat| self.reaches(root, p, f);
            assert(self.reaches(root, b, f + 1));
        }
    }

    /// Two ancestors of one block are themselves on one chain.
    pub proof fn lemma_ancestors_comparable(&self, a: u64, b: u64, c: u64)
        requires
            self.wf(),
            self.has_block(c),
            self.is_ancestor_or_equal(a, c),
            self.is_ancestor_or_equal(b, c),
        ensures
            self.is_ancestor_or_equal(a, b) || self.is_ancestor_or_equal(b, a),
    {
        let f1 = choose|f: nat| self.reaches(a, c, f);
        let f2 = choose|f: nat| self.reaches(b, c, f);
        self.lemma_comparable_fueled(a, b, c, f1, f2);
    }

    proof fn lemma_comparable_fueled(&self, a: u64, b: u64, c: u64, f1: nat, f2: nat)
        requires
            self.wf(),
            self.has_block(c),
            self.reaches(a, c, f1),
            self.reaches(b, c, f2),
        ensures
            self.is_ancestor_or_equal(a, b) || self.is_ancestor_or_equal(b, a),
        decreases f1 + f2,
    {
        if c == a {
            assert(self.reaches(b, a, f2));
        } else if c == b {
            assert(self.reaches(a, b, f1));
        } else {
            let p = self.parent_of(c);
            assert(self.has_block(p));
            self.lemma_comparable_fueled(a, b, p, (f1 - 1) as nat, (f2 - 1) as nat);
        }
    }

    /// Along a chain with monotone edges, timestamps are monotone.
    pub proof fn lemma_reaches_timestamps(&self, a: u64, b: u64, fuel: nat)
        requires
            self.wf(),
            self.edge_timestamps_monotone(),
            self.has_block(b),
            self.reaches(a, b, fuel),
        ensures
            self.timestamp_of(a) <= self.timestamp_of(b),
        decreases fuel,
    {
        if b != a {
            let p = self.parent_of(b);
            assert(self.timestamp_of(p) <= self.timestamp_of(b));
            self.lemma_reaches_timestamps(a, p, (fuel - 1) as nat);
        }
    }

    /// Create a tree holding only the given root block, certified by
    /// `root_qc` and anchored by the given highest certificates.
    pub fn new(
        root: ExecutedBlock,
        root_qc: QuorumCert,
        root_ordered_cert: QuorumCert,
        root_commit_li: LedgerInfoWithSignatures,
        max_pruned_blocks_in_mem: usize,
        highest_timeout_cert: Option<TimeoutCertificate>,
    ) -> (t: BlockTree)
        requires
            root_qc.certified_block.id == root.spec_id(),
            root.spec_block_info().spec_match_ordered_only(&root_qc.certified_block),
        ensures
            t.wf(),
            t.blocks() == Map::<u64, ExecutedBlock>::empty().insert(root.spec_id(), root),
            t.qcs() == Map::<u64, QuorumCert>::empty().insert(root.spec_id(), root_qc),
            t.commit_root_id == root.spec_id(),
            t.ordered_root_id == root.spec_id(),
            t.highest_certified_block_id == root.spec_id(),
            t.highest_quorum_cert == root_qc,
            t.highest_ordered_cert == root_ordered_cert,
            t.highest_ledger_info == root_commit_li,
            t.highest_timeout_cert == highest_timeout_cert,
            t.pruned_block_ids@ == Seq::<u64>::empty(),
            t.max_pruned_blocks_in_mem == max_pruned_blocks_in_mem,
            t.inserts@ == 1nat,
    {
        let root_id = root.id();
        let mut id_to_block: HashMap<u64, ExecutedBlock> = HashMap::new();
        id_to_block.insert(root_id, root);
        let mut id_to_quorum_cert: HashMap<u64, QuorumCert> = HashMap::new();
        id_to_quorum_cert.insert(root_id, root_qc);
        let mut block_ids: Vec<u64> = Vec::new();
        block_ids.push(root_id);
        let t = BlockTree {
            id_to_block,
            block_ids,
            id_to_quorum_cert,
            commit_root_id: root_id,
            ordered_root_id: root_id,
            highest_certified_block_id: root_id,
            highest_quorum_cert: root_qc,
            highest_ordered_cert: root_ordered_cert,
            highest_ledger_info: root_commit_li,
            highest_timeout_cert,
            pruned_block_ids: Vec::new(),
            max_pruned_blocks_in_mem,
            inserts: Ghost(1nat),
        };
        proof {
            assert(t.blocks() =~= Map::<u64, ExecutedBlock>::empty().insert(root.spec_id(), root));
            assert(t.qcs() =~= Map::<u64, QuorumCert>::empty().insert(root.spec_id(), root_qc));
            assert(t.pruned_block_ids@ =~= Seq::<u64>::empty());
            assert(t.blocks().len() == 1) by {
                assert(t.blocks().dom() =~= Set::<u64>::empty().insert(root.spec_id()));
            }
            assert(t.block_ids@[0] == root_id);
            assert forall|id: u64| #[trigger] t.has_block(id) implies t.block_ids@.contains(id) by {
                assert(t.block_ids@[0] == id);
            }
            assert(t.block_of(root_id) == root);
        }
        t
    }

    /// Whether `block_id` is a live block or one pruned recently enough to
    /// still sit in the FIFO.
    pub fn block_exists(&self, block_id: u64) -> (r: bool)
        ensures
            r == (self.has_block(block_id) || self.pruned_block_ids@.contains(block_id)),
    {
        if self.id_to_block.contains_key(&block_id) {
            return true;
        }
        let n = self.pruned_block_ids.len();
        let mut i: usize = 0;
        while i < n
            invariant
                n == self.pruned_block_ids@.len(),
                0 <= i <= n,
                forall|j: int| 0 <= j < i ==> self.pruned_block_ids@[j] != block_id,
                !self.has_block(block_id),
            decreases n - i,
        {
            if self.pruned_block_ids[i] == block_id {
                return true;
            }
            i = i + 1;
        }
        false
    }

    /// The live block of this id, if any.
    pub fn get_block(&self, block_id: u64) -> (r: Option<ExecutedBlock>)
        ensures
            r == if self.has_block(block_id) {
                Some(self.block_of(block_id))
            } else {
                Option::<ExecutedBlock>::None
            },
    {
        match self.id_to_block.get(&block_id) {
            Some(b) => Some(*b),
            None => None,
        }
    }

    /// The certificate certifying `block_id`, if the tree holds one.
    pub fn get_quorum_cert_for_block(&self, block_id: u64) -> (r: Option<QuorumCert>)
        ensures
            r == if self.qcs().contains_key(block_id) {
                Some(self.qcs()[block_id])
            } else {
                Option::<QuorumCert>::None
            },
    {
        match self.id_to_quorum_cert.get(&block_id) {
            Some(qc) => Some(*qc),
            None => None,
        }
    }

    /// The latest block whose ordering is final.
    pub fn ordered_root(&self) -> (r: ExecutedBlock)
        requires
            self.wf(),
        ensures
            r == self.block_of(self.ordered_root_id),
    {
        let r = self.get_block(self.ordered_root_id);
        r.unwrap()
    }

    /// The latest durably committed block; the tree's anchor.
    pub fn commit_root(&self) -> (r: ExecutedBlock)
        requires
            self.wf(),
        ensures
            r == self.block_of(self.commit_root_id),
    {
        let r = self.get_block(self.commit_root_id);
        r.unwrap()
    }

    /// The block with the greatest certified round observed so far.
    pub fn highest_certified_block(&self) -> (r: ExecutedBlock)
        requires
            self.wf(),
        ensures
            r == self.block_of(self.highest_certified_block_id),
    {
        let r = self.get_block(self.highest_certified_block_id);
        r.unwrap()
    }

    pub fn highest_quorum_cert(&self) -> (r: QuorumCert)
        ensures
            r == self.highest_quorum_cert,
    {
        self.highest_quorum_cert
    }

    pub fn highest_ordered_cert(&self) -> (r: QuorumCert)
        ensures
            r == self.highest_ordered_cert,
    {
        self.highest_ordered_cert
    }

    pub fn highest_ledger_info(&self) -> (r: LedgerInfoWithSignatures)
        ensures
            r == self.highest_ledger_info,
    {
        self.highest_ledger_info
    }

    pub fn highest_timeout_cert(&self) -> (r: Option<TimeoutCertificate>)
        ensures
            r == self.highest_timeout_cert,
    {
        self.highest_timeout_cert
    }

    /// Number of live blocks.
    pub fn len(&self) -> (r: usize)
        ensures
            r == self.blocks().len(),
    {
        self.id_to_block.len()
    }

    /// Number of parent links among live blocks: every block except the
    /// commit root holds one.
    pub fn child_links(&self) -> (r: usize)
        requires
            self.wf(),
        ensures
            r == self.blocks().len() - 1,
    {
        proof {
            self.lemma_len_matches_ids();
        }
        self.block_ids.len() - 1
    }

    /// Number of pruned ids still held in memory.
    pub fn pruned_blocks_in_mem(&self) -> (r: usize)
        ensures
            r == self.pruned_block_ids@.len(),
    {
        self.pruned_block_ids.len()
    }

    /// The FIFO bound this tree was created with.
    pub fn max_pruned_blocks_in_mem(&self) -> (r: usize)
        ensures
            r == self.max_pruned_blocks_in_mem,
    {
        self.max_pruned_blocks_in_mem
    }

    /// `block_ids` indexes exactly the live blocks.
    pub proof fn lemma_len_matches_ids(&self)
        requires
            self.wf(),
        ensures
            self.block_ids@.len() == self.blocks().len(),
    {
        assert forall|x: u64| self.block_ids@.to_set().contains(x) implies self.blocks().dom().contains(
            x,
        ) by {
            let i = choose|i: int| 0 <= i < self.block_ids@.len() && self.block_ids@[i] == x;
            assert(self.has_block(self.block_ids@[i]));
        }
        assert forall|x: u64| self.blocks().dom().contains(x) implies self.block_ids@.to_set().contains(
            x,
        ) by {
            assert(self.has_block(x));
            assert(self.block_ids@.contains(x));
        }
        assert(self.block_ids@.to_set() =~= self.blocks().dom());
        self.block_ids@.unique_seq_to_set();
    }

    /// The block-side well-formedness clauses carry over to a tree with the
    /// same blocks, ids and commit root, whatever its other fields.
    pub proof fn lemma_wf_blocks_unchanged(o: &BlockTree, t: &BlockTree)
        requires
            o.wf(),
            t.id_to_block == o.id_to_block,
            t.block_ids == o.block_ids,
            t.commit_root_id == o.commit_root_id,
        ensures
            t.has_block(t.commit_root_id),
            forall|id: u64| #[trigger] t.has_block(id) ==> t.block_of(id).block.id == id,
            forall|id: u64|
                #[trigger] t.has_block(id) && id != t.commit_root_id ==> t.has_block(
                    t.parent_of(id),
                ) && t.round_of(t.parent_of(id)) < t.round_of(id),
            t.block_ids@.no_duplicates(),
            forall|i: int|
                0 <= i < t.block_ids@.len() ==> t.has_block(#[trigger] t.block_ids@[i]),
            forall|id: u64| #[trigger] t.has_block(id) ==> t.block_ids@.contains(id),
            forall|i: int|
                0 <= i < t.block_ids@.len() ==> #[trigger] t.block_ids@[i] == t.commit_root_id
                    || exists|j: int|
                    0 <= j < i && t.block_ids@[j] == t.parent_of(t.block_ids@[i]),
    {
        assert forall|id: u64|
            #[trigger] t.has_block(id) && id != t.commit_root_id implies t.has_block(
            t.parent_of(id),
        ) && t.round_of(t.parent_of(id)) < t.round_of(id) by {
            assert(o.has_block(id));
        }
        assert forall|id: u64| #[trigger] t.has_block(id) implies t.block_of(id).block.id == id
            && t.block_ids@.contains(id) by {
            assert(o.has_block(id));
        }
        assert forall|i: int|
            0 <= i < t.block_ids@.len() implies t.has_block(#[trigger] t.block_ids@[i]) by {
            assert(o.has_block(o.block_ids@[i]));
        }
        assert forall|i: int|
            0 <= i < t.block_ids@.len() && t.block_ids@[i] != t.commit_root_id implies exists|
            j: int,
        |
            0 <= j < i && t.block_ids@[j] == t.parent_of(t.block_ids@[i]) by {
            let j = choose|j: int| 0 <= j < i && o.block_ids@[j] == o.parent_of(o.block_ids@[i]);
            assert(t.block_ids@[j] == t.parent_of(t.block_ids@[i]));
        }
    }

    /// Full well-formedness carries over when only the scalar trackers
    /// outside the maps changed, provided the new roots are live blocks.
    pub proof fn lemma_wf_same_maps(o: &BlockTree, t: &BlockTree)
        requires
            o.wf(),
            t.id_to_block == o.id_to_block,
            t.block_ids == o.block_ids,
            t.id_to_quorum_cert == o.id_to_quorum_cert,
            t.commit_root_id == o.commit_root_id,
            o.has_block(t.ordered_root_id),
            o.has_block(t.highest_certified_block_id),
            t.pruned_block_ids == o.pruned_block_ids,
            t.max_pruned_blocks_in_mem == o.max_pruned_blocks_in_mem,
            t.inserts@ == o.inserts@,
        ensures
            t.wf(),
    {
        BlockTree::lemma_wf_blocks_unchanged(o, t);
        assert forall|cid: u64| #[trigger] t.qcs().contains_key(cid) implies t.qcs()[cid].certified_block.id
            == cid && t.has_block(cid) && t.block_of(cid).spec_block_info().spec_match_ordered_only(
            &t.qcs()[cid].certified_block,
        ) by {
            assert(o.qcs().contains_key(cid));
        }
    }

    /// In `block_ids` every proper ancestor stands before its descendant.
    pub proof fn lemma_ancestor_appears_earlier(&self, a: u64, b: u64, fuel: nat)
        requires
            self.wf(),
            self.has_block(b),
            self.reaches(a, b, fuel),
            a != b,
        ensures
            0 <= self.block_ids@.index_of(a) < self.block_ids@.index_of(b) < self.block_ids@.len(),
        decreases fuel,
    {
        let ids = self.block_ids@;
        assert(ids.contains(b));
        let ib = ids.index_of(b);
        let p = self.parent_of(b);
        assert(self.has_block(p));
        assert(b != self.commit_root_id);
        assert(ids[ib] == b);
        assert(exists|j: int| 0 <= j < ib && ids[j] == self.parent_of(ids[ib]));
        let j = choose|j: int| 0 <= j < ib && ids[j] == p;
        assert(ids.contains(p));
        let ip = ids.index_of(p);
        assert(ip == j) by {
            assert(ids[ip] == p && ids[j] == p);
        }
        if a == p {
        } else {
            self.lemma_ancestor_appears_earlier(a, p, (fuel - 1) as nat);
        }
    }

    /// Whether `b` lies in the subtree under `a` (walks parent links).
    pub fn is_descendant_of(&self, a: u64, b: u64) -> (r: bool)
        requires
            self.wf(),
            self.has_block(b),
        ensures
            r == self.is_ancestor_or_equal(a, b),
    {
        let mut cur: u64 = b;
        loop
            invariant
                self.wf(),
                self.has_block(cur),
                self.is_ancestor_or_equal(a, b) == self.is_ancestor_or_equal(a, cur),
            decreases self.round_of(cur),
        {
            if cur == a {
                proof {
                    assert(self.reaches(a, cur, 0));
                }
                return true;
            }
            if cur == self.commit_root_id {
                proof {
                    assert forall|f: nat| !#[trigger] self.reaches(a, cur, f) by {}
                }
                return false;
            }
            let cur_block = self.get_block(cur).unwrap();
            let next = cur_block.parent_id();
            proof {
                assert(next == self.parent_of(cur));
                if self.is_ancestor_or_equal(a, cur) {
                    let f = choose|f: nat| self.reaches(a, cur, f);
                    assert(self.reaches(a, next, (f - 1) as nat));
                }
                if self.is_ancestor_or_equal(a, next) {
                    let f = choose|f: nat| self.reaches(a, next, f);
                    assert(self.reaches(a, cur, f + 1));
                }
            }
            cur = next;
        }
    }

    /// Insert an executed block whose parent is live.
    ///
    /// Re-inserting a known id returns the stored block unchanged; a block
    /// whose parent is absent or whose round is not above its parent's is
    /// rejected. On success the block's embedded certificate may advance
    /// `highest_certified_block_id` when it certifies a round above the
    /// highest certified so far; the rounds compared are those of the
    /// certified blocks as stored locally.
    pub fn insert_block(&mut self, block: ExecutedBlock) -> (r: Result<ExecutedBlock, Error>)
        requires
            old(self).wf(),
        ensures
            final(self).wf(),
            old(self).has_block(block.spec_id()) ==> r == Ok::<ExecutedBlock, Error>(
                old(self).block_of(block.spec_id()),
            ) && *final(self) == *old(self),
            !old(self).has_block(block.spec_id()) && !old(self).has_block(block.spec_parent_id())
                ==> r == Err::<ExecutedBlock, Error>(Error::MissingParent) && *final(self) == *old(
                self,
            ),
            !old(self).has_block(block.spec_id()) && old(self).has_block(block.spec_parent_id())
                && block.spec_round() <= old(self).round_of(block.spec_parent_id()) ==> r
                == Err::<ExecutedBlock, Error>(Error::InvalidRound) && *final(self) == *old(self),
            ({
                let id = block.spec_id();
                let pid = block.spec_parent_id();
                !old(self).has_block(id) && old(self).has_block(pid) && block.spec_round() > old(
                    self,
                ).round_of(pid) ==> {
                    let bumped = old(self).round_of(pid) > old(self).round_of(
                        old(self).highest_certified_block_id,
                    );
                    &&& r == Ok::<ExecutedBlock, Error>(block)
                    &&& final(self).blocks() == old(self).blocks().insert(id, block)
                    &&& final(self).block_ids@ == old(self).block_ids@.push(id)
                    &&& final(self).qcs() == old(self).qcs()
                    &&& final(self).commit_root_id == old(self).commit_root_id
                    &&& final(self).ordered_root_id == old(self).ordered_root_id
                    &&& final(self).highest_certified_block_id == if bumped {
                        pid
                    } else {
                        old(self).highest_certified_block_id
                    }
                    &&& final(self).highest_quorum_cert == if bumped {
                        block.block.quorum_cert
                    } else {
                        old(self).highest_quorum_cert
                    }
                    &&& final(self).highest_ordered_cert == old(self).highest_ordered_cert
                    &&& final(self).highest_ledger_info == old(self).highest_ledger_info
                    &&& final(self).highest_timeout_cert == old(self).highest_timeout_cert
                    &&& final(self).pruned_block_ids@ == old(self).pruned_block_ids@
                    &&& final(self).max_pruned_blocks_in_mem == old(self).max_pruned_blocks_in_mem
                    &&& final(self).inserts@ == old(self).inserts@ + 1
                }
            }),
            old(self).edge_timestamps_monotone() && (!old(self).has_block(block.spec_id()) && old(
                self,
            ).has_block(block.spec_parent_id()) ==> old(self).timestamp_of(block.spec_parent_id())
                <= block.spec_timestamp_usecs()) ==> final(self).edge_timestamps_monotone(),
    {
        let id = block.id();
        if let Some(existing) = self.get_block(id) {
            return Ok(existing);
        }
        let parent_id = block.parent_id();
        let parent = match self.get_block(parent_id) {
            Some(p) => p,
            None => {
                return Err(Error::MissingParent);
            },
        };
        if block.round() <= parent.round() {
            return Err(Error::InvalidRound);
        }
        let hcb_round = self.highest_certified_block().round();
        self.id_to_block.insert(id, block);
        self.block_ids.push(id);
        proof {
            self.inserts@ = old(self).inserts@ + 1;
        }
        if parent.round() > hcb_round {
            self.highest_certified_block_id = parent_id;
            self.highest_quorum_cert = block.block.quorum_cert;
        }
        proof {
            let o = *old(self);
            let t = *self;
            assert(t.blocks() == o.blocks().insert(id, block));
            assert(t.blocks().len() == o.blocks().len() + 1) by {
                assert(t.blocks().dom() =~= o.blocks().dom().insert(id));
            }
            assert forall|x: u64| #[trigger] t.has_block(x) implies t.block_ids@.contains(x) by {
                if x == id {
                    assert(t.block_ids@[t.block_ids@.len() - 1] == id);
                } else {
                    assert(o.has_block(x));
                    let i = choose|i: int| 0 <= i < o.block_ids@.len() && o.block_ids@[i] == x;
                    assert(t.block_ids@[i] == x);
                }
            }
            assert(t.block_ids@.no_duplicates()) by {
                assert(forall|i: int|
                    0 <= i < o.block_ids@.len() ==> o.has_block(#[trigger] o.block_ids@[i]));
            }
            assert forall|i: int|
                0 <= i < t.block_ids@.len() implies #[trigger] t.block_ids@[i] == t.commit_root_id
                || exists|j: int|
                0 <= j < i && t.block_ids@[j] == t.parent_of(t.block_ids@[i]) by {
                if i < o.block_ids@.len() {
                    assert(o.block_ids@[i] == t.block_ids@[i]);
                    if o.block_ids@[i] != o.commit_root_id {
                        let j = choose|j: int|
                            0 <= j < i && o.block_ids@[j] == o.parent_of(o.block_ids@[i]);
                        assert(o.has_block(o.block_ids@[i]) && o.block_ids@[i] != id);
                        assert(t.parent_of(t.block_ids@[i]) == o.parent_of(o.block_ids@[i]));
                        assert(t.block_ids@[j] == t.parent_of(t.block_ids@[i]));
                    }
                } else {
                    assert(t.block_ids@[i] == id);
                    let j = choose|j: int|
                        0 <= j < o.block_ids@.len() && o.block_ids@[j] == parent_id;
                    assert(t.block_ids@[j] == t.parent_of(id));
                }
            }
            assert forall|cid: u64| #[trigger] t.qcs().contains_key(cid) implies t.qcs()[cid].certified_block.id
                == cid && t.has_block(cid) && t.block_of(cid).spec_block_info().spec_match_ordered_only(
                &t.qcs()[cid].certified_block,
            ) by {
                assert(o.qcs().contains_key(cid));
                assert(o.has_block(cid));
                assert(cid != id);
                assert(t.block_of(cid) == o.block_of(cid));
            }
            assert(t.wf());
            if o.edge_timestamps_monotone() && o.timestamp_of(parent_id)
                <= block.spec_timestamp_usecs() {
                assert forall|x: u64|
                    #[trigger] t.has_block(x) && x != t.commit_root_id implies t.timestamp_of(
                    t.parent_of(x),
                ) <= t.timestamp_of(x) by {
                    if x != id {
                        assert(o.has_block(x));
                        assert(o.timestamp_of(o.parent_of(x)) <= o.timestamp_of(x));
                        assert(o.parent_of(x) != id);
                    }
                }
            }
        }
        Ok(block)
    }

    /// Validate a certificate against the locally executed block it
    /// certifies and index it.
    ///
    /// A certificate for a block already certified is ignored without
    /// error; whatever the path, the highest-certificate trackers advance
    /// under strict round comparisons (ties keep the existing entry).
    pub fn insert_quorum_cert(&mut self, qc: QuorumCert) -> (r: Result<(), Error>)
        requires
            old(self).wf(),
        ensures
            final(self).wf(),
            !old(self).has_block(qc.certified_block.id) ==> r == Err::<(), Error>(
                Error::QcBlockMissing,
            ) && *final(self) == *old(self),
            old(self).has_block(qc.certified_block.id) && !old(self).block_of(
                qc.certified_block.id,
            ).spec_block_info().spec_consistent_with_certified(&qc.certified_block) ==> r == Err::<
                (),
                Error,
            >(Error::QcInconsistent) && *final(self) == *old(self),
            ({
                let cid = qc.certified_block.id;
                old(self).has_block(cid) && old(self).block_of(
                    cid,
                ).spec_block_info().spec_consistent_with_certified(&qc.certified_block) ==> {
                    let bumped = old(self).round_of(cid) > old(self).round_of(
                        old(self).highest_certified_block_id,
                    );
                    &&& r == Ok::<(), Error>(())
                    &&& final(self).blocks() == old(self).blocks()
                    &&& final(self).block_ids@ == old(self).block_ids@
                    &&& final(self).qcs() == if old(self).qcs().contains_key(cid) {
                        old(self).qcs()
                    } else {
                        old(self).qcs().insert(cid, qc)
                    }
                    &&& final(self).commit_root_id == old(self).commit_root_id
                    &&& final(self).ordered_root_id == old(self).ordered_root_id
                    &&& final(self).highest_certified_block_id == if bumped {
                        cid
                    } else {
                        old(self).highest_certified_block_id
                    }
                    &&& final(self).highest_quorum_cert == if bumped {
                        qc
                    } else {
                        old(self).highest_quorum_cert
                    }
                    &&& final(self).highest_ordered_cert == if qc.spec_commit_info().round > old(
                        self,
                    ).highest_ordered_cert.spec_commit_info().round {
                        qc
                    } else {
                        old(self).highest_ordered_cert
                    }
                    &&& final(self).highest_ledger_info == if qc.spec_commits_a_block()
                        && qc.spec_commit_info().round > old(
                        self,
                    ).highest_ledger_info.spec_commit_info().round {
                        qc.ledger_info
                    } else {
                        old(self).highest_ledger_info
                    }
                    &&& final(self).highest_timeout_cert == old(self).highest_timeout_cert
                    &&& final(self).pruned_block_ids@ == old(self).pruned_block_ids@
                    &&& final(self).max_pruned_blocks_in_mem == old(self).max_pruned_blocks_in_mem
                    &&& final(self).inserts@ == old(self).inserts@
                }
            }),
    {
        let cid = qc.certified_block.id;
        let certified = match self.get_block(cid) {
            Some(b) => b,
            None => {
                return Err(Error::QcBlockMissing);
            },
        };
        if !certified.block_info().consistent_with_certified(&qc.certified_block) {
            return Err(Error::QcInconsistent);
        }
        let hcb_round = self.highest_certified_block().round();
        if !self.id_to_quorum_cert.contains_key(&cid) {
            self.id_to_quorum_cert.insert(cid, qc);
        }
        if certified.round() > hcb_round {
            self.highest_certified_block_id = cid;
            self.highest_quorum_cert = qc;
        }
        if qc.commit_info().round > self.highest_ordered_cert.commit_info().round {
            self.highest_ordered_cert = qc;
        }
        if qc.commits_a_block() && qc.commit_info().round
            > self.highest_ledger_info.commit_info().round {
            self.highest_ledger_info = qc.ledger_info;
        }
        proof {
            let o = *old(self);
            let t = *self;
            BlockTree::lemma_wf_blocks_unchanged(&o, &t);
            assert forall|c: u64| #[trigger] t.qcs().contains_key(c) implies t.qcs()[c].certified_block.id
                == c && t.has_block(c) && t.block_of(c).spec_block_info().spec_match_ordered_only(
                &t.qcs()[c].certified_block,
            ) by {
                if c != cid || o.qcs().contains_key(cid) {
                    assert(o.qcs().contains_key(c));
                    assert(t.qcs()[c] == o.qcs()[c]);
                    assert(o.has_block(c));
                } else {
                    assert(t.qcs()[c] == qc);
                }
            }
            assert(t.wf());
        }
        Ok(())
    }

    /// Advance the ordered root to a known descendant of the current one.
    pub fn update_ordered_root_id(&mut self, id: u64)
        requires
            old(self).wf(),
            old(self).has_block(id),
            old(self).is_ancestor_or_equal(old(self).ordered_root_id, id),
        ensures
            final(self).wf(),
            *final(self) == (BlockTree { ordered_root_id: id, ..*old(self) }),
    {
        self.ordered_root_id = id;
        proof {
            BlockTree::lemma_wf_same_maps(&*old(self), &*self);
        }
    }

    /// The chain `[root's child, ..., block_id]`, oldest first; `None`
    /// when `block_id` is unknown or not a descendant of `root`.
    pub fn path_from_root_id(&self, root: u64, block_id: u64) -> (r: Option<Vec<ExecutedBlock>>)
        requires
            self.wf(),
        ensures
            r is Some <==> self.has_block(block_id) && self.is_ancestor_or_equal(root, block_id),
            match r {
                Some(v) => {
                    &&& forall|i: int|
                        0 <= i < v@.len() ==> self.has_block((#[trigger] v@[i]).spec_id())
                            && self.block_of(v@[i].spec_id()) == v@[i]
                    &&& (v@.len() == 0 <==> block_id == root)
                    &&& v@.len() > 0 ==> v@[0].spec_parent_id() == root && v@[v@.len()
                        - 1].spec_id() == block_id
                    &&& forall|i: int|
                        0 <= i < v@.len() - 1 ==> (#[trigger] v@[i + 1]).spec_parent_id()
                            == v@[i].spec_id()
                    &&& forall|i: int|
                        0 <= i < v@.len() ==> (#[trigger] v@[i]).spec_id() != self.commit_root_id
                    &&& forall|i: int|
                        0 <= i < v@.len() - 1 ==> (#[trigger] v@[i]).spec_round() < v@[i
                            + 1].spec_round()
                    &&& self.is_chain_to(v@, block_id)
                },
                None => true,
            },
    {
        if !self.id_to_block.contains_key(&block_id) {
            return None;
        }
        if !self.is_descendant_of(root, block_id) {
            return None;
        }
        let mut rev: Vec<ExecutedBlock> = Vec::new();
        let mut cur: u64 = block_id;
        while cur != root
            invariant
                self.wf(),
                self.has_block(cur),
                self.is_ancestor_or_equal(root, cur),
                rev@.len() == 0 ==> cur == block_id,
                rev@.len() > 0 ==> rev@[0].spec_id() == block_id && rev@[rev@.len()
                    - 1].spec_parent_id() == cur,
                forall|i: int|
                    0 <= i < rev@.len() ==> self.has_block((#[trigger] rev@[i]).spec_id())
                        && self.block_of(rev@[i].spec_id()) == rev@[i],
                forall|i: int|
                    0 <= i < rev@.len() ==> (#[trigger] rev@[i]).spec_id()
                        != self.commit_root_id,
                forall|i: int|
                    0 <= i < rev@.len() - 1 ==> (#[trigger] rev@[i]).spec_parent_id() == rev@[i
                        + 1].spec_id(),
                block_id == root ==> rev@.len() == 0,
            decreases self.round_of(cur),
        {
            let b = self.get_block(cur).unwrap();
            proof {
                let f = choose|f: nat| self.reaches(root, cur, f);
                assert(cur != self.commit_root_id);
                assert(self.reaches(root, self.parent_of(cur), (f - 1) as nat));
            }
            rev.push(b);
            cur = b.parent_id();
        }
        let n = rev.len();
        let mut out: Vec<ExecutedBlock> = Vec::new();
        let mut i: usize = n;
        while i > 0
            invariant
                n == rev@.len(),
                0 <= i <= n,
                out@.len() == n - i,
                forall|k: int| 0 <= k < out@.len() ==> #[trigger] out@[k] == rev@[n - 1 - k],
            decreases i,
        {
            i = i - 1;
            out.push(rev[i]);
        }
        proof {
            if n > 0 {
                assert(out@[0] == rev@[n - 1]);
                assert(out@[n - 1] == rev@[0]);
                assert forall|k: int|
                    0 <= k < out@.len() - 1 implies (#[trigger] out@[k + 1]).spec_parent_id()
                    == out@[k].spec_id() by {
                    assert(out@[k + 1] == rev@[n - 2 - k]);
                    assert(out@[k] == rev@[n - 1 - k]);
                    assert(rev@[n - 2 - k].spec_parent_id() == rev@[n - 1 - k].spec_id());
                }
                assert forall|k: int| 0 <= k < out@.len() implies (#[trigger] out@[k]).spec_id()
                    != self.commit_root_id by {
                    assert(out@[k] == rev@[n - 1 - k]);
                }
                assert forall|k: int|
                    0 <= k < out@.len() - 1 implies (#[trigger] out@[k]).spec_round() < out@[k
                    + 1].spec_round() by {
                    let x = out@[k + 1].spec_id();
                    assert(self.has_block(x) && self.block_of(x) == out@[k + 1]);
                    assert(x != self.commit_root_id);
                    assert(self.round_of(self.parent_of(x)) < self.round_of(x));
                    assert(self.parent_of(x) == out@[k].spec_id());
                    assert(self.block_of(out@[k].spec_id()) == out@[k]);
                }
            }
        }
        Some(out)
    }

    /// Every live block off the subtree under `next_root_id`, each listed
    /// before any of its ancestors, so that deleting front to back never
    /// leaves a parentless survivor.
    pub fn find_blocks_to_prune(&self, next_root_id: u64) -> (r: Vec<u64>)
        requires
            self.wf(),
            self.has_block(next_root_id),
        ensures
            forall|id: u64|
                #[trigger] r@.contains(id) <==> self.has_block(id) && !self.is_ancestor_or_equal(
                    next_root_id,
                    id,
                ),
            r@.no_duplicates(),
            forall|i: int, j: int|
                0 <= i < j < r@.len() ==> !self.is_ancestor_or_equal(#[trigger] r@[i], #[trigger] r@[j]),
    {
        let n = self.block_ids.len();
        let mut out: Vec<u64> = Vec::new();
        let mut i: usize = n;
        while i > 0
            invariant
                self.wf(),
                self.has_block(next_root_id),
                n == self.block_ids@.len(),
                0 <= i <= n,
                forall|id: u64|
                    #[trigger] out@.contains(id) ==> self.has_block(id)
                        && !self.is_ancestor_or_equal(next_root_id, id)
                        && i <= self.block_ids@.index_of(id) < n,
                forall|k: int|
                    i <= k < n && !self.is_ancestor_or_equal(
                        next_root_id,
                        #[trigger] self.block_ids@[k],
                    ) ==> out@.contains(self.block_ids@[k]),
                out@.no_duplicates(),
                forall|a: int, b: int|
                    0 <= a < b < out@.len() ==> self.block_ids@.index_of(#[trigger] out@[a])
                        > self.block_ids@.index_of(#[trigger] out@[b]),
            decreases i,
        {
            i = i - 1;
            let id = self.block_ids[i];
            proof {
                assert(self.has_block(self.block_ids@[i as int]));
                assert(self.block_ids@.index_of(id) == i as int) by {
                    assert(self.block_ids@[i as int] == id);
                    let x = self.block_ids@.index_of(id);
                    assert(self.block_ids@.contains(id));
                    assert(self.block_ids@[x] == id);
                }
            }
            if !self.is_descendant_of(next_root_id, id) {
                let ghost out0 = out@;
                proof {
                    assert(!out0.contains(id)) by {
                        if out0.contains(id) {
                            assert(i + 1 <= self.block_ids@.index_of(id));
                        }
                    }
                }
                out.push(id);
                proof {
                    assert(out@ == out0.push(id));
                    assert forall|x: u64| #[trigger] out@.contains(x) implies out0.contains(x) || x
                        == id by {
                        let p = choose|p: int| 0 <= p < out@.len() && out@[p] == x;
                        if p < out0.len() {
                            assert(out0[p] == x);
                        }
                    }
                    assert forall|k: int|
                        i <= k < n && !self.is_ancestor_or_equal(
                            next_root_id,
                            #[trigger] self.block_ids@[k],
                        ) implies out@.contains(self.block_ids@[k]) by {
                        if k == i {
                            assert(out@[out@.len() - 1] == self.block_ids@[k]);
                        } else {
                            assert(out0.contains(self.block_ids@[k]));
                            let p = choose|p: int|
                                0 <= p < out0.len() && out0[p] == self.block_ids@[k];
                            assert(out@[p] == self.block_ids@[k]);
                        }
                    }
                    assert(out@.no_duplicates()) by {
                        assert forall|a: int, b: int|
                            0 <= a < b < out@.len() implies out@[a] != out@[b] by {
                            if b < out0.len() {
                                assert(out0[a] == out@[a] && out0[b] == out@[b]);
                            } else {
                                assert(out@[b] == id);
                                assert(out0.contains(out0[a]));
                                assert(i + 1 <= self.block_ids@.index_of(out@[a]));
                            }
                        }
                    }
                    assert forall|a: int, b: int|
                        0 <= a < b < out@.len() implies self.block_ids@.index_of(
                        #[trigger] out@[a],
                    ) > self.block_ids@.index_of(#[trigger] out@[b]) by {
                        if b < out0.len() {
                            assert(out0[a] == out@[a] && out0[b] == out@[b]);
                        } else {
                            assert(out@[b] == id);
                            assert(out0.contains(out0[a]));
                            assert(i + 1 <= self.block_ids@.index_of(out@[a]));
                        }
                    }
                }
            } else {
                proof {
                    assert forall|k: int|
                        i <= k < n && !self.is_ancestor_or_equal(
                            next_root_id,
                            #[trigger] self.block_ids@[k],
                        ) implies out@.contains(self.block_ids@[k]) by {
                        assert(k != i);
                    }
                }
            }
        }
        proof {
            assert forall|id: u64|
                self.has_block(id) && !self.is_ancestor_or_equal(next_root_id, id) implies #[trigger] out@.contains(
                id,
            ) by {
                assert(self.block_ids@.contains(id));
                let k = choose|k: int| 0 <= k < n && self.block_ids@[k] == id;
            }
            assert forall|a: int, b: int|
                0 <= a < b < out@.len() implies !self.is_ancestor_or_equal(
                #[trigger] out@[a],
                #[trigger] out@[b],
            ) by {
                if self.is_ancestor_or_equal(out@[a], out@[b]) {
                    assert(out@.contains(out@[a]));
                    assert(out@.contains(out@[b]));
                    if out@[a] != out@[b] {
                        let f = choose|f: nat| self.reaches(out@[a], out@[b], f);
                        self.lemma_ancestor_appears_earlier(out@[a], out@[b], f);
                    }
                }
            }
        }
        out
    }

    /// The FIFO of pruned ids after appending `pruned` and evicting from
    /// the front down to `max` entries.
    pub open spec fn fifo_after(fifo: Seq<u64>, pruned: Seq<u64>, max: nat) -> Seq<u64> {
        let all = fifo + pruned;
        if all.len() <= max {
            all
        } else {
            all.skip(all.len() - max)
        }
    }

    /// Atomically advance the commit root to `next_root_id` and drop the
    /// given blocks, which must be exactly the ones off its subtree, from
    /// the block map and the certificate index; their ids enter the FIFO,
    /// evicting the oldest entries when full.
    ///
    /// When the pruned branch carried the highest certified block, that
    /// tracker falls back to the new root.
    pub fn update_commit_id_and_process_pruned_blocks(
        &mut self,
        next_root_id: u64,
        pruned: &Vec<u64>,
    )
        requires
            old(self).wf(),
            old(self).has_block(next_root_id),
            old(self).is_ancestor_or_equal(next_root_id, old(self).ordered_root_id),
            forall|id: u64|
                #[trigger] pruned@.contains(id) <==> old(self).has_block(id) && !old(
                    self,
                ).is_ancestor_or_equal(next_root_id, id),
            pruned@.no_duplicates(),
        ensures
            final(self).wf(),
            final(self).blocks() == old(self).blocks().remove_keys(pruned@.to_set()),
            forall|id: u64|
                #[trigger] final(self).has_block(id) <==> old(self).has_block(id) && old(
                    self,
                ).is_ancestor_or_equal(next_root_id, id),
            forall|id: u64|
                #[trigger] final(self).has_block(id) ==> final(self).block_of(id) == old(
                    self,
                ).block_of(id),
            final(self).qcs() == old(self).qcs().remove_keys(pruned@.to_set()),
            final(self).commit_root_id == next_root_id,
            final(self).ordered_root_id == old(self).ordered_root_id,
            final(self).highest_certified_block_id == if old(self).is_ancestor_or_equal(
                next_root_id,
                old(self).highest_certified_block_id,
            ) {
                old(self).highest_certified_block_id
            } else {
                next_root_id
            },
            final(self).highest_quorum_cert == old(self).highest_quorum_cert,
            final(self).highest_ordered_cert == old(self).highest_ordered_cert,
            final(self).highest_ledger_info == old(self).highest_ledger_info,
            final(self).highest_timeout_cert == old(self).highest_timeout_cert,
            final(self).pruned_block_ids@ == BlockTree::fifo_after(
                old(self).pruned_block_ids@,
                pruned@,
                old(self).max_pruned_blocks_in_mem as nat,
            ),
            final(self).max_pruned_blocks_in_mem == old(self).max_pruned_blocks_in_mem,
            final(self).inserts@ == old(self).inserts@,
    {
        let keep_hcb = self.is_descendant_of(next_root_id, self.highest_certified_block_id);
        proof {
            assert(self.reaches(next_root_id, next_root_id, 0));
            assert(!pruned@.contains(next_root_id));
            assert(!pruned@.contains(self.ordered_root_id));
        }
        // Drop the pruned entries from both maps.
        let m = pruned.len();
        let mut k: usize = 0;
        while k < m
            invariant
                0 <= k <= m,
                m == pruned@.len(),
                *self == (BlockTree {
                    id_to_block: self.id_to_block,
                    id_to_quorum_cert: self.id_to_quorum_cert,
                    ..*old(self)
                }),
                forall|id: u64|
                    #[trigger] self.blocks().contains_key(id) <==> old(
                        self,
                    ).blocks().contains_key(id) && !pruned@.take(k as int).contains(id),
                forall|id: u64|
                    #[trigger] self.blocks().contains_key(id) ==> self.blocks()[id] == old(
                        self,
                    ).blocks()[id],
                forall|id: u64|
                    #[trigger] self.qcs().contains_key(id) <==> old(self).qcs().contains_key(id)
                        && !pruned@.take(k as int).contains(id),
                forall|id: u64|
                    #[trigger] self.qcs().contains_key(id) ==> self.qcs()[id] == old(
                        self,
                    ).qcs()[id],
            decreases m - k,
        {
            let id = pruned[k];
            let ghost b0 = self.blocks();
            let ghost q0 = self.qcs();
            self.id_to_block.remove(&id);
            self.id_to_quorum_cert.remove(&id);
            proof {
                assert(self.blocks() == b0.remove(id));
                assert(self.qcs() == q0.remove(id));
                assert forall|x: u64| #[trigger] pruned@.take(k as int + 1).contains(x) implies (
                pruned@.take(k as int).contains(x) || x == pruned@[k as int]) by {
                    let p = choose|p: int|
                        0 <= p < k as int + 1 && #[trigger] pruned@.take(k as int + 1)[p] == x;
                    if p < k as int {
                        assert(pruned@.take(k as int)[p] == x);
                    }
                }
                assert forall|x: u64|
                    pruned@.take(k as int).contains(x) || x == pruned@[k as int] implies #[trigger] pruned@.take(
                    k as int + 1,
                ).contains(x) by {
                    if pruned@.take(k as int).contains(x) {
                        let p = choose|p: int|
                            0 <= p < k as int && #[trigger] pruned@.take(k as int)[p] == x;
                        assert(pruned@.take(k as int + 1)[p] == x);
                    } else {
                        assert(pruned@.take(k as int + 1)[k as int] == x);
                    }
                }
            }
            k = k + 1;
        }
        proof {
            assert(pruned@.take(m as int) == pruned@);
        }
        let ghost mid = *self;
        // Rebuild the id list, keeping the surviving ids in order.
        let n = self.block_ids.len();
        let mut new_ids: Vec<u64> = Vec::new();
        let mut i: usize = 0;
        while i < n
            invariant
                n == self.block_ids@.len(),
                0 <= i <= n,
                old(self).wf(),
                self.block_ids == old(self).block_ids,
                self.block_ids@.no_duplicates(),
                forall|kk: int|
                    0 <= kk < new_ids@.len() ==> self.blocks().contains_key(
                        #[trigger] new_ids@[kk],
                    ),
                forall|j: int|
                    0 <= j < i && self.blocks().contains_key(#[trigger] self.block_ids@[j])
                        ==> new_ids@.contains(self.block_ids@[j]),
                forall|kk: int|
                    0 <= kk < new_ids@.len() ==> 0 <= self.block_ids@.index_of(
                        #[trigger] new_ids@[kk],
                    ) < i,
                forall|a: int, b: int|
                    0 <= a < b < new_ids@.len() ==> self.block_ids@.index_of(#[trigger] new_ids@[a])
                        < self.block_ids@.index_of(#[trigger] new_ids@[b]),
                new_ids@.no_duplicates(),
                new_ids@.len() <= i,
            decreases n - i,
        {
            let id = self.block_ids[i];
            proof {
                assert(self.block_ids@.index_of(id) == i as int) by {
                    assert(self.block_ids@[i as int] == id);
                    let x = self.block_ids@.index_of(id);
                    assert(self.block_ids@.contains(id));
                    assert(self.block_ids@[x] == id);
                }
            }
            if self.id_to_block.contains_key(&id) {
                let ghost ids0 = new_ids@;
                proof {
                    assert(!ids0.contains(id)) by {
                        if ids0.contains(id) {
                            assert(self.block_ids@.index_of(id) < i as int);
                        }
                    }
                }
                new_ids.push(id);
                proof {
                    assert forall|x: u64| #[trigger] new_ids@.contains(x) implies ids0.contains(x)
                        || x == id by {
                        let p = choose|p: int| 0 <= p < new_ids@.len() && new_ids@[p] == x;
                        if p < ids0.len() {
                            assert(ids0[p] == x);
                        }
                    }
                    assert forall|j: int|
                        0 <= j < i as int + 1 && self.blocks().contains_key(
                            #[trigger] self.block_ids@[j],
                        ) implies new_ids@.contains(self.block_ids@[j]) by {
                        if j == i as int {
                            assert(new_ids@[new_ids@.len() - 1] == self.block_ids@[j]);
                        } else {
                            assert(ids0.contains(self.block_ids@[j]));
                            let p = choose|p: int| 0 <= p < ids0.len() && ids0[p] == self.block_ids@[j];
                            assert(new_ids@[p] == self.block_ids@[j]);
                        }
                    }
                    assert(new_ids@.no_duplicates()) by {
                        assert forall|a: int, b: int|
                            0 <= a < b < new_ids@.len() implies new_ids@[a] != new_ids@[b] by {
                            if b < ids0.len() {
                                assert(ids0[a] == new_ids@[a] && ids0[b] == new_ids@[b]);
                            } else {
                                assert(new_ids@[b] == id);
                                assert(ids0.contains(ids0[a]));
                            }
                        }
                    }
                    assert forall|a: int, b: int|
                        0 <= a < b < new_ids@.len() implies self.block_ids@.index_of(
                        #[trigger] new_ids@[a],
                    ) < self.block_ids@.index_of(#[trigger] new_ids@[b]) by {
                        if b < ids0.len() {
                            assert(ids0[a] == new_ids@[a] && ids0[b] == new_ids@[b]);
                        } else {
                            assert(new_ids@[b] == id);
                            assert(ids0.contains(ids0[a]));
                        }
                    }
                }
            } else {
                proof {
                    assert forall|j: int|
                        0 <= j < i as int + 1 && self.blocks().contains_key(
                            #[trigger] self.block_ids@[j],
                        ) implies new_ids@.contains(self.block_ids@[j]) by {
                        assert(j != i as int);
                    }
                }
            }
            i = i + 1;
        }
        let ghost survivors = new_ids@;
        self.block_ids = new_ids;
        // Advance the roots.
        self.commit_root_id = next_root_id;
        if !keep_hcb {
            self.highest_certified_block_id = next_root_id;
        }
        // Append to the FIFO of pruned ids, evicting the oldest when full.
        let flen = self.pruned_block_ids.len();
        let max = self.max_pruned_blocks_in_mem;
        let ghost oldf = old(self).pruned_block_ids@;
        let ghost all = oldf + pruned@;
        let ghost maxn = old(self).max_pruned_blocks_in_mem as nat;
        proof {
            assert(self.pruned_block_ids@ == oldf);
            assert(flen == oldf.len());
            assert(max == maxn);
        }
        let mut new_fifo: Vec<u64> = Vec::new();
        if m > max {
            let dp = m - max;
            let mut j: usize = dp;
            while j < m
                invariant
                    dp <= j <= m,
                    m == pruned@.len(),
                    dp == m - max,
                    new_fifo@.len() == j - dp,
                    forall|t: int|
                        0 <= t < new_fifo@.len() ==> #[trigger] new_fifo@[t] == pruned@[dp + t],
                decreases m - j,
            {
                new_fifo.push(pruned[j]);
                j = j + 1;
            }
            proof {
                assert(all.len() > maxn);
                let target = all.skip(all.len() - maxn);
                assert(new_fifo@.len() == maxn);
                assert forall|t: int| 0 <= t < new_fifo@.len() implies #[trigger] new_fifo@[t]
                    == target[t] by {
                    assert(new_fifo@[t] == pruned@[dp + t]);
                    assert(target[t] == all[all.len() - maxn + t]);
                    assert(all[flen + dp + t] == pruned@[dp + t]);
                }
                assert(new_fifo@ =~= BlockTree::fifo_after(oldf, pruned@, maxn));
            }
        } else {
            let d: usize = if flen > max - m {
                flen - (max - m)
            } else {
                0
            };
            let mut j: usize = d;
            while j < flen
                invariant
                    d <= j <= flen,
                    flen == self.pruned_block_ids@.len(),
                    new_fifo@.len() == j - d,
                    forall|t: int|
                        0 <= t < new_fifo@.len() ==> #[trigger] new_fifo@[t]
                            == self.pruned_block_ids@[d + t],
                decreases flen - j,
            {
                new_fifo.push(self.pruned_block_ids[j]);
                j = j + 1;
            }
            let mut jj: usize = 0;
            while jj < m
                invariant
                    0 <= jj <= m,
                    m == pruned@.len(),
                    flen == self.pruned_block_ids@.len(),
                    d <= flen,
                    new_fifo@.len() == (flen - d) + jj,
                    forall|t: int|
                        0 <= t < flen - d ==> #[trigger] new_fifo@[t] == self.pruned_block_ids@[d
                            + t],
                    forall|t: int|
                        0 <= t < jj ==> #[trigger] new_fifo@[flen - d + t] == pruned@[t],
                decreases m - jj,
            {
                new_fifo.push(pruned[jj]);
                jj = jj + 1;
            }
            proof {
                assert(new_fifo@.len() == (flen - d) + m);
                if all.len() <= maxn {
                    assert(d == 0);
                    assert forall|t: int| 0 <= t < new_fifo@.len() implies #[trigger] new_fifo@[t]
                        == all[t] by {
                        if t < flen {
                            assert(new_fifo@[t] == oldf[t]);
                        } else {
                            assert(new_fifo@[flen - 0 + (t - flen)] == pruned@[t - flen]);
                        }
                    }
                } else {
                    assert(d == flen + m - maxn);
                    let target = all.skip(all.len() - maxn);
                    assert(new_fifo@.len() == maxn);
                    assert forall|t: int| 0 <= t < new_fifo@.len() implies #[trigger] new_fifo@[t]
                        == target[t] by {
                        assert(target[t] == all[d + t]);
                        if t < flen - d {
                            assert(new_fifo@[t] == oldf[d + t]);
                            assert(all[d + t] == oldf[d + t]);
                        } else {
                            assert(new_fifo@[flen - d + (t - (flen - d))] == pruned@[t - (flen
                                - d)]);
                            assert(all[d + t] == pruned@[d + t - flen]);
                        }
                    }
                }
                assert(new_fifo@ =~= BlockTree::fifo_after(oldf, pruned@, maxn));
            }
        }
        self.pruned_block_ids = new_fifo;
        proof {
            assert(self.blocks() == mid.blocks());
            assert(self.qcs() == mid.qcs());
            self.lemma_prune_wf(*old(self), next_root_id, pruned@, survivors, keep_hcb);
        }
    }

    proof fn lemma_prune_wf(
        &self,
        o: BlockTree,
        next: u64,
        pruned: Seq<u64>,
        survivors: Seq<u64>,
        keep_hcb: bool,
    )
        requires
            o.wf(),
            o.has_block(next),
            o.is_ancestor_or_equal(next, o.ordered_root_id),
            forall|id: u64|
                #[trigger] pruned.contains(id) <==> o.has_block(id) && !o.is_ancestor_or_equal(
                    next,
                    id,
                ),
            pruned.no_duplicates(),
            forall|id: u64|
                #[trigger] self.blocks().contains_key(id) <==> o.blocks().contains_key(id)
                    && !pruned.contains(id),
            forall|id: u64|
                #[trigger] self.blocks().contains_key(id) ==> self.blocks()[id] == o.blocks()[id],
            forall|id: u64|
                #[trigger] self.qcs().contains_key(id) <==> o.qcs().contains_key(id)
                    && !pruned.contains(id),
            forall|id: u64|
                #[trigger] self.qcs().contains_key(id) ==> self.qcs()[id] == o.qcs()[id],
            self.block_ids@ == survivors,
            survivors.no_duplicates(),
            forall|kk: int|
                0 <= kk < survivors.len() ==> self.blocks().contains_key(#[trigger] survivors[kk]),
            forall|j: int|
                0 <= j < o.block_ids@.len() && self.blocks().contains_key(
                    #[trigger] o.block_ids@[j],
                ) ==> survivors.contains(o.block_ids@[j]),
            forall|kk: int|
                0 <= kk < survivors.len() ==> 0 <= o.block_ids@.index_of(#[trigger] survivors[kk])
                    < o.block_ids@.len(),
            forall|a: int, b: int|
                0 <= a < b < survivors.len() ==> o.block_ids@.index_of(#[trigger] survivors[a])
                    < o.block_ids@.index_of(#[trigger] survivors[b]),
            self.commit_root_id == next,
            self.ordered_root_id == o.ordered_root_id,
            keep_hcb == o.is_ancestor_or_equal(next, o.highest_certified_block_id),
            self.highest_certified_block_id == if keep_hcb {
                o.highest_certified_block_id
            } else {
                next
            },
            self.pruned_block_ids@.len() <= self.max_pruned_blocks_in_mem,
            self.max_pruned_blocks_in_mem == o.max_pruned_blocks_in_mem,
            self.pruned_block_ids@.len() <= o.pruned_block_ids@.len() + pruned.len(),
            self.inserts@ == o.inserts@,
        ensures
            self.wf(),
            self.blocks() == o.blocks().remove_keys(pruned.to_set()),
            self.qcs() == o.qcs().remove_keys(pruned.to_set()),
            forall|id: u64|
                #[trigger] self.has_block(id) <==> o.has_block(id) && o.is_ancestor_or_equal(
                    next,
                    id,
                ),
    {
        broadcast use vstd::seq_lib::seq_to_set_is_finite;

        // Survival is exactly membership of the subtree under `next`.
        assert forall|id: u64| #[trigger] self.has_block(id) implies o.has_block(id)
            && o.is_ancestor_or_equal(next, id) by {
            assert(!pruned.contains(id));
        }
        assert forall|id: u64|
            o.has_block(id) && o.is_ancestor_or_equal(next, id) implies #[trigger] self.has_block(
            id,
        ) by {
            assert(!pruned.contains(id));
        }
        // A surviving non-root block's parent survives with it.
        assert forall|id: u64|
            #[trigger] self.has_block(id) && id != next implies o.has_block(o.parent_of(id))
            && o.is_ancestor_or_equal(next, o.parent_of(id)) && id != o.commit_root_id by {
            let f = choose|f: nat| o.reaches(next, id, f);
            assert(o.reaches(next, o.parent_of(id), (f - 1) as nat));
        }
        assert(self.reaches(next, next, 0));
        assert(o.reaches(next, next, 0));
        // The three roots survive.
        assert(self.has_block(next));
        assert(self.has_block(self.ordered_root_id));
        assert(self.has_block(self.highest_certified_block_id));
        // Parent links and rounds carry over.
        assert forall|id: u64|
            #[trigger] self.has_block(id) && id != self.commit_root_id implies self.has_block(
            self.parent_of(id),
        ) && self.round_of(self.parent_of(id)) < self.round_of(id) by {
            assert(o.has_block(id));
            assert(self.parent_of(id) == o.parent_of(id));
            assert(self.block_of(self.parent_of(id)) == o.block_of(o.parent_of(id)));
        }
        assert forall|id: u64| #[trigger] self.has_block(id) implies self.block_of(id).block.id
            == id by {
            assert(o.has_block(id));
        }
        // The id list indexes the survivors.
        assert forall|id: u64| #[trigger] self.has_block(id) implies self.block_ids@.contains(
            id,
        ) by {
            assert(o.has_block(id));
            assert(o.block_ids@.contains(id));
            let j = choose|j: int| 0 <= j < o.block_ids@.len() && o.block_ids@[j] == id;
            assert(survivors.contains(o.block_ids@[j]));
        }
        // Parents still stand before their children in the id list.
        assert forall|kk: int|
            0 <= kk < self.block_ids@.len() implies #[trigger] self.block_ids@[kk]
            == self.commit_root_id || exists|j: int|
            0 <= j < kk && self.block_ids@[j] == self.parent_of(self.block_ids@[kk]) by {
            let id = survivors[kk];
            if id != next {
                let p = self.parent_of(id);
                assert(self.has_block(id));
                assert(o.has_block(p) && o.is_ancestor_or_equal(next, p));
                assert(self.has_block(p));
                assert(self.block_ids@.contains(p));
                let pp = choose|pp: int| 0 <= pp < survivors.len() && survivors[pp] == p;
                // positions in `survivors` are ordered like positions in the
                // old id list, where the parent stood earlier
                let oi = o.block_ids@.index_of(id);
                assert(o.block_ids@[oi] == id);
                assert(o.has_block(o.block_ids@[oi]));
                assert(id != o.commit_root_id);
                let oj = choose|oj: int|
                    0 <= oj < oi && o.block_ids@[oj] == o.parent_of(o.block_ids@[oi]);
                assert(o.block_ids@.index_of(p) == oj) by {
                    assert(o.block_ids@.contains(p));
                    let x = o.block_ids@.index_of(p);
                    assert(o.block_ids@[x] == p);
                }
                assert(pp != kk);
                if pp > kk {
                    assert(o.block_ids@.index_of(survivors[kk]) < o.block_ids@.index_of(
                        survivors[pp],
                    ));
                    assert(false);
                }
                assert(self.block_ids@[pp] == self.parent_of(self.block_ids@[kk]));
            }
        }
        // Certificates of surviving blocks still match them.
        assert forall|cid: u64| #[trigger] self.qcs().contains_key(cid) implies self.qcs()[cid].certified_block.id
            == cid && self.has_block(cid) && self.block_of(cid).spec_block_info().spec_match_ordered_only(
            &self.qcs()[cid].certified_block,
        ) by {
            assert(o.qcs().contains_key(cid));
            assert(o.has_block(cid));
            assert(self.block_of(cid) == o.block_of(cid));
        }
        // The maps are exactly the old ones with the pruned keys removed.
        assert forall|x: u64| #[trigger] pruned.to_set().contains(x) implies o.blocks().contains_key(
            x,
        ) by {}
        assert(self.blocks() =~= o.blocks().remove_keys(pruned.to_set()));
        assert(self.qcs() =~= o.qcs().remove_keys(pruned.to_set()));
        // The insert budget still covers the live blocks and the FIFO.
        o.blocks().lemma_remove_keys_len(pruned.to_set());
        pruned.unique_seq_to_set();
        assert(self.blocks().len() == o.blocks().len() - pruned.len());
        assert(self.blocks().len() + self.pruned_block_ids@.len() <= self.inserts@);
        assert(self.wf());
    }

    /// All live block ids, parents before children.
    pub fn get_all_block_id(&self) -> (r: Vec<u64>)
        ensures
            r@ == self.block_ids@,
    {
        let n = self.block_ids.len();
        let mut out: Vec<u64> = Vec::new();
        let mut i: usize = 0;
        while i < n
            invariant
                n == self.block_ids@.len(),
                0 <= i <= n,
                out@ == self.block_ids@.take(i as int),
            decreases n - i,
        {
            out.push(self.block_ids[i]);
            proof {
                assert(out@ =~= self.block_ids@.take(i as int + 1));
            }
            i = i + 1;
        }
        proof {
            assert(self.block_ids@.take(n as int) == self.block_ids@);
        }
        out
    }

    /// Every certificate in the tree whose vote committed a real block.
    pub fn get_all_quorum_certs_with_commit_info(&self) -> (r: Vec<QuorumCert>)
        requires
            self.wf(),
        ensures
            forall|j: int|
                0 <= j < r@.len() ==> self.qcs().contains_key((#[trigger] r@[j]).certified_block.id)
                    && self.qcs()[r@[j].certified_block.id] == r@[j] && r@[j].spec_commits_a_block(),
            forall|cid: u64|
                #[trigger] self.qcs().contains_key(cid) && self.qcs()[cid].spec_commits_a_block()
                    ==> r@.contains(self.qcs()[cid]),
    {
        let n = self.block_ids.len();
        let mut out: Vec<QuorumCert> = Vec::new();
        let mut i: usize = 0;
        while i < n
            invariant
                self.wf(),
                n == self.block_ids@.len(),
                0 <= i <= n,
                forall|j: int|
                    0 <= j < out@.len() ==> self.qcs().contains_key(
                        (#[trigger] out@[j]).certified_block.id,
                    ) && self.qcs()[out@[j].certified_block.id] == out@[j]
                        && out@[j].spec_commits_a_block(),
                forall|k: int|
                    0 <= k < i && self.qcs().contains_key(#[trigger] self.block_ids@[k])
                        && self.qcs()[self.block_ids@[k]].spec_commits_a_block() ==> out@.contains(
                        self.qcs()[self.block_ids@[k]],
                    ),
            decreases n - i,
        {
            let id = self.block_ids[i];
            let ghost out0 = out@;
            match self.id_to_quorum_cert.get(&id) {
                Some(qc) => {
                    if qc.commits_a_block() {
                        out.push(*qc);
                    }
                },
                None => {},
            }
            proof {
                assert forall|k: int|
                    0 <= k < i as int + 1 && self.qcs().contains_key(#[trigger] self.block_ids@[k])
                        && self.qcs()[self.block_ids@[k]].spec_commits_a_block() implies out@.contains(
                    self.qcs()[self.block_ids@[k]],
                ) by {
                    if k == i as int && self.qcs().contains_key(id)
                        && self.qcs()[id].spec_commits_a_block() {
                        assert(out@[out@.len() - 1] == self.qcs()[id]);
                    } else {
                        assert(out0.contains(self.qcs()[self.block_ids@[k]]));
                        let p = choose|p: int|
                            0 <= p < out0.len() && out0[p] == self.qcs()[self.block_ids@[k]];
                        assert(out@[p] == self.qcs()[self.block_ids@[k]]);
                    }
                }
            }
            i = i + 1;
        }
        proof {
            assert forall|cid: u64|
                #[trigger] self.qcs().contains_key(cid)
                    && self.qcs()[cid].spec_commits_a_block() implies out@.contains(
                self.qcs()[cid],
            ) by {
                assert(self.has_block(cid));
                assert(self.block_ids@.contains(cid));
                let k = choose|k: int| 0 <= k < n && self.block_ids@[k] == cid;
            }
        }
        out
    }

    /// Install a new highest timeout certificate.
    pub fn replace_timeout_cert(&mut self, tc: TimeoutCertificate)
        requires
            old(self).wf(),
        ensures
            final(self).wf(),
            *final(self) == (BlockTree { highest_timeout_cert: Some(tc), ..*old(self) }),
    {
        self.highest_timeout_cert = Some(tc);
        proof {
            BlockTree::lemma_wf_same_maps(&*old(self), &*self);
        }
    }

    /// Record a fresher finality proof.
    pub fn update_highest_ledger_info(&mut self, li: LedgerInfoWithSignatures)
        requires
            old(self).wf(),
        ensures
            final(self).wf(),
            *final(self) == (BlockTree { highest_ledger_info: li, ..*old(self) }),
    {
        self.highest_ledger_info = li;
        proof {
            BlockTree::lemma_wf_same_maps(&*old(self), &*self);
        }
    }

    /// The commit root's round never exceeds the ordered root's.
    pub proof fn lemma_root_round_order(&self)
        requires
            self.wf(),
        ensures
            self.round_of(self.commit_root_id) <= self.round_of(self.ordered_root_id),
    {
        self.lemma_all_reach_commit_root(self.ordered_root_id);
        let f = choose|f: nat| self.reaches(self.commit_root_id, self.ordered_root_id, f);
        self.lemma_reaches_props(self.commit_root_id, self.ordered_root_id, f);
    }

    /// On trees where the highest certified block still descends from the
    /// ordered root, the three root rounds are ordered:
    /// `commit_root.round <= ordered_root.round <= highest_certified_block.round`.
    pub proof fn lemma_certified_round_dominates(&self)
        requires
            self.wf(),
            self.is_ancestor_or_equal(self.ordered_root_id, self.highest_certified_block_id),
        ensures
            self.round_of(self.commit_root_id) <= self.round_of(self.ordered_root_id),
            self.round_of(self.ordered_root_id) <= self.round_of(
                self.highest_certified_block_id,
            ),
    {
        self.lemma_root_round_order();
        let f = choose|f: nat|
            self.reaches(self.ordered_root_id, self.highest_certified_block_id, f);
        self.lemma_reaches_props(self.ordered_root_id, self.highest_certified_block_id, f);
    }

    /// Rounds grow strictly along every parent chain.
    pub proof fn lemma_rounds_increase_on_chains(&self, a: u64, b: u64)
        requires
            self.wf(),
            self.has_block(b),
            self.is_ancestor_or_equal(a, b),
        ensures
            self.has_block(a),
            self.round_of(a) <= self.round_of(b),
            a != b ==> self.round_of(a) < self.round_of(b),
    {
        let f = choose|f: nat| self.reaches(a, b, f);
        self.lemma_reaches_props(a, b, f);
    }

    /// On trees whose every edge is timestamp-monotone, timestamps are
    /// monotone along whole parent chains.
    pub proof fn lemma_timestamps_monotone_on_chains(&self, a: u64, b: u64)
        requires
            self.wf(),
            self.edge_timestamps_monotone(),
            self.has_block(b),
            self.is_ancestor_or_equal(a, b),
        ensures
            self.timestamp_of(a) <= self.timestamp_of(b),
    {
        let f = choose|f: nat| self.reaches(a, b, f);
        self.lemma_reaches_timestamps(a, b, f);
    }

    /// Every certificate in the tree certifies a live block and agrees
    /// with it on the fields ordering fixes.
    pub proof fn lemma_qcs_match_blocks(&self, cid: u64)
        requires
            self.wf(),
            self.qcs().contains_key(cid),
        ensures
            self.has_block(cid),
            self.qcs()[cid].certified_block.id == cid,
            self.block_of(cid).spec_block_info().spec_match_ordered_only(
                &self.qcs()[cid].certified_block,
            ),
    {
    }

    /// Every block that lies on a chain ending in the highest certified
    /// block is on one chain with the ordered root; those above the
    /// ordered root's round descend from it. Holds on trees where the
    /// highest certified block itself descends from the ordered root.
    pub proof fn lemma_ordered_root_dominates_certified_chain(&self, x: u64)
        requires
            self.wf(),
            self.is_ancestor_or_equal(self.ordered_root_id, self.highest_certified_block_id),
            self.has_block(x),
            self.is_ancestor_or_equal(x, self.highest_certified_block_id),
        ensures
            self.is_ancestor_or_equal(self.ordered_root_id, x) || self.is_ancestor_or_equal(
                x,
                self.ordered_root_id,
            ),
            self.round_of(x) > self.round_of(self.ordered_root_id)
                ==> self.is_ancestor_or_equal(self.ordered_root_id, x),
    {
        self.lemma_ancestors_comparable(self.ordered_root_id, x, self.highest_certified_block_id);
        if self.round_of(x) > self.round_of(self.ordered_root_id) {
            if self.is_ancestor_or_equal(x, self.ordered_root_id) {
                self.lemma_rounds_increase_on_chains(x, self.ordered_root_id);
            }
        }
    }

    /// A parent-linked chain of live blocks ending in `block_id`; what
    /// `path_from_root_id` hands out satisfies this.
    pub open spec fn is_chain_to(&self, s: Seq<ExecutedBlock>, block_id: u64) -> bool {
        &&& forall|i: int|
            0 <= i < s.len() ==> self.has_block((#[trigger] s[i]).spec_id()) && self.block_of(
                s[i].spec_id(),
            ) == s[i]
        &&& forall|i: int|
            0 <= i < s.len() - 1 ==> (#[trigger] s[i + 1]).spec_parent_id() == s[i].spec_id()
        &&& s.len() > 0 ==> s[s.len() - 1].spec_id() == block_id
    }

    proof fn lemma_chain_align_at(
        &self,
        v: Seq<ExecutedBlock>,
        w: Seq<ExecutedBlock>,
        block_id: u64,
        t: int,
    )
        requires
            self.is_chain_to(v, block_id),
            self.is_chain_to(w, block_id),
            0 <= t < w.len(),
            w.len() <= v.len(),
        ensures
            w[w.len() - 1 - t] == v[v.len() - 1 - t],
        decreases t,
    {
        if t == 0 {
            assert(v[v.len() - 1] == self.block_of(block_id));
            assert(w[w.len() - 1] == self.block_of(block_id));
        } else {
            self.lemma_chain_align_at(v, w, block_id, t - 1);
            let x = w[w.len() - 1 - (t - 1)];
            assert(w[(w.len() - 1 - t) + 1] == x);
            assert(v[(v.len() - 1 - t) + 1] == x);
            assert(x.spec_parent_id() == w[w.len() - 1 - t].spec_id());
            assert(x.spec_parent_id() == v[v.len() - 1 - t].spec_id());
            assert(w[w.len() - 1 - t] == self.block_of(x.spec_parent_id()));
            assert(v[v.len() - 1 - t] == self.block_of(x.spec_parent_id()));
        }
    }

    /// Parent links determine chains: two chains ending in the same block
    /// agree element for element from the end, so the shorter is a suffix
    /// of the longer. In particular a block's path from the ordered root
    /// is a suffix of its path from the commit root.
    pub proof fn lemma_chains_to_block_align(
        &self,
        v: Seq<ExecutedBlock>,
        w: Seq<ExecutedBlock>,
        block_id: u64,
    )
        requires
            self.wf(),
            self.is_chain_to(v, block_id),
            self.is_chain_to(w, block_id),
            0 < w.len() <= v.len(),
        ensures
            w == v.skip(v.len() - w.len()),
    {
        assert forall|k: int| 0 <= k < w.len() implies #[trigger] w[k] == v.skip(
            v.len() - w.len(),
        )[k] by {
            let t = w.len() - 1 - k;
            self.lemma_chain_align_at(v, w, block_id, t);
            assert(w[w.len() - 1 - t] == v[v.len() - 1 - t]);
        }
        assert(w =~= v.skip(v.len() - w.len()));
    }

    /// A well-formed tree holds at least its commit root.
    pub proof fn lemma_nonempty(&self)
        requires
            self.wf(),
        ensures
            self.blocks().len() >= 1,
    {
        assert(self.blocks().dom().contains(self.commit_root_id));
        assert(self.blocks().dom().remove(self.commit_root_id).len() == self.blocks().dom().len()
            - 1);
    }

    /// The live blocks and the remembered pruned ids never outnumber the
    /// inserts performed so far.
    pub proof fn lemma_insert_budget(&self)
        requires
            self.wf(),
        ensures
            self.blocks().len() + self.pruned_block_ids@.len() <= self.inserts@,
    {
    }

    /// Reachability depends only on the block map and the commit root:
    /// trees that agree on both agree on every chain.
    pub proof fn lemma_reaches_agree(o: &BlockTree, t: &BlockTree, a: u64, b: u64, f: nat)
        requires
            t.id_to_block@ == o.id_to_block@,
            t.commit_root_id == o.commit_root_id,
        ensures
            t.reaches(a, b, f) == o.reaches(a, b, f),
        decreases f,
    {
        if b != a && f > 0 {
            BlockTree::lemma_reaches_agree(o, t, a, o.parent_of(b), (f - 1) as nat);
        }
    }

    /// The ancestor relation agrees on trees with the same block map and
    /// commit root.
    pub proof fn lemma_anc_agree(o: &BlockTree, t: &BlockTree, a: u64, b: u64)
        requires
            t.id_to_block@ == o.id_to_block@,
            t.commit_root_id == o.commit_root_id,
        ensures
            t.is_ancestor_or_equal(a, b) == o.is_ancestor_or_equal(a, b),
    {
        if o.is_ancestor_or_equal(a, b) {
            let f = choose|f: nat| o.reaches(a, b, f);
            BlockTree::lemma_reaches_agree(o, t, a, b, f);
            assert(t.reaches(a, b, f));
        }
        if t.is_ancestor_or_equal(a, b) {
            let f = choose|f: nat| t.reaches(a, b, f);
            BlockTree::lemma_reaches_agree(o, t, a, b, f);
            assert(o.reaches(a, b, f));
        }
    }
}

} // verus!
