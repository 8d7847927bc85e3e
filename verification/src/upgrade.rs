//! The decision core of the rolling validator-upgrade compatibility
//! check: which version to move from and to, and how to split the
//! validator set into the probe node, the rest of the first half, and
//! the second half. Driving the actual swarm is the embedding process's
//! part; it performs the plan batch by batch.

use vstd::prelude::*;

verus! {

/// The batches of a rolling upgrade, oldest version first.
pub struct UpgradePlan {
    /// Version every validator is downgraded to first.
    pub old_version: u64,
    /// Version the batches are upgraded to.
    pub new_version: u64,
    /// The single validator upgraded first.
    pub first_node: u64,
    /// The rest of the first half, upgraded second.
    pub first_batch: Vec<u64>,
    /// The second half, upgraded last.
    pub second_batch: Vec<u64>,
}

/// Compatibility check that upgrades a swarm half by half.
pub struct SimpleValidatorUpgrade;

impl SimpleValidatorUpgrade {
    pub fn name(&self) -> (r: &'static str)
        ensures
            r@ == "compatibility::simple-validator-upgrade"@,
    {
        "compatibility::simple-validator-upgrade"
    }

    /// Plan the upgrade: needs exactly two versions to move between and
    /// at least four validators to split. The first half of the
    /// validator list splits into its last element, the probe node, and
    /// the others; the second half upgrades last.
    pub fn plan(&self, versions: &Vec<u64>, validators: &Vec<u64>) -> (r: Option<UpgradePlan>)
        ensures
            r is Some <==> versions@.len() == 2 && validators@.len() >= 4,
            r matches Some(p) ==> {
                let h = validators@.len() as int / 2;
                &&& p.old_version == if versions@[0] <= versions@[1] {
                    versions@[0]
                } else {
                    versions@[1]
                }
                &&& p.new_version == if versions@[0] <= versions@[1] {
                    versions@[1]
                } else {
                    versions@[0]
                }
                &&& p.first_node == validators@[h - 1]
                &&& p.first_batch@ == validators@.take(h - 1)
                &&& p.second_batch@ == validators@.skip(h)
            },
    {
        if versions.len() != 2 {
            return None;
        }
        if validators.len() < 4 {
            return None;
        }
        let (old_version, new_version) = if versions[0] <= versions[1] {
            (versions[0], versions[1])
        } else {
            (versions[1], versions[0])
        };
        let n = validators.len();
        let h = n / 2;
        let first_node = validators[h - 1];
        let mut first_batch: Vec<u64> = Vec::new();
        let mut i: usize = 0;
        while i < h - 1
            invariant
                0 <= i <= h - 1,
                2 <= h <= n,
                n == validators@.len(),
                first_batch@ == validators@.take(h as int - 1).take(i as int),
            decreases h - 1 - i,
        {
            first_batch.push(validators[i]);
            proof {
                assert(first_batch@ =~= validators@.take(h as int - 1).take(i as int + 1));
            }
            i = i + 1;
        }
        let mut second_batch: Vec<u64> = Vec::new();
        let mut j: usize = h;
        while j < n
            invariant
                h <= j <= n,
                n == validators@.len(),
                second_batch@.len() == j - h,
                forall|t: int|
                    0 <= t < second_batch@.len() ==> #[trigger] second_batch@[t] == validators@[h
                        + t],
            decreases n - j,
        {
            second_batch.push(validators[j]);
            j = j + 1;
        }
        proof {
            assert(validators@.take(h as int - 1).take(h as int - 1) =~= validators@.take(
                h as int - 1,
            ));
            assert(second_batch@ =~= validators@.skip(h as int));
        }
        Some(UpgradePlan { old_version, new_version, first_node, first_batch, second_batch })
    }
}

} // verus!
