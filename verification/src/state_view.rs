//! Path classification for the on-disk state layout.
//!
//! State lives under a storage directory whose layout is
//! `<storage>/<address>/<kind>/<file>`, where `<kind>` is one of the
//! three directory names below. The classifiers work on canonical paths
//! handed in as plain bytes; reading the file system, canonicalizing and
//! walking directories is the embedding process's part.

use vstd::prelude::*;

verus! {

/// The path separator byte.
pub open spec fn sep() -> u8 {
    47u8
}

/// Name of the per-address subdirectory holding resources.
pub open spec fn resources_dir_name() -> Seq<u8> {
    seq![114u8, 101u8, 115u8, 111u8, 117u8, 114u8, 99u8, 101u8, 115u8]
}

/// Name of the per-address subdirectory holding modules.
pub open spec fn modules_dir_name() -> Seq<u8> {
    seq![109u8, 111u8, 100u8, 117u8, 108u8, 101u8, 115u8]
}

/// Name of the per-address subdirectory holding events.
pub open spec fn events_dir_name() -> Seq<u8> {
    seq![101u8, 118u8, 101u8, 110u8, 116u8, 115u8]
}

/// `pre` is a prefix of `s`.
pub open spec fn is_prefix_of(pre: Seq<u8>, s: Seq<u8>) -> bool {
    pre.len() <= s.len() && s.take(pre.len() as int) == pre
}

/// Index of the last separator in `p`, or -1 when it has none.
pub open spec fn last_sep_index(p: Seq<u8>) -> int
    decreases p.len(),
{
    if p.len() == 0 {
        -1
    } else if p.last() == sep() {
        p.len() - 1
    } else {
        last_sep_index(p.drop_last())
    }
}

/// `parent` ends in the path component `dir`: it is `dir` itself or ends
/// with a separator followed by `dir`.
pub open spec fn ends_with_component(parent: Seq<u8>, dir: Seq<u8>) -> bool {
    &&& parent.len() >= dir.len()
    &&& parent.skip(parent.len() - dir.len()) == dir
    &&& (parent.len() == dir.len() || parent[parent.len() - dir.len() - 1] == sep())
}

/// `p` names a file under `storage_dir` whose immediate directory is the
/// component `dir`.
pub open spec fn is_data_path_spec(storage_dir: Seq<u8>, p: Seq<u8>, dir: Seq<u8>) -> bool {
    &&& is_prefix_of(storage_dir, p)
    &&& last_sep_index(p) >= 0
    &&& ends_with_component(p.take(last_sep_index(p)), dir)
}

/// The byte strings of a list of paths.
pub open spec fn path_views(s: Seq<Vec<u8>>) -> Seq<Seq<u8>> {
    s.map_values(|q: Vec<u8>| q@)
}

/// A view on the state stored on disk: the directory compiled artifacts
/// go to and the canonical directory state is kept under.
pub struct OnDiskStateView {
    pub build_dir: Vec<u8>,
    pub storage_dir: Vec<u8>,
}

impl OnDiskStateView {
    /// A view over the given directories; `storage_dir` must already be
    /// in canonical form, which the path classifiers rely on.
    pub fn new(build_dir: Vec<u8>, storage_dir: Vec<u8>) -> (r: OnDiskStateView)
        ensures
            r.build_dir@ == build_dir@,
            r.storage_dir@ == storage_dir@,
    {
        OnDiskStateView { build_dir, storage_dir }
    }

    /// The directory compiled artifacts are placed under.
    pub fn build_dir(&self) -> (r: &Vec<u8>)
        ensures
            r@ == self.build_dir@,
    {
        &self.build_dir
    }

    /// Whether the canonical path `p` lies under the storage directory
    /// with `parent_dir` as its immediate directory component.
    pub fn is_data_path(&self, p: &Vec<u8>, parent_dir: &Vec<u8>) -> (r: bool)
        ensures
            r == is_data_path_spec(self.storage_dir@, p@, parent_dir@),
    {
        let np = p.len();
        let ns = self.storage_dir.len();
        if np < ns {
            return false;
        }
        let mut i: usize = 0;
        while i < ns
            invariant
                0 <= i <= ns,
                ns == self.storage_dir@.len(),
                ns <= np,
                np == p@.len(),
                forall|t: int| 0 <= t < i ==> p@[t] == self.storage_dir@[t],
            decreases ns - i,
        {
            if p[i] != self.storage_dir[i] {
                proof {
                    assert(p@.take(ns as int)[i as int] != self.storage_dir@[i as int]);
                }
                return false;
            }
            i = i + 1;
        }
        proof {
            assert(p@.take(ns as int) =~= self.storage_dir@);
            assert(p@.take(np as int) =~= p@);
        }
        // find the last separator
        let mut j: usize = np;
        while j > 0
            invariant
                0 <= j <= np,
                np == p@.len(),
                ns == self.storage_dir@.len(),
                ns <= np,
                p@.take(ns as int) == self.storage_dir@,
                last_sep_index(p@) == last_sep_index(p@.take(j as int)),
            decreases j,
        {
            proof {
                assert(p@.take(j as int).drop_last() =~= p@.take(j as int - 1));
            }
            if p[j - 1] == 47u8 {
                proof {
                    assert(p@.take(j as int).last() == sep());
                    assert(last_sep_index(p@.take(j as int)) == j - 1);
                }
                return Self::check_component(p, j - 1, parent_dir);
            }
            j = j - 1;
        }
        proof {
            assert(p@.take(0) =~= Seq::<u8>::empty());
            assert(last_sep_index(p@) == -1);
        }
        false
    }

    /// Whether `p[..parent_len]` ends in the component `dir`.
    fn check_component(p: &Vec<u8>, parent_len: usize, dir: &Vec<u8>) -> (r: bool)
        requires
            parent_len <= p@.len(),
        ensures
            r == ends_with_component(p@.take(parent_len as int), dir@),
    {
        let nd = dir.len();
        if parent_len < nd {
            return false;
        }
        let start = parent_len - nd;
        let ghost parent = p@.take(parent_len as int);
        let mut t: usize = 0;
        while t < nd
            invariant
                0 <= t <= nd,
                nd == dir@.len(),
                nd <= parent_len <= p@.len(),
                start == parent_len - nd,
                parent == p@.take(parent_len as int),
                forall|u: int| 0 <= u < t ==> p@[start + u] == dir@[u],
            decreases nd - t,
        {
            if p[start + t] != dir[t] {
                proof {
                    assert(parent.skip(parent.len() - dir@.len())[t as int] != dir@[t as int]);
                }
                return false;
            }
            t = t + 1;
        }
        proof {
            assert(parent.skip(parent.len() - dir@.len()) =~= dir@);
        }
        if parent_len == nd {
            return true;
        }
        proof {
            assert(parent[parent.len() - dir@.len() - 1] == p@[start - 1]);
        }
        p[start - 1] == 47u8
    }

    /// Whether the canonical path `p` names a stored resource.
    pub fn is_resource_path(&self, p: &Vec<u8>) -> (r: bool)
        ensures
            r == is_data_path_spec(self.storage_dir@, p@, resources_dir_name()),
    {
        let dir = resources_dir();
        self.is_data_path(p, &dir)
    }

    /// Whether the canonical path `p` names a stored event log.
    pub fn is_event_path(&self, p: &Vec<u8>) -> (r: bool)
        ensures
            r == is_data_path_spec(self.storage_dir@, p@, events_dir_name()),
    {
        let dir = events_dir();
        self.is_data_path(p, &dir)
    }

    /// Whether the canonical path `p` names a stored module.
    pub fn is_module_path(&self, p: &Vec<u8>) -> (r: bool)
        ensures
            r == is_data_path_spec(self.storage_dir@, p@, modules_dir_name()),
    {
        let dir = modules_dir();
        self.is_data_path(p, &dir)
    }

    /// The resource paths among the given canonical paths, in order.
    pub fn resource_paths(&self, candidates: &Vec<Vec<u8>>) -> (r: Vec<Vec<u8>>)
        ensures
            path_views(r@) == path_views(candidates@).filter(
                |q: Seq<u8>| is_data_path_spec(self.storage_dir@, q, resources_dir_name()),
            ),
    {
        let n = candidates.len();
        let mut out: Vec<Vec<u8>> = Vec::new();
        let mut i: usize = 0;
        while i < n
            invariant
                0 <= i <= n,
                n == candidates@.len(),
                path_views(out@) == path_views(candidates@.take(i as int)).filter(
                    |q: Seq<u8>| is_data_path_spec(self.storage_dir@, q, resources_dir_name()),
                ),
            decreases n - i,
        {
            let ghost out0 = out@;
            let ghost pred = |q: Vec<u8>| is_data_path_spec(
                self.storage_dir@,
                q@,
                resources_dir_name(),
            );
            if self.is_resource_path(&candidates[i]) {
                let copy = copy_bytes(&candidates[i]);
                out.push(copy);
            }
            proof {
                reveal(Seq::filter);
                let views1 = path_views(candidates@.take(i as int + 1));
                assert(views1 =~= path_views(candidates@.take(i as int)).push(
                    candidates@[i as int]@,
                ));
                assert(views1.drop_last() =~= path_views(candidates@.take(i as int)));
                assert(views1.last() == candidates@[i as int]@);
                assert(path_views(out@) =~= views1.filter(
                    |q: Seq<u8>| is_data_path_spec(self.storage_dir@, q, resources_dir_name()),
                ));
            }
            i = i + 1;
        }
        proof {
            assert(candidates@.take(n as int) == candidates@);
        }
        out
    }

    /// The module paths among the given canonical paths, in order.
    pub fn module_paths(&self, candidates: &Vec<Vec<u8>>) -> (r: Vec<Vec<u8>>)
        ensures
            path_views(r@) == path_views(candidates@).filter(
                |q: Seq<u8>| is_data_path_spec(self.storage_dir@, q, modules_dir_name()),
            ),
    {
        let n = candidates.len();
        let mut out: Vec<Vec<u8>> = Vec::new();
        let mut i: usize = 0;
        while i < n
            invariant
                0 <= i <= n,
                n == candidates@.len(),
                path_views(out@) == path_views(candidates@.take(i as int)).filter(
                    |q: Seq<u8>| is_data_path_spec(self.storage_dir@, q, modules_dir_name()),
                ),
            decreases n - i,
        {
            let ghost out0 = out@;
            if self.is_module_path(&candidates[i]) {
                let copy = copy_bytes(&candidates[i]);
                out.push(copy);
            }
            proof {
                reveal(Seq::filter);
                let views1 = path_views(candidates@.take(i as int + 1));
                assert(views1 =~= path_views(candidates@.take(i as int)).push(
                    candidates@[i as int]@,
                ));
                assert(views1.drop_last() =~= path_views(candidates@.take(i as int)));
                assert(views1.last() == candidates@[i as int]@);
                assert(path_views(out@) =~= views1.filter(
                    |q: Seq<u8>| is_data_path_spec(self.storage_dir@, q, modules_dir_name()),
                ));
            }
            i = i + 1;
        }
        proof {
            assert(candidates@.take(n as int) == candidates@);
        }
        out
    }

    /// The event-log paths among the given canonical paths, in order.
    pub fn event_paths(&self, candidates: &Vec<Vec<u8>>) -> (r: Vec<Vec<u8>>)
        ensures
            path_views(r@) == path_views(candidates@).filter(
                |q: Seq<u8>| is_data_path_spec(self.storage_dir@, q, events_dir_name()),
            ),
    {
        let n = candidates.len();
        let mut out: Vec<Vec<u8>> = Vec::new();
        let mut i: usize = 0;
        while i < n
            invariant
                0 <= i <= n,
                n == candidates@.len(),
                path_views(out@) == path_views(candidates@.take(i as int)).filter(
                    |q: Seq<u8>| is_data_path_spec(self.storage_dir@, q, events_dir_name()),
                ),
            decreases n - i,
        {
            let ghost out0 = out@;
            if self.is_event_path(&candidates[i]) {
                let copy = copy_bytes(&candidates[i]);
                out.push(copy);
            }
            proof {
                reveal(Seq::filter);
                let views1 = path_views(candidates@.take(i as int + 1));
                assert(views1 =~= path_views(candidates@.take(i as int)).push(
                    candidates@[i as int]@,
                ));
                assert(views1.drop_last() =~= path_views(candidates@.take(i as int)));
                assert(views1.last() == candidates@[i as int]@);
                assert(path_views(out@) =~= views1.filter(
                    |q: Seq<u8>| is_data_path_spec(self.storage_dir@, q, events_dir_name()),
                ));
            }
            i = i + 1;
        }
        proof {
            assert(candidates@.take(n as int) == candidates@);
        }
        out
    }
}

/// The literal directory name for resources.
pub fn resources_dir() -> (r: Vec<u8>)
    ensures
        r@ == resources_dir_name(),
{
    let mut v: Vec<u8> = Vec::new();
    v.push(114u8);
    v.push(101u8);
    v.push(115u8);
    v.push(111u8);
    v.push(117u8);
    v.push(114u8);
    v.push(99u8);
    v.push(101u8);
    v.push(115u8);
    proof {
        assert(v@ =~= resources_dir_name());
    }
    v
}

/// The literal directory name for modules.
pub fn modules_dir() -> (r: Vec<u8>)
    ensures
        r@ == modules_dir_name(),
{
    let mut v: Vec<u8> = Vec::new();
    v.push(109u8);
    v.push(111u8);
    v.push(100u8);
    v.push(117u8);
    v.push(108u8);
    v.push(101u8);
    v.push(115u8);
    proof {
        assert(v@ =~= modules_dir_name());
    }
    v
}

/// The literal directory name for events.
pub fn events_dir() -> (r: Vec<u8>)
    ensures
        r@ == events_dir_name(),
{
    let mut v: Vec<u8> = Vec::new();
    v.push(101u8);
    v.push(118u8);
    v.push(101u8);
    v.push(110u8);
    v.push(116u8);
    v.push(115u8);
    proof {
        assert(v@ =~= events_dir_name());
    }
    v
}

/// Copy of a byte string.
fn copy_bytes(v: &Vec<u8>) -> (r: Vec<u8>)
    ensures
        r@ == v@,
{
    let n = v.len();
    let mut out: Vec<u8> = Vec::new();
    let mut i: usize = 0;
    while i < n
        invariant
            n == v@.len(),
            0 <= i <= n,
            out@ == v@.take(i as int),
        decreases n - i,
    {
        out.push(v[i]);
        proof {
            assert(out@ =~= v@.take(i as int + 1));
        }
        i = i + 1;
    }
    proof {
        assert(v@.take(n as int) == v@);
    }
    out
}

} // verus!
