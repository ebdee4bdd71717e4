//! The version ledger: branch and version bookkeeping, and the model of a
//! point-in-time read. A branch records its name, its ordered owned
//! versions, and its ancestor chain of `(ancestor id, fork version)`
//! entries; `resolve` walks that chain over one key's history exactly as
//! the store's read does.

use vstd::prelude::*;
use crate::ende::{bytes_eq, be8, u64_to_be_vec, u64_from_be_slice, push_bytes};
use crate::err::VsError;
use crate::store::{VsStore, RESERVED, INITIAL_BRANCH_ID, BRANCH_ANCESTORS_LIMIT, AREAS, lemma_be8_bytes_of_len8};

verus! {

pub struct BranchInfo {
    pub id: u64,
    pub name: Vec<u8>,
    /// Ancestors outward: `(ancestor id, version the lineage forked at)`.
    pub chain: Vec<(u64, u64)>,
    /// Versions created on this branch, in allocation order.
    pub versions: Vec<u64>,
}

pub struct Ledger {
    pub branches: Vec<BranchInfo>,
    /// The global version-name registry: `(name, id)`, names and ids unique.
    pub vnames: Vec<(Vec<u8>, u64)>,
}

/// One key's stored history: version id to value, or to a tombstone
/// (`None`) left by a delete.
pub type Hist = Map<u64, Option<Seq<u8>>>;

pub open spec fn min64(a: u64, b: u64) -> u64 {
    if a <= b {
        a
    } else {
        b
    }
}

/// The newest version at or below `limit`, among the first `i` of `vers`,
/// that carries an entry in `hist`.
pub open spec fn probe(vers: Seq<u64>, hist: Hist, limit: u64, i: int) -> Option<u64>
    decreases i,
{
    if i <= 0 {
        None
    } else {
        let v = vers[i - 1];
        if v <= limit && hist.contains_key(v) {
            Some(v)
        } else {
            probe(vers, hist, limit, i - 1)
        }
    }
}

impl Ledger {
    pub open spec fn has_branch(&self, id: u64) -> bool {
        exists|i: int| 0 <= i < self.branches@.len() && self.branches@[i].id == id
    }

    pub open spec fn branch_at(&self, id: u64) -> BranchInfo {
        self.branches@[choose|i: int| 0 <= i < self.branches@.len() && self.branches@[i].id == id]
    }

    pub open spec fn branch_versions(&self, id: u64) -> Seq<u64> {
        if self.has_branch(id) {
            self.branch_at(id).versions@
        } else {
            Seq::empty()
        }
    }

    pub open spec fn branch_chain(&self, id: u64) -> Seq<(u64, u64)> {
        if self.has_branch(id) {
            self.branch_at(id).chain@
        } else {
            Seq::empty()
        }
    }

    pub open spec fn has_bname(&self, name: Seq<u8>) -> bool {
        exists|i: int| 0 <= i < self.branches@.len() && self.branches@[i].name@ == name
    }

    pub open spec fn has_vname(&self, name: Seq<u8>) -> bool {
        exists|i: int| 0 <= i < self.vnames@.len() && self.vnames@[i].0@ == name
    }

    pub open spec fn vname_id(&self, name: Seq<u8>) -> u64 {
        self.vnames@[choose|i: int|
            0 <= i < self.vnames@.len() && self.vnames@[i].0@ == name].1
    }

    pub open spec fn owns(&self, id: u64, vid: u64) -> bool {
        self.has_branch(id) && self.branch_versions(id).contains(vid)
    }

    pub open spec fn wf(&self) -> bool {
        &&& forall|i: int, j: int|
            0 <= i < j < self.branches@.len() ==> (#[trigger] self.branches@[i]).id != (
            #[trigger] self.branches@[j]).id
        &&& forall|i: int, j: int|
            0 <= i < j < self.branches@.len() ==> (#[trigger] self.branches@[i]).name@ != (
            #[trigger] self.branches@[j]).name@
        &&& forall|i: int|
            0 <= i < self.branches@.len() ==> (#[trigger] self.branches@[i]).chain@.len()
                <= BRANCH_ANCESTORS_LIMIT
        &&& forall|i: int, a: int, b: int|
            #![trigger self.branches@[i].versions@[a], self.branches@[i].versions@[b]]
            0 <= i < self.branches@.len() && 0 <= a < b < self.branches@[i].versions@.len()
                ==> self.branches@[i].versions@[a] < self.branches@[i].versions@[b]
        &&& forall|i: int, j: int|
            0 <= i < self.vnames@.len() && 0 <= j < self.vnames@.len() && i != j ==> (
            #[trigger] self.vnames@[i]).0@ != (#[trigger] self.vnames@[j]).0@ && self.vnames@[i].1
                != self.vnames@[j].1
    }

    /// Every identifier the ledger holds was drawn from the store's
    /// counter, so a fresh allocation collides with none of them.
    pub open spec fn ids_below(&self, c: u64) -> bool {
        &&& forall|i: int|
            0 <= i < self.branches@.len() ==> (#[trigger] self.branches@[i]).id < c
        &&& forall|i: int, a: int|
            #![trigger self.branches@[i].versions@[a]]
            0 <= i < self.branches@.len() && 0 <= a < self.branches@[i].versions@.len()
                ==> self.branches@[i].versions@[a] < c
        &&& forall|i: int| 0 <= i < self.vnames@.len() ==> (#[trigger] self.vnames@[i]).1 < c
    }
}

/// Walks the entries of an ancestry, newest lineage first: the first entry
/// whose branch carries a qualifying write decides the read.
pub open spec fn resolve_chain(l: &Ledger, entries: Seq<(u64, u64)>, hist: Hist, vcap: u64) -> Option<
    Seq<u8>,
>
    decreases entries.len(),
{
    if entries.len() == 0 {
        None
    } else {
        let a = entries[0].0;
        let lim = min64(vcap, entries[0].1);
        let vers = l.branch_versions(a);
        match probe(vers, hist, lim, vers.len() as int) {
            Some(vid) => hist[vid],
            None => resolve_chain(l, entries.drop_first(), hist, vcap),
        }
    }
}

/// A point-in-time read of one key at `(branch, version)`: the branch's own
/// writes up to `v`, then each ancestor's up to its fork point. `None`
/// stands for absence, whether from a tombstone or from no write at all.
pub open spec fn resolve(l: &Ledger, b: u64, v: u64, hist: Hist) -> Option<Seq<u8>> {
    resolve_chain(l, seq![(b, v)] + l.branch_chain(b), hist, v)
}

/// A probe over versions none of which qualifies finds nothing.
pub proof fn lemma_probe_none(vers: Seq<u64>, hist: Hist, limit: u64, i: int)
    requires
        i <= vers.len(),
        forall|j: int| 0 <= j < i ==> vers[j] > limit || !hist.contains_key(#[trigger] vers[j]),
    ensures
        probe(vers, hist, limit, i) == None::<u64>,
    decreases i,
{
    if i > 0 {
        lemma_probe_none(vers, hist, limit, i - 1);
    }
}

/// A probe finds the qualifying version when everything newer fails.
pub proof fn lemma_probe_finds(vers: Seq<u64>, hist: Hist, limit: u64, t: int, i: int)
    requires
        0 <= t < i <= vers.len(),
        vers[t] <= limit,
        hist.contains_key(vers[t]),
        forall|j: int| t < j < i ==> vers[j] > limit || !hist.contains_key(#[trigger] vers[j]),
    ensures
        probe(vers, hist, limit, i) == Some(vers[t]),
    decreases i,
{
    if i - 1 > t {
        lemma_probe_finds(vers, hist, limit, t, i - 1);
    }
}

/// An empty history resolves to absence on any ancestry.
pub proof fn lemma_resolve_empty(l: &Ledger, entries: Seq<(u64, u64)>, hist: Hist, vcap: u64)
    requires
        forall|vid: u64| !hist.contains_key(vid),
    ensures
        resolve_chain(l, entries, hist, vcap) == None::<Seq<u8>>,
    decreases entries.len(),
{
    if entries.len() > 0 {
        let a = entries[0].0;
        let vers = l.branch_versions(a);
        lemma_probe_none(vers, hist, min64(vcap, entries[0].1), vers.len() as int);
        lemma_resolve_empty(l, entries.drop_first(), hist, vcap);
    }
}

/// A write at version `v` on branch `b` is read back by every later
/// version of `b`, as long as no newer write to the key lands on `b`.
pub proof fn lemma_insert_then_read(l: &Ledger, b: u64, hist: Hist, x: Seq<u8>, v: u64, v2: u64)
    requires
        l.branch_versions(b).contains(v),
        l.branch_versions(b).contains(v2),
        v <= v2,
        forall|a: int, c: int|
            0 <= a < c < l.branch_versions(b).len() ==> l.branch_versions(b)[a]
                < l.branch_versions(b)[c],
        hist.contains_key(v),
        hist[v] == Some(x),
        forall|w: u64| v < w <= v2 ==> !hist.contains_key(w),
    ensures
        resolve(l, b, v2, hist) == Some(x),
{
    let vers = l.branch_versions(b);
    let t = choose|t: int| 0 <= t < vers.len() && vers[t] == v;
    assert forall|j: int| t < j < vers.len() implies vers[j] > v2 || !hist.contains_key(
        #[trigger] vers[j],
    ) by {
        assert(vers[t] < vers[j]);
        if vers[j] <= v2 {
            assert(v < vers[j] <= v2);
        }
    }
    lemma_probe_finds(vers, hist, min64(v2, v2), t, vers.len() as int);
    let entries = seq![(b, v2)] + l.branch_chain(b);
    assert(entries[0] == (b, v2));
    assert(probe(vers, hist, min64(v2, entries[0].1), vers.len() as int) == Some(v));
}

/// A delete at version `v` on branch `b` shadows every older write for all
/// later versions of `b`, until something new is written.
pub proof fn lemma_remove_then_absent(l: &Ledger, b: u64, hist: Hist, v: u64, v2: u64)
    requires
        l.branch_versions(b).contains(v),
        l.branch_versions(b).contains(v2),
        v <= v2,
        forall|a: int, c: int|
            0 <= a < c < l.branch_versions(b).len() ==> l.branch_versions(b)[a]
                < l.branch_versions(b)[c],
        hist.contains_key(v),
        hist[v] == None::<Seq<u8>>,
        forall|w: u64| v < w <= v2 ==> !hist.contains_key(w),
    ensures
        resolve(l, b, v2, hist) == None::<Seq<u8>>,
{
    let vers = l.branch_versions(b);
    let t = choose|t: int| 0 <= t < vers.len() && vers[t] == v;
    assert forall|j: int| t < j < vers.len() implies vers[j] > v2 || !hist.contains_key(
        #[trigger] vers[j],
    ) by {
        assert(vers[t] < vers[j]);
        if vers[j] <= v2 {
            assert(v < vers[j] <= v2);
        }
    }
    lemma_probe_finds(vers, hist, min64(v2, v2), t, vers.len() as int);
    let entries = seq![(b, v2)] + l.branch_chain(b);
    assert(entries[0] == (b, v2));
    assert(probe(vers, hist, min64(v2, entries[0].1), vers.len() as int) == Some(v));
}

/// A key written on the parent at `vp` is visible from a child branch that
/// forked at `f >= vp`, as long as the child wrote nothing to the key and
/// the parent wrote nothing newer below the fork.
pub proof fn lemma_ancestry_read(
    l: &Ledger,
    child: u64,
    parent: u64,
    f: u64,
    hist: Hist,
    x: Seq<u8>,
    vp: u64,
    vcap: u64,
)
    requires
        l.branch_chain(child).len() >= 1,
        l.branch_chain(child)[0] == (parent, f),
        l.branch_versions(parent).contains(vp),
        vp <= f,
        vcap >= f,
        forall|a: int, c: int|
            0 <= a < c < l.branch_versions(parent).len() ==> l.branch_versions(parent)[a]
                < l.branch_versions(parent)[c],
        hist.contains_key(vp),
        hist[vp] == Some(x),
        forall|w: u64| vp < w <= f ==> !hist.contains_key(w),
        forall|w: u64|
            #[trigger] l.branch_versions(child).contains(w) ==> !hist.contains_key(w),
    ensures
        resolve(l, child, vcap, hist) == Some(x),
{
    let cvers = l.branch_versions(child);
    assert forall|j: int| 0 <= j < cvers.len() implies !hist.contains_key(#[trigger] cvers[j]) by {
        assert(l.branch_versions(child).contains(cvers[j]));
    }
    lemma_probe_none(cvers, hist, min64(vcap, vcap), cvers.len() as int);
    let entries = seq![(child, vcap)] + l.branch_chain(child);
    assert(entries[0] == (child, vcap));
    assert(probe(cvers, hist, min64(vcap, entries[0].1), cvers.len() as int) == None::<u64>);
    let rest = entries.drop_first();
    assert(rest[0] == (parent, f));
    let pvers = l.branch_versions(parent);
    let t = choose|t: int| 0 <= t < pvers.len() && pvers[t] == vp;
    assert forall|j: int| t < j < pvers.len() implies pvers[j] > min64(vcap, f)
        || !hist.contains_key(#[trigger] pvers[j]) by {
        assert(pvers[t] < pvers[j]);
        if pvers[j] <= min64(vcap, f) {
            assert(vp < pvers[j] <= f);
        }
    }
    assert(pvers[t] <= min64(vcap, f));
    lemma_probe_finds(pvers, hist, min64(vcap, f), t, pvers.len() as int);
    assert(resolve_chain(l, rest, hist, vcap) == Some(x));
}



/// What creating a version named `vname` with id `vid` on the branch named
/// `bname` does to the ledger.
pub open spec fn version_created(l0: &Ledger, l1: &Ledger, bname: Seq<u8>, vname: Seq<u8>, vid: u64) -> bool {
    &&& l1.branches@.len() == l0.branches@.len()
    &&& exists|i: int|
        #![trigger l0.branches@[i]]
        {
            &&& 0 <= i < l0.branches@.len()
            &&& l0.branches@[i].name@ == bname
            &&& l1.branches@[i].id == l0.branches@[i].id
            &&& l1.branches@[i].name@ == l0.branches@[i].name@
            &&& l1.branches@[i].chain@ == l0.branches@[i].chain@
            &&& l1.branches@[i].versions@ == l0.branches@[i].versions@.push(vid)
            &&& forall|j: int|
                0 <= j < l0.branches@.len() && j != i ==> l1.branches@[j] == #[trigger] l0.branches@[j]
        }
    &&& l1.vnames@.len() == l0.vnames@.len() + 1
    &&& l1.vnames@.last().0@ == vname
    &&& l1.vnames@.last().1 == vid
    &&& forall|j: int| 0 <= j < l0.vnames@.len() ==> l1.vnames@[j] == #[trigger] l0.vnames@[j]
    &&& !l0.has_vname(vname)
}


/// What creating a branch `name` forked from `(parent, fork)` does.
pub open spec fn branch_created(l0: &Ledger, l1: &Ledger, name: Seq<u8>, bid: u64, parent: u64, fork: u64) -> bool {
    &&& l1.branches@.len() == l0.branches@.len() + 1
    &&& forall|j: int| 0 <= j < l0.branches@.len() ==> l1.branches@[j] == #[trigger] l0.branches@[j]
    &&& l1.branches@.last().id == bid
    &&& l1.branches@.last().name@ == name
    &&& l1.branches@.last().versions@.len() == 0
    &&& l1.branches@.last().chain@ == seq![(parent, fork)] + l0.branch_chain(parent)
    &&& l0.has_branch(parent)
    &&& l0.branch_versions(parent).contains(fork)
    &&& !l0.has_bname(name)
    &&& l1.vnames@ == l0.vnames@
}

/// What popping the tip version `vt` of the branch named `bname` does.
pub open spec fn version_popped(l0: &Ledger, l1: &Ledger, bname: Seq<u8>, vt: u64) -> bool {
    &&& l1.branches@.len() == l0.branches@.len()
    &&& exists|i: int|
        #![trigger l0.branches@[i]]
        {
            &&& 0 <= i < l0.branches@.len()
            &&& l0.branches@[i].name@ == bname
            &&& l0.branches@[i].versions@.len() > 0
            &&& vt == l0.branches@[i].versions@.last()
            &&& l1.branches@[i].id == l0.branches@[i].id
            &&& l1.branches@[i].name@ == l0.branches@[i].name@
            &&& l1.branches@[i].chain@ == l0.branches@[i].chain@
            &&& l1.branches@[i].versions@ == l0.branches@[i].versions@.drop_last()
            &&& forall|j: int|
                0 <= j < l0.branches@.len() && j != i ==> l1.branches@[j] == #[trigger] l0.branches@[j]
        }
    &&& forall|n: Seq<u8>| #[trigger] l1.has_vname(n) ==> l0.has_vname(n)
    &&& forall|n: Seq<u8>|
        #[trigger] l0.has_vname(n) && l0.vname_id(n) != vt ==> l1.has_vname(n)
            && l1.vname_id(n) == l0.vname_id(n)
    &&& forall|n: Seq<u8>| #[trigger] l1.has_vname(n) ==> l1.vname_id(n) != vt
}

/// A registered name resolves to the one id it was registered with.
pub proof fn lemma_vname_unique(l: &Ledger, name: Seq<u8>, vid: u64)
    requires
        l.wf(),
        exists|i: int|
            0 <= i < l.vnames@.len() && (#[trigger] l.vnames@[i]).0@ == name && l.vnames@[i].1
                == vid,
    ensures
        l.has_vname(name),
        l.vname_id(name) == vid,
{
    let i = choose|i: int|
        0 <= i < l.vnames@.len() && (#[trigger] l.vnames@[i]).0@ == name && l.vnames@[i].1 == vid;
    assert(l.has_vname(name));
    let j = choose|j: int| 0 <= j < l.vnames@.len() && l.vnames@[j].0@ == name;
    if i != j {
        assert(l.vnames@[i].0@ != l.vnames@[j].0@);
    }
}

/// What retaining only the newest `keep` versions does to the ledger: the
/// branch keeps the tail of its version list, `cutoff` is the oldest
/// retained version, and `removed` are the dropped ids, oldest first.
pub open spec fn pruned(
    l0: &Ledger,
    l1: &Ledger,
    bname: Seq<u8>,
    keep: nat,
    cutoff: u64,
    removed: Seq<u64>,
) -> bool {
    &&& l1.branches@.len() == l0.branches@.len()
    &&& exists|i: int|
        #![trigger l0.branches@[i]]
        {
            &&& 0 <= i < l0.branches@.len()
            &&& l0.branches@[i].name@ == bname
            &&& removed + l1.branches@[i].versions@ == l0.branches@[i].versions@
            &&& l1.branches@[i].versions@.len() == keep
            &&& l1.branches@[i].versions@[0] == cutoff
            &&& l1.branches@[i].id == l0.branches@[i].id
            &&& l1.branches@[i].name@ == l0.branches@[i].name@
            &&& l1.branches@[i].chain@ == l0.branches@[i].chain@
            &&& forall|j: int|
                0 <= j < l0.branches@.len() && j != i ==> l1.branches@[j] == #[trigger] l0.branches@[j]
        }
    &&& l1.vnames@ == l0.vnames@
    &&& forall|t: int| 0 <= t < removed.len() ==> #[trigger] removed[t] < cutoff
    &&& forall|a: int, b: int|
        #![trigger removed[a], removed[b]]
        0 <= a < b < removed.len() ==> removed[a] < removed[b]
}


/// The branch named `name` exists and has at least one version.
pub open spec fn branch_ready(l: &Ledger, name: Seq<u8>) -> bool {
    exists|i: int|
        0 <= i < l.branches@.len() && (#[trigger] l.branches@[i]).name@ == name
            && l.branches@[i].versions@.len() > 0
}

/// Some branch forks from the branch named `name` at or above its tip, so
/// the tip has descendants and may not be popped.
pub open spec fn tip_has_descendants(l: &Ledger, name: Seq<u8>) -> bool {
    exists|i: int, c: int, e: int|
        #![trigger l.branches@[i], l.branches@[c].chain@[e]]
        {
            &&& 0 <= i < l.branches@.len()
            &&& l.branches@[i].name@ == name
            &&& l.branches@[i].versions@.len() > 0
            &&& 0 <= c < l.branches@.len()
            &&& 0 <= e < l.branches@[c].chain@.len()
            &&& l.branches@[c].chain@[e].0 == l.branches@[i].id
            &&& l.branches@[c].chain@[e].1 >= l.branches@[i].versions@.last()
        }
}

/// The version list of the branch named `name` (empty when no such branch).
pub open spec fn bname_versions(l: &Ledger, name: Seq<u8>) -> Seq<u64> {
    if l.has_bname(name) {
        l.branches@[choose|i: int|
            0 <= i < l.branches@.len() && l.branches@[i].name@ == name].versions@
    } else {
        Seq::empty()
    }
}

/// The ancestor chain of the branch named `name`.
pub open spec fn bname_chain(l: &Ledger, name: Seq<u8>) -> Seq<(u64, u64)> {
    if l.has_bname(name) {
        l.branches@[choose|i: int|
            0 <= i < l.branches@.len() && l.branches@[i].name@ == name].chain@
    } else {
        Seq::empty()
    }
}

/// A usable fork coordinate: the parent exists, the version name is
/// registered, and the version lies on the parent.
pub open spec fn fork_ok(l: &Ledger, parent: Seq<u8>, av: Seq<u8>) -> bool {
    l.has_bname(parent) && l.has_vname(av) && bname_versions(l, parent).contains(l.vname_id(av))
}

/// Branch names are unique, so the branch found at index `i` is the one
/// its name resolves to.
pub proof fn lemma_bname_at(l: &Ledger, i: int)
    requires
        l.wf(),
        0 <= i < l.branches@.len(),
    ensures
        l.has_bname(l.branches@[i].name@),
        bname_versions(l, l.branches@[i].name@) == l.branches@[i].versions@,
        bname_chain(l, l.branches@[i].name@) == l.branches@[i].chain@,
        l.branches@[i].versions@.len() > 0 ==> branch_ready(l, l.branches@[i].name@),
        branch_ready(l, l.branches@[i].name@) ==> l.branches@[i].versions@.len() > 0,
{
    let n = l.branches@[i].name@;
    assert(l.has_bname(n));
    let j = choose|j: int| 0 <= j < l.branches@.len() && l.branches@[j].name@ == n;
    if i != j {
        if i < j {
            assert(l.branches@[i].name@ != l.branches@[j].name@);
        } else {
            assert(l.branches@[j].name@ != l.branches@[i].name@);
        }
    }
    if branch_ready(l, n) {
        let k = choose|k: int|
            0 <= k < l.branches@.len() && l.branches@[k].name@ == n
                && l.branches@[k].versions@.len() > 0;
        if i != k {
            if i < k {
                assert(l.branches@[i].name@ != l.branches@[k].name@);
            } else {
                assert(l.branches@[k].name@ != l.branches@[i].name@);
            }
        }
    }
}

/// A branch found at index `i` is the branch its id resolves to.
pub proof fn lemma_branch_at(l: &Ledger, i: int)
    requires
        l.wf(),
        0 <= i < l.branches@.len(),
    ensures
        l.has_branch(l.branches@[i].id),
        l.branch_at(l.branches@[i].id) == l.branches@[i],
{
    let id = l.branches@[i].id;
    assert(l.has_branch(id));
    let j = choose|j: int| 0 <= j < l.branches@.len() && l.branches@[j].id == id;
    if i != j {
        if i < j {
            assert(l.branches@[i].id != l.branches@[j].id);
        } else {
            assert(l.branches@[j].id != l.branches@[i].id);
        }
    }
}

impl Ledger {
    /// A fresh ledger: the default branch under its well-known name, with
    /// the initial version (whose name has length zero) already created.
    pub fn init(s: &mut VsStore) -> (r: Result<Ledger, VsError>)
        requires
            old(s).wf(),
        ensures
            final(s).areas == old(s).areas,
            r matches Ok(l) ==> {
                &&& final(s).wf()
                &&& l.wf()
                &&& l.ids_below(final(s).counter())
                &&& l.branches@.len() == 1
                &&& l.branches@[0].id == INITIAL_BRANCH_ID
                &&& l.branches@[0].name@ == initial_branch_name_spec()
                &&& l.branches@[0].chain@.len() == 0
                &&& l.branches@[0].versions@.len() == 1
                &&& l.vnames@.len() == 1
                &&& l.vnames@[0].0@.len() == 0
                &&& l.vnames@[0].1 == l.branches@[0].versions@[0]
            },
    {
        let v0 = match s.alloc_version_id() {
            Ok(v) => v,
            Err(e) => {
                return Err(e);
            },
        };
        let name = initial_branch_name();
        let main = BranchInfo { id: INITIAL_BRANCH_ID, name, chain: Vec::new(), versions: vec![v0] };
        let mut branches: Vec<BranchInfo> = Vec::new();
        branches.push(main);
        let mut vnames: Vec<(Vec<u8>, u64)> = Vec::new();
        vnames.push((Vec::new(), v0));
        let l = Ledger { branches, vnames };
        Ok(l)
    }

    /// The index of the branch carrying `name`.
    pub fn find_branch(&self, name: &[u8]) -> (r: Option<usize>)
        ensures
            match r {
                Some(i) => i < self.branches@.len() && self.branches@[i as int].name@ == name@,
                None => !self.has_bname(name@),
            },
    {
        let mut i: usize = 0;
        while i < self.branches.len()
            invariant
                0 <= i <= self.branches@.len(),
                forall|j: int| 0 <= j < i ==> (#[trigger] self.branches@[j]).name@ != name@,
            decreases self.branches@.len() - i,
        {
            if bytes_eq(self.branches[i].name.as_slice(), name) {
                return Some(i);
            }
            i = i + 1;
        }
        None
    }

    /// The id registered for a version name.
    pub fn find_version_id(&self, name: &[u8]) -> (r: Option<u64>)
        ensures
            match r {
                Some(vid) => self.has_vname(name@) && exists|i: int|
                    0 <= i < self.vnames@.len() && self.vnames@[i].0@ == name@
                        && self.vnames@[i].1 == vid,
                None => !self.has_vname(name@),
            },
    {
        let mut i: usize = 0;
        while i < self.vnames.len()
            invariant
                0 <= i <= self.vnames@.len(),
                forall|j: int| 0 <= j < i ==> (#[trigger] self.vnames@[j]).0@ != name@,
            decreases self.vnames@.len() - i,
        {
            if bytes_eq(self.vnames[i].0.as_slice(), name) {
                return Some(self.vnames[i].1);
            }
            i = i + 1;
        }
        None
    }

    /// The index of the branch with this id.
    pub fn find_branch_by_id(&self, id: u64) -> (r: Option<usize>)
        ensures
            match r {
                Some(i) => i < self.branches@.len() && self.branches@[i as int].id == id,
                None => !self.has_branch(id),
            },
    {
        let mut i: usize = 0;
        while i < self.branches.len()
            invariant
                0 <= i <= self.branches@.len(),
                forall|j: int| 0 <= j < i ==> (#[trigger] self.branches@[j]).id != id,
            decreases self.branches@.len() - i,
        {
            if self.branches[i].id == id {
                return Some(i);
            }
            i = i + 1;
        }
        None
    }

    /// The branch's id and its tip version.
    pub fn branch_tip(&self, name: &[u8]) -> (r: Result<(u64, u64), VsError>)
        requires
            self.wf(),
        ensures
            match r {
                Ok(t) => self.has_branch(t.0) && self.branch_at(t.0).name@ == name@
                    && self.branch_versions(t.0).len() > 0 && t.1 == self.branch_versions(
                    t.0,
                ).last(),
                Err(e) => e == VsError::InvalidCoordinate,
            },
            (r is Ok) == branch_ready(self, name@),
    {
        let i = match self.find_branch(name) {
            Some(i) => i,
            None => {
                proof {
                    assert(!branch_ready(self, name@)) by {
                        if branch_ready(self, name@) {
                            let k = choose|k: int|
                                0 <= k < self.branches@.len() && self.branches@[k].name@ == name@
                                    && self.branches@[k].versions@.len() > 0;
                            assert(self.has_bname(name@));
                        }
                    }
                }
                return Err(VsError::InvalidCoordinate);
            },
        };
        let b = &self.branches[i];
        if b.versions.len() == 0 {
            proof {
                lemma_bname_at(self, i as int);
            }
            return Err(VsError::InvalidCoordinate);
        }
        let vid = b.versions[b.versions.len() - 1];
        proof {
            lemma_branch_at(self, i as int);
            lemma_bname_at(self, i as int);
        }
        Ok((b.id, vid))
    }

    /// Creates a new version on the named branch. The name must be free
    /// everywhere: version names are globally unique, like the ids they
    /// stand for.
    pub fn version_create(&mut self, s: &mut VsStore, bname: &[u8], vname: &[u8]) -> (r: Result<
        u64,
        VsError,
    >)
        requires
            old(s).wf(),
            old(self).wf(),
            old(self).ids_below(old(s).counter()),
        ensures
            final(s).areas == old(s).areas,
            r matches Ok(vid) ==> final(s).wf() && final(self).wf() && final(self).ids_below(
                final(s).counter(),
            ) && version_created(&*old(self), &*final(self), bname@, vname@, vid),
            r matches Err(_) ==> *final(self) == *old(self),
            (r == Err::<u64, VsError>(VsError::InvalidCoordinate)) == !old(self).has_bname(bname@),
            (r == Err::<u64, VsError>(VsError::Conflict)) == (old(self).has_bname(bname@) && old(
                self,
            ).has_vname(vname@)),
            old(self).has_bname(bname@) && !old(self).has_vname(vname@) ==> r is Ok || r == Err::<
                u64,
                VsError,
            >(VsError::BackendIo),
    {
        let i = match self.find_branch(bname) {
            Some(i) => i,
            None => {
                return Err(VsError::InvalidCoordinate);
            },
        };
        proof {
            assert(self.has_bname(bname@));
        }
        match self.find_version_id(vname) {
            Some(_) => {
                return Err(VsError::Conflict);
            },
            None => {},
        }
        let vid = match s.alloc_version_id() {
            Ok(v) => v,
            Err(e) => {
                return Err(e);
            },
        };
        let nv: Vec<u8> = vstd::slice::slice_to_vec(vname);
        let b = &mut self.branches[i];
        b.versions.push(vid);
        self.vnames.push((nv, vid));
        proof {
            assert forall|a: int, c: int|
                #![trigger self.branches@[a].versions@[c]]
                true implies 0 <= a < self.branches@.len() && 0 <= c
                < self.branches@[a].versions@.len() ==> self.branches@[a].versions@[c]
                < s.counter() by {
                if 0 <= a < self.branches@.len() && 0 <= c < self.branches@[a].versions@.len() {
                    if a == i as int && c == self.branches@[a].versions@.len() - 1 {
                    } else {
                        assert(self.branches@[a].versions@[c] == old(self).branches@[a].versions@[c]);
                    }
                }
            }
        }
        Ok(vid)
    }


    /// Retains only the newest `keep` versions of the named branch in the
    /// ledger and hands back the cutoff (the oldest retained version) with
    /// the ids that were dropped, oldest first; `None` when nothing had to
    /// move.
    pub fn prune(&mut self, bname: &[u8], keep: usize) -> (r: Result<
        Option<(u64, Vec<u64>)>,
        VsError,
    >)
        requires
            old(self).wf(),
        ensures
            final(self).wf(),
            r matches Ok(o) ==> match o {
                Some(cr) => pruned(&*old(self), &*final(self), bname@, keep as nat, cr.0, cr.1@),
                None => *final(self) == *old(self),
            },
            r matches Err(_) ==> *final(self) == *old(self),
            (r is Err) == (keep == 0 || !old(self).has_bname(bname@)),
            r matches Err(e) ==> e == VsError::InvalidCoordinate,
            r matches Ok(o) ==> (o is None) == (bname_versions(&*old(self), bname@).len()
                <= keep),
    {
        if keep == 0 {
            return Err(VsError::InvalidCoordinate);
        }
        let i = match self.find_branch(bname) {
            Some(i) => i,
            None => {
                return Err(VsError::InvalidCoordinate);
            },
        };
        proof {
            lemma_bname_at(self, i as int);
        }
        let n = self.branches[i].versions.len();
        if n <= keep {
            return Ok(None);
        }
        let cut_idx = n - keep;
        let mut removed: Vec<u64> = Vec::new();
        let mut t: usize = 0;
        while t < cut_idx
            invariant
                0 <= t <= cut_idx,
                i < self.branches@.len(),
                cut_idx <= self.branches@[i as int].versions@.len(),
                removed@ =~= self.branches@[i as int].versions@.subrange(0, t as int),
                *self == *old(self),
                cut_idx == n - keep,
                n == self.branches@[i as int].versions@.len(),
            decreases cut_idx - t,
        {
            removed.push(self.branches[i].versions[t]);
            t = t + 1;
        }
        let b = &mut self.branches[i];
        let kept = b.versions.split_off(cut_idx);
        let cutoff = kept[0];
        b.versions = kept;
        proof {
            assert(removed@ + self.branches@[i as int].versions@ =~= old(
                self,
            ).branches@[i as int].versions@);
            let v0 = old(self).branches@[i as int].versions@;
            assert forall|t2: int| 0 <= t2 < removed@.len() implies #[trigger] removed@[t2]
                < cutoff by {
                assert(removed@[t2] == v0[t2]);
                assert(cutoff == v0[cut_idx as int]);
                assert(v0[t2] < v0[cut_idx as int]);
            }
            assert forall|a: int, b: int|
                #![trigger removed@[a], removed@[b]]
                0 <= a < b < removed@.len() implies removed@[a] < removed@[b] by {
                assert(removed@[a] == v0[a] && removed@[b] == v0[b]);
            }
        }
        Ok(Some((cutoff, removed)))
    }

    /// Forks a new branch from `(parent, version)`: an O(1) record of the
    /// fork coordinate; no data is copied.
    pub fn branch_create(
        &mut self,
        s: &mut VsStore,
        name: &[u8],
        parent_name: &[u8],
        at_version: &[u8],
    ) -> (r: Result<u64, VsError>)
        requires
            old(s).wf(),
            old(self).wf(),
            old(self).ids_below(old(s).counter()),
        ensures
            final(s).areas == old(s).areas,
            r matches Ok(bid) ==> final(s).wf() && final(self).wf() && final(self).ids_below(
                final(s).counter(),
            ) && exists|parent: u64, fork: u64|
                branch_created(&*old(self), &*final(self), name@, bid, parent, fork),
            r matches Err(_) ==> *final(self) == *old(self),
            (r == Err::<u64, VsError>(VsError::Conflict)) == old(self).has_bname(name@),
            (r == Err::<u64, VsError>(VsError::InvalidCoordinate)) == (!old(self).has_bname(name@)
                && !fork_ok(&*old(self), parent_name@, at_version@)),
            (r == Err::<u64, VsError>(VsError::AncestorsExceeded)) == (!old(self).has_bname(name@)
                && fork_ok(&*old(self), parent_name@, at_version@) && bname_chain(
                &*old(self),
                parent_name@,
            ).len() >= BRANCH_ANCESTORS_LIMIT),
            !old(self).has_bname(name@) && fork_ok(&*old(self), parent_name@, at_version@)
                && bname_chain(&*old(self), parent_name@).len() < BRANCH_ANCESTORS_LIMIT ==> r
                is Ok || r == Err::<u64, VsError>(VsError::BackendIo),
    {
        match self.find_branch(name) {
            Some(ni) => {
                proof {
                    lemma_bname_at(self, ni as int);
                }
                return Err(VsError::Conflict);
            },
            None => {},
        }
        let pi = match self.find_branch(parent_name) {
            Some(i) => i,
            None => {
                return Err(VsError::InvalidCoordinate);
            },
        };
        proof {
            lemma_bname_at(self, pi as int);
        }
        let fork = match self.find_version_id(at_version) {
            Some(v) => v,
            None => {
                return Err(VsError::InvalidCoordinate);
            },
        };
        proof {
            lemma_vname_unique(self, at_version@, fork);
        }
        let pb = &self.branches[pi];
        let mut owned = false;
        let mut k: usize = 0;
        while k < pb.versions.len()
            invariant
                0 <= k <= pb.versions@.len(),
                pi < self.branches@.len(),
                pb == self.branches@[pi as int],
                owned == pb.versions@.subrange(0, k as int).contains(fork),
            decreases pb.versions@.len() - k,
        {
            if pb.versions[k] == fork {
                owned = true;
                proof {
                    assert(pb.versions@.subrange(0, k + 1)[k as int] == fork);
                }
            } else {
                proof {
                    assert(owned == pb.versions@.subrange(0, k + 1).contains(fork)) by {
                        assert forall|w: int|
                            0 <= w < k + 1 && #[trigger] pb.versions@.subrange(0, k + 1)[w]
                                == fork implies w < k by {
                            if w == k {
                                assert(pb.versions@[k as int] == fork);
                            }
                        }
                        if owned {
                            let w = choose|w: int|
                                0 <= w < k && pb.versions@.subrange(0, k as int)[w] == fork;
                            assert(pb.versions@.subrange(0, k + 1)[w] == fork);
                        }
                    }
                }
            }
            k = k + 1;
        }
        proof {
            assert(pb.versions@.subrange(0, pb.versions@.len() as int) =~= pb.versions@);
        }
        if !owned {
            return Err(VsError::InvalidCoordinate);
        }
        if pb.chain.len() >= BRANCH_ANCESTORS_LIMIT {
            return Err(VsError::AncestorsExceeded);
        }
        let bid = match s.alloc_branch_id() {
            Ok(b) => b,
            Err(e) => {
                return Err(e);
            },
        };
        let pid = self.branches[pi].id;
        let mut chain: Vec<(u64, u64)> = Vec::new();
        chain.push((pid, fork));
        let mut c: usize = 0;
        while c < self.branches[pi].chain.len()
            invariant
                0 <= c <= self.branches@[pi as int].chain@.len(),
                pi < self.branches@.len(),
                chain@ =~= seq![(pid, fork)] + self.branches@[pi as int].chain@.subrange(
                    0,
                    c as int,
                ),
            decreases self.branches@[pi as int].chain@.len() - c,
        {
            let e = self.branches[pi].chain[c];
            chain.push(e);
            c = c + 1;
        }
        proof {
            assert(chain@ =~= seq![(pid, fork)] + self.branches@[pi as int].chain@);
            lemma_branch_at(self, pi as int);
        }
        let nb = BranchInfo {
            id: bid,
            name: vstd::slice::slice_to_vec(name),
            chain,
            versions: Vec::new(),
        };
        self.branches.push(nb);
        proof {
            assert(self.branches@.last().chain@ == seq![(pid, fork)] + old(self).branch_chain(
                pid,
            ));
            assert(branch_created(&*old(self), &*self, name@, bid, pid, fork));
        }
        Ok(bid)
    }

    /// Pops the tip version of the named branch out of the ledger and
    /// unregisters its name. Refused while another branch forks from this
    /// one at or above the tip.
    pub fn version_pop(&mut self, bname: &[u8]) -> (r: Result<u64, VsError>)
        requires
            old(self).wf(),
        ensures
            r matches Ok(vt) ==> final(self).wf() && version_popped(
                &*old(self),
                &*final(self),
                bname@,
                vt,
            ),
            r matches Err(_) ==> *final(self) == *old(self),
            forall|c: u64| final(self).ids_below(c) == old(self).ids_below(c) || (old(
                self,
            ).ids_below(c) ==> final(self).ids_below(c)),
            (r == Err::<u64, VsError>(VsError::InvalidCoordinate)) == !branch_ready(
                &*old(self),
                bname@,
            ),
            (r == Err::<u64, VsError>(VsError::BranchHasDescendants)) == (branch_ready(
                &*old(self),
                bname@,
            ) && tip_has_descendants(&*old(self), bname@)),
            (r is Ok) == (branch_ready(&*old(self), bname@) && !tip_has_descendants(
                &*old(self),
                bname@,
            )),
    {
        let i = match self.find_branch(bname) {
            Some(i) => i,
            None => {
                proof {
                    assert(!branch_ready(self, bname@)) by {
                        if branch_ready(self, bname@) {
                            let k = choose|k: int|
                                0 <= k < self.branches@.len() && self.branches@[k].name@ == bname@
                                    && self.branches@[k].versions@.len() > 0;
                            assert(self.has_bname(bname@));
                        }
                    }
                }
                return Err(VsError::InvalidCoordinate);
            },
        };
        proof {
            lemma_bname_at(self, i as int);
        }
        if self.branches[i].versions.len() == 0 {
            return Err(VsError::InvalidCoordinate);
        }
        let bid = self.branches[i].id;
        let vt = self.branches[i].versions[self.branches[i].versions.len() - 1];
        let mut c: usize = 0;
        while c < self.branches.len()
            invariant
                0 <= c <= self.branches@.len(),
                *self == *old(self),
                self.wf(),
                i < self.branches@.len(),
                self.branches@[i as int].name@ == bname@,
                self.branches@[i as int].versions@.len() > 0,
                bid == self.branches@[i as int].id,
                vt == self.branches@[i as int].versions@.last(),
                forall|a: int, e: int|
                    #![trigger self.branches@[a].chain@[e]]
                    0 <= a < c && 0 <= e < self.branches@[a].chain@.len() ==> !(
                    self.branches@[a].chain@[e].0 == bid && self.branches@[a].chain@[e].1 >= vt),
            decreases self.branches@.len() - c,
        {
            let mut e: usize = 0;
            while e < self.branches[c].chain.len()
                invariant
                    0 <= c < self.branches@.len(),
                    *self == *old(self),
                    self.wf(),
                    i < self.branches@.len(),
                    self.branches@[i as int].name@ == bname@,
                    self.branches@[i as int].versions@.len() > 0,
                    bid == self.branches@[i as int].id,
                    vt == self.branches@[i as int].versions@.last(),
                    0 <= e <= self.branches@[c as int].chain@.len(),
                    forall|a: int, f: int|
                        #![trigger self.branches@[a].chain@[f]]
                        0 <= a < c && 0 <= f < self.branches@[a].chain@.len() ==> !(
                        self.branches@[a].chain@[f].0 == bid && self.branches@[a].chain@[f].1
                            >= vt),
                    forall|f: int|
                        #![trigger self.branches@[c as int].chain@[f]]
                        0 <= f < e ==> !(self.branches@[c as int].chain@[f].0 == bid
                            && self.branches@[c as int].chain@[f].1 >= vt),
                decreases self.branches@[c as int].chain@.len() - e,
            {
                let entry = self.branches[c].chain[e];
                if entry.0 == bid && entry.1 >= vt {
                    proof {
                        assert(tip_has_descendants(self, bname@)) by {
                            assert(self.branches@[i as int].name@ == bname@);
                            assert(self.branches@[c as int].chain@[e as int].0
                                == self.branches@[i as int].id);
                            assert(self.branches@[c as int].chain@[e as int].1
                                >= self.branches@[i as int].versions@.last());
                        }
                    }
                    return Err(VsError::BranchHasDescendants);
                }
                e = e + 1;
            }
            c = c + 1;
        }
        proof {
            assert(!tip_has_descendants(self, bname@)) by {
                if tip_has_descendants(self, bname@) {
                    let (i2, c2, e2): (int, int, int) = choose|i2: int, c2: int, e2: int|
                        #![trigger self.branches@[i2], self.branches@[c2].chain@[e2]]
                        {
                            &&& 0 <= i2 < self.branches@.len()
                            &&& self.branches@[i2].name@ == bname@
                            &&& self.branches@[i2].versions@.len() > 0
                            &&& 0 <= c2 < self.branches@.len()
                            &&& 0 <= e2 < self.branches@[c2].chain@.len()
                            &&& self.branches@[c2].chain@[e2].0 == self.branches@[i2].id
                            &&& self.branches@[c2].chain@[e2].1
                                >= self.branches@[i2].versions@.last()
                        };
                    assert(i2 == i as int) by {
                        if i2 != i as int {
                            if i2 < i as int {
                                assert(self.branches@[i2].name@ != self.branches@[i as int].name@);
                            } else {
                                assert(self.branches@[i as int].name@ != self.branches@[i2].name@);
                            }
                        }
                    }
                    assert(self.branches@[c2].chain@[e2].0 == bid);
                    assert(self.branches@[c2].chain@[e2].1 >= vt);
                }
            }
        }
        let b = &mut self.branches[i];
        b.versions.pop();
        proof {
            assert(self.vnames@ == old(self).vnames@);
        }
        let mut vi: usize = 0;
        let mut found: Option<usize> = None;
        while vi < self.vnames.len() && found.is_none()
            invariant
                0 <= vi <= self.vnames@.len(),
                self.vnames@ == old(self).vnames@,
                self.branches@.len() == old(self).branches@.len(),
                i < self.branches@.len(),
                self.branches@[i as int].id == old(self).branches@[i as int].id,
                self.branches@[i as int].name@ == old(self).branches@[i as int].name@,
                self.branches@[i as int].chain@ == old(self).branches@[i as int].chain@,
                self.branches@[i as int].versions@ == old(self).branches@[
                    i as int
                ].versions@.drop_last(),
                forall|j: int|
                    0 <= j < self.branches@.len() && j != i ==> self.branches@[j] == #[trigger] old(
                        self,
                    ).branches@[j],
                match found {
                    Some(fi) => fi < self.vnames@.len() && self.vnames@[fi as int].1 == vt,
                    None => forall|j: int| 0 <= j < vi ==> (#[trigger] self.vnames@[j]).1 != vt,
                },
            decreases self.vnames@.len() - vi + (if found is None { 1int } else { 0int }),
        {
            if self.vnames[vi].1 == vt {
                found = Some(vi);
            } else {
                vi = vi + 1;
            }
        }
        match found {
            Some(fi) => {
                self.vnames.remove(fi);
                proof {
                    lemma_pop_names(&*old(self), &*self, fi as int, vt);
                }
            },
            None => {
                proof {
                    assert forall|j: int| 0 <= j < old(self).vnames@.len() implies (
                    #[trigger] old(self).vnames@[j]).1 != vt by {
                        assert(old(self).vnames@[j] == self.vnames@[j]);
                    }
                    lemma_pop_names_noop(&*old(self), &*self, vt);
                }
            },
        }
        Ok(vt)
    }
}


/// Name-registry facts after removing the entry of the popped version.
proof fn lemma_pop_names(l0: &Ledger, l1: &Ledger, fi: int, vt: u64)
    requires
        forall|i: int, j: int|
            0 <= i < l0.vnames@.len() && 0 <= j < l0.vnames@.len() && i != j ==> (
            #[trigger] l0.vnames@[i]).0@ != (#[trigger] l0.vnames@[j]).0@ && l0.vnames@[i].1
                != l0.vnames@[j].1,
        0 <= fi < l0.vnames@.len(),
        l0.vnames@[fi].1 == vt,
        l1.vnames@ == l0.vnames@.remove(fi),
    ensures
        forall|i: int, j: int|
            0 <= i < l1.vnames@.len() && 0 <= j < l1.vnames@.len() && i != j ==> (
            #[trigger] l1.vnames@[i]).0@ != (#[trigger] l1.vnames@[j]).0@ && l1.vnames@[i].1
                != l1.vnames@[j].1,
        forall|n: Seq<u8>| #[trigger] l1.has_vname(n) ==> l0.has_vname(n),
        forall|n: Seq<u8>|
            #[trigger] l0.has_vname(n) && l0.vname_id(n) != vt ==> l1.has_vname(n) && l1.vname_id(
                n,
            ) == l0.vname_id(n),
        forall|n: Seq<u8>| #[trigger] l1.has_vname(n) ==> l1.vname_id(n) != vt,
{
    assert forall|j: int| 0 <= j < l1.vnames@.len() implies #[trigger] l1.vnames@[j] == (if j < fi {
        l0.vnames@[j]
    } else {
        l0.vnames@[j + 1]
    }) by {}
    assert forall|n: Seq<u8>| #[trigger] l1.has_vname(n) implies l0.has_vname(n) && l1.vname_id(n)
        != vt && (l0.has_vname(n) ==> l1.vname_id(n) == l0.vname_id(n)) by {
        let j = choose|j: int| 0 <= j < l1.vnames@.len() && l1.vnames@[j].0@ == n;
        let k: int = if j < fi {
            j
        } else {
            j + 1
        };
        assert(l0.vnames@[k] == l1.vnames@[j]);
        assert(l0.has_vname(n));
        let j2 = choose|j2: int| 0 <= j2 < l1.vnames@.len() && l1.vnames@[j2].0@ == n;
        let k2: int = if j2 < fi {
            j2
        } else {
            j2 + 1
        };
        assert(l1.vname_id(n) == l1.vnames@[j2].1);
        assert(l1.vnames@[j2].1 == l0.vnames@[k2].1);
        assert(k2 != fi);
        assert(l0.vnames@[k2].1 != vt);
        let k3 = choose|k3: int| 0 <= k3 < l0.vnames@.len() && l0.vnames@[k3].0@ == n;
        assert(l0.vname_id(n) == l0.vnames@[k3].1);
        if k3 != k2 {
            assert(l0.vnames@[k3].0@ != l0.vnames@[k2].0@);
        }
    }
    assert forall|n: Seq<u8>|
        #[trigger] l0.has_vname(n) && l0.vname_id(n) != vt implies l1.has_vname(n) by {
        let k = choose|k: int| 0 <= k < l0.vnames@.len() && l0.vnames@[k].0@ == n;
        assert(l0.vname_id(n) == l0.vnames@[k].1);
        if k == fi {
            assert(l0.vnames@[k].1 == vt);
        } else {
            let j: int = if k < fi {
                k
            } else {
                k - 1
            };
            assert(l1.vnames@[j] == l0.vnames@[k]);
            assert(l1.has_vname(n));
        }
    }
}

/// Name-registry facts when the popped version had no registered name.
proof fn lemma_pop_names_noop(l0: &Ledger, l1: &Ledger, vt: u64)
    requires
        l1.vnames@ == l0.vnames@,
        forall|j: int| 0 <= j < l0.vnames@.len() ==> (#[trigger] l0.vnames@[j]).1 != vt,
    ensures
        forall|n: Seq<u8>| #[trigger] l1.has_vname(n) ==> l0.has_vname(n),
        forall|n: Seq<u8>|
            #[trigger] l0.has_vname(n) && l0.vname_id(n) != vt ==> l1.has_vname(n) && l1.vname_id(
                n,
            ) == l0.vname_id(n),
        forall|n: Seq<u8>| #[trigger] l1.has_vname(n) ==> l1.vname_id(n) != vt,
{
    assert forall|n: Seq<u8>| #[trigger] l1.has_vname(n) implies l0.has_vname(n) && l1.vname_id(n)
        != vt by {
        let j = choose|j: int| 0 <= j < l1.vnames@.len() && l1.vnames@[j].0@ == n;
        assert(l0.vnames@[j].0@ == n);
        let j2 = choose|j2: int| 0 <= j2 < l1.vnames@.len() && l1.vnames@[j2].0@ == n;
        assert(l1.vname_id(n) == l1.vnames@[j2].1);
        assert(l0.vnames@[j2].1 != vt);
    }
}

/// The well-known name of the default branch.
pub open spec fn initial_branch_name_spec() -> Seq<u8> {
    seq![109u8, 97u8, 105u8, 110u8]
}

/// The default branch's name, as stored bytes.
pub fn initial_branch_name() -> (r: Vec<u8>)
    ensures
        r@ == initial_branch_name_spec(),
{
    let mut r: Vec<u8> = Vec::new();
    r.push(109u8);
    r.push(97u8);
    r.push(105u8);
    r.push(110u8);
    proof {
        assert(r@ =~= initial_branch_name_spec());
    }
    r
}


/// The byte image of a list of ids, 8 bytes each.
pub open spec fn enc_u64s(s: Seq<u64>) -> Seq<u8>
    decreases s.len(),
{
    if s.len() == 0 {
        Seq::empty()
    } else {
        be8(s[0]) + enc_u64s(s.drop_first())
    }
}

/// The byte image of a list of fork entries, 16 bytes each.
pub open spec fn enc_pairs(s: Seq<(u64, u64)>) -> Seq<u8>
    decreases s.len(),
{
    if s.len() == 0 {
        Seq::empty()
    } else {
        be8(s[0].0) + be8(s[0].1) + enc_pairs(s.drop_first())
    }
}

/// The byte image of a length-prefixed name.
pub open spec fn enc_name(n: Seq<u8>) -> Seq<u8> {
    be8(n.len() as u64) + n
}

/// The byte image of one branch record.
pub open spec fn enc_branch(b: BranchInfo) -> Seq<u8> {
    be8(b.id) + enc_name(b.name@) + be8(b.chain@.len() as u64) + enc_pairs(b.chain@) + be8(
        b.versions@.len() as u64,
    ) + enc_u64s(b.versions@)
}

pub open spec fn enc_branches(s: Seq<BranchInfo>) -> Seq<u8>
    decreases s.len(),
{
    if s.len() == 0 {
        Seq::empty()
    } else {
        enc_branch(s[0]) + enc_branches(s.drop_first())
    }
}

pub open spec fn enc_vnames(s: Seq<(Vec<u8>, u64)>) -> Seq<u8>
    decreases s.len(),
{
    if s.len() == 0 {
        Seq::empty()
    } else {
        enc_name(s[0].0@) + be8(s[0].1) + enc_vnames(s.drop_first())
    }
}

/// The serialised form of the whole ledger.
pub open spec fn lenc(l: &Ledger) -> Seq<u8> {
    be8(l.branches@.len() as u64) + enc_branches(l.branches@) + be8(l.vnames@.len() as u64)
        + enc_vnames(l.vnames@)
}

proof fn lemma_enc_u64s_snoc(s: Seq<u64>, j: int)
    requires
        0 <= j < s.len(),
    ensures
        enc_u64s(s.take(j + 1)) == enc_u64s(s.take(j)) + be8(s[j]),
    decreases j,
{
    if j == 0 {
        assert(s.take(1) =~= seq![s[0]]);
        assert(enc_u64s(seq![s[0]]) == be8(s[0]) + enc_u64s(seq![s[0]].drop_first()));
        assert(seq![s[0]].drop_first() =~= Seq::<u64>::empty());
        assert(enc_u64s(Seq::<u64>::empty()) =~= Seq::<u8>::empty());
        assert(enc_u64s(s.take(0)) =~= Seq::<u8>::empty());
        assert(enc_u64s(s.take(1)) =~= enc_u64s(s.take(0)) + be8(s[0]));
    } else {
        let t = s.drop_first();
        lemma_enc_u64s_snoc(t, j - 1);
        assert(s.take(j + 1).drop_first() =~= t.take(j));
        assert(s.take(j).drop_first() =~= t.take(j - 1));
        assert(s.take(j + 1)[0] == s[0] && s.take(j)[0] == s[0]);
        assert(t[j - 1] == s[j]);
        assert(be8(s[0]) + (enc_u64s(t.take(j - 1)) + be8(s[j])) =~= (be8(s[0]) + enc_u64s(
            t.take(j - 1),
        )) + be8(s[j]));
    }
}

proof fn lemma_enc_pairs_snoc(s: Seq<(u64, u64)>, j: int)
    requires
        0 <= j < s.len(),
    ensures
        enc_pairs(s.take(j + 1)) == enc_pairs(s.take(j)) + (be8(s[j].0) + be8(s[j].1)),
    decreases j,
{
    if j == 0 {
        assert(s.take(1) =~= seq![s[0]]);
        assert(enc_pairs(seq![s[0]]) == be8(s[0].0) + be8(s[0].1) + enc_pairs(
            seq![s[0]].drop_first(),
        ));
        assert(seq![s[0]].drop_first() =~= Seq::<(u64, u64)>::empty());
        assert(enc_pairs(Seq::<(u64, u64)>::empty()) =~= Seq::<u8>::empty());
        assert(enc_pairs(s.take(0)) =~= Seq::<u8>::empty());
        assert(enc_pairs(s.take(1)) =~= enc_pairs(s.take(0)) + (be8(s[0].0) + be8(s[0].1)));
    } else {
        let t = s.drop_first();
        lemma_enc_pairs_snoc(t, j - 1);
        assert(s.take(j + 1).drop_first() =~= t.take(j));
        assert(s.take(j).drop_first() =~= t.take(j - 1));
        assert(s.take(j + 1)[0] == s[0] && s.take(j)[0] == s[0]);
        assert(t[j - 1] == s[j]);
        assert(be8(s[0].0) + be8(s[0].1) + (enc_pairs(t.take(j - 1)) + (be8(s[j].0) + be8(
            s[j].1,
        ))) =~= (be8(s[0].0) + be8(s[0].1) + enc_pairs(t.take(j - 1))) + (be8(s[j].0) + be8(
            s[j].1,
        )));
    }
}

proof fn lemma_enc_branches_snoc(s: Seq<BranchInfo>, j: int)
    requires
        0 <= j < s.len(),
    ensures
        enc_branches(s.take(j + 1)) == enc_branches(s.take(j)) + enc_branch(s[j]),
    decreases j,
{
    if j == 0 {
        assert(s.take(1) =~= seq![s[0]]);
        assert(enc_branches(seq![s[0]]) == enc_branch(s[0]) + enc_branches(
            seq![s[0]].drop_first(),
        ));
        assert(seq![s[0]].drop_first() =~= Seq::<BranchInfo>::empty());
        assert(enc_branches(Seq::<BranchInfo>::empty()) =~= Seq::<u8>::empty());
        assert(enc_branches(s.take(0)) =~= Seq::<u8>::empty());
        assert(enc_branches(s.take(1)) =~= enc_branches(s.take(0)) + enc_branch(s[0]));
    } else {
        let t = s.drop_first();
        lemma_enc_branches_snoc(t, j - 1);
        assert(s.take(j + 1).drop_first() =~= t.take(j));
        assert(s.take(j).drop_first() =~= t.take(j - 1));
        assert(s.take(j + 1)[0] == s[0] && s.take(j)[0] == s[0]);
        assert(t[j - 1] == s[j]);
        assert(enc_branch(s[0]) + (enc_branches(t.take(j - 1)) + enc_branch(s[j])) =~= (enc_branch(
            s[0],
        ) + enc_branches(t.take(j - 1))) + enc_branch(s[j]));
    }
}

proof fn lemma_enc_vnames_snoc(s: Seq<(Vec<u8>, u64)>, j: int)
    requires
        0 <= j < s.len(),
    ensures
        enc_vnames(s.take(j + 1)) == enc_vnames(s.take(j)) + (enc_name(s[j].0@) + be8(s[j].1)),
    decreases j,
{
    if j == 0 {
        assert(s.take(1) =~= seq![s[0]]);
        assert(enc_vnames(seq![s[0]]) == enc_name(s[0].0@) + be8(s[0].1) + enc_vnames(
            seq![s[0]].drop_first(),
        ));
        assert(seq![s[0]].drop_first() =~= Seq::<(Vec<u8>, u64)>::empty());
        assert(enc_vnames(Seq::<(Vec<u8>, u64)>::empty()) =~= Seq::<u8>::empty());
        assert(enc_vnames(s.take(0)) =~= Seq::<u8>::empty());
        assert(enc_vnames(s.take(1)) =~= enc_vnames(s.take(0)) + (enc_name(s[0].0@) + be8(
            s[0].1,
        )));
    } else {
        let t = s.drop_first();
        lemma_enc_vnames_snoc(t, j - 1);
        assert(s.take(j + 1).drop_first() =~= t.take(j));
        assert(s.take(j).drop_first() =~= t.take(j - 1));
        assert(s.take(j + 1)[0] == s[0] && s.take(j)[0] == s[0]);
        assert(t[j - 1] == s[j]);
        assert(enc_name(s[0].0@) + be8(s[0].1) + (enc_vnames(t.take(j - 1)) + (enc_name(s[j].0@)
            + be8(s[j].1))) =~= (enc_name(s[0].0@) + be8(s[0].1) + enc_vnames(t.take(j - 1))) + (
        enc_name(s[j].0@) + be8(s[j].1)));
    }
}

impl Ledger {
    /// Writes the ledger out as one byte string.
    #[verifier::rlimit(100)]
    #[verifier::spinoff_prover]
    pub fn encode(&self) -> (r: Vec<u8>)
        ensures
            r@ == lenc(self),
    {
        let mut r = u64_to_be_vec(self.branches.len() as u64);
        let mut i: usize = 0;
        while i < self.branches.len()
            invariant
                0 <= i <= self.branches@.len(),
                r@ == be8(self.branches@.len() as u64) + enc_branches(self.branches@.take(
                    i as int,
                )),
            decreases self.branches@.len() - i,
        {
            let b = &self.branches[i];
            let idb = u64_to_be_vec(b.id);
            push_bytes(&mut r, idb.as_slice());
            let nl = u64_to_be_vec(b.name.len() as u64);
            push_bytes(&mut r, nl.as_slice());
            push_bytes(&mut r, b.name.as_slice());
            let cl = u64_to_be_vec(b.chain.len() as u64);
            push_bytes(&mut r, cl.as_slice());
            let ghost pre_c = r@;
            let mut c: usize = 0;
            while c < b.chain.len()
                invariant
                    0 <= c <= b.chain@.len(),
                    i < self.branches@.len(),
                    b == self.branches@[i as int],
                    r@ == pre_c + enc_pairs(b.chain@.take(c as int)),
                decreases b.chain@.len() - c,
            {
                let e = b.chain[c];
                let e0 = u64_to_be_vec(e.0);
                push_bytes(&mut r, e0.as_slice());
                let e1 = u64_to_be_vec(e.1);
                push_bytes(&mut r, e1.as_slice());
                proof {
                    lemma_enc_pairs_snoc(b.chain@, c as int);
                    assert(r@ =~= pre_c + enc_pairs(b.chain@.take(c + 1)));
                }
                c = c + 1;
            }
            proof {
                assert(b.chain@.take(b.chain@.len() as int) =~= b.chain@);
            }
            let vl = u64_to_be_vec(b.versions.len() as u64);
            push_bytes(&mut r, vl.as_slice());
            let ghost pre_v = r@;
            let mut v: usize = 0;
            while v < b.versions.len()
                invariant
                    0 <= v <= b.versions@.len(),
                    i < self.branches@.len(),
                    b == self.branches@[i as int],
                    r@ == pre_v + enc_u64s(b.versions@.take(v as int)),
                decreases b.versions@.len() - v,
            {
                let vb = u64_to_be_vec(b.versions[v]);
                push_bytes(&mut r, vb.as_slice());
                proof {
                    lemma_enc_u64s_snoc(b.versions@, v as int);
                    assert(r@ =~= pre_v + enc_u64s(b.versions@.take(v + 1)));
                }
                v = v + 1;
            }
            proof {
                assert(b.versions@.take(b.versions@.len() as int) =~= b.versions@);
                lemma_enc_branches_snoc(self.branches@, i as int);
                assert(r@ =~= be8(self.branches@.len() as u64) + enc_branches(
                    self.branches@.take(i + 1),
                ));
            }
            i = i + 1;
        }
        proof {
            assert(self.branches@.take(self.branches@.len() as int) =~= self.branches@);
        }
        let vnl = u64_to_be_vec(self.vnames.len() as u64);
        push_bytes(&mut r, vnl.as_slice());
        let ghost head = be8(self.branches@.len() as u64) + enc_branches(self.branches@) + be8(
            self.vnames@.len() as u64,
        );
        let mut j: usize = 0;
        while j < self.vnames.len()
            invariant
                0 <= j <= self.vnames@.len(),
                r@ == head + enc_vnames(self.vnames@.take(j as int)),
                head == be8(self.branches@.len() as u64) + enc_branches(self.branches@) + be8(
                    self.vnames@.len() as u64,
                ),
            decreases self.vnames@.len() - j,
        {
            let nl = u64_to_be_vec(self.vnames[j].0.len() as u64);
            push_bytes(&mut r, nl.as_slice());
            push_bytes(&mut r, self.vnames[j].0.as_slice());
            let ib = u64_to_be_vec(self.vnames[j].1);
            push_bytes(&mut r, ib.as_slice());
            proof {
                lemma_enc_vnames_snoc(self.vnames@, j as int);
                assert(r@ =~= head + enc_vnames(self.vnames@.take(j + 1)));
            }
            j = j + 1;
        }
        proof {
            assert(self.vnames@.take(self.vnames@.len() as int) =~= self.vnames@);
            assert(r@ =~= lenc(self));
        }
        r
    }
}


/// Reads `n` ids of 8 bytes each, starting at `start`.
fn dec_u64s(b: &[u8], start: usize, n: u64) -> (r: Option<(Vec<u64>, usize)>)
    requires
        start <= b@.len(),
    ensures
        r matches Some(p) ==> start <= p.1 <= b@.len() && p.0@.len() == n && enc_u64s(p.0@)
            == b@.subrange(start as int, p.1 as int),
    decreases n,
{
    if n == 0 {
        let v: Vec<u64> = Vec::new();
        proof {
            assert(v@ =~= Seq::<u64>::empty());
            assert(enc_u64s(v@) =~= b@.subrange(start as int, start as int));
        }
        Some((v, start))
    } else if b.len() - start < 8 {
        None
    } else {
        let x = u64_from_be_slice(vstd::slice::slice_subrange(b, start, start + 8));
        proof {
            assert(b@.subrange(start as int, start + 8) =~= b@.subrange(start as int, start + 8));
            lemma_be8_bytes_of_len8(b@.subrange(start as int, start + 8));
        }
        match dec_u64s(b, start + 8, n - 1) {
            Some((tail, end)) => {
                let mut v: Vec<u64> = Vec::new();
                v.push(x);
                let mut i: usize = 0;
                while i < tail.len()
                    invariant
                        0 <= i <= tail@.len(),
                        v@ =~= seq![x] + tail@.subrange(0, i as int),
                    decreases tail@.len() - i,
                {
                    v.push(tail[i]);
                    i = i + 1;
                }
                proof {
                    assert(v@ =~= seq![x] + tail@);
                    assert(v@.drop_first() =~= tail@);
                    assert(enc_u64s(v@) == be8(v@[0]) + enc_u64s(tail@));
                    assert(be8(x) =~= b@.subrange(start as int, start + 8));
                    assert(b@.subrange(start as int, start + 8) + b@.subrange(
                        start + 8,
                        end as int,
                    ) =~= b@.subrange(start as int, end as int));
                }
                Some((v, end))
            },
            None => None,
        }
    }
}

/// Reads `n` fork entries of 16 bytes each.
fn dec_pairs(b: &[u8], start: usize, n: u64) -> (r: Option<(Vec<(u64, u64)>, usize)>)
    requires
        start <= b@.len(),
    ensures
        r matches Some(p) ==> start <= p.1 <= b@.len() && p.0@.len() == n && enc_pairs(p.0@)
            == b@.subrange(start as int, p.1 as int),
    decreases n,
{
    if n == 0 {
        let v: Vec<(u64, u64)> = Vec::new();
        proof {
            assert(v@ =~= Seq::<(u64, u64)>::empty());
            assert(enc_pairs(v@) =~= b@.subrange(start as int, start as int));
        }
        Some((v, start))
    } else if b.len() - start < 16 {
        None
    } else {
        let x = u64_from_be_slice(vstd::slice::slice_subrange(b, start, start + 8));
        let y = u64_from_be_slice(vstd::slice::slice_subrange(b, start + 8, start + 16));
        proof {
            lemma_be8_bytes_of_len8(b@.subrange(start as int, start + 8));
            lemma_be8_bytes_of_len8(b@.subrange(start + 8, start + 16));
        }
        match dec_pairs(b, start + 16, n - 1) {
            Some((tail, end)) => {
                let mut v: Vec<(u64, u64)> = Vec::new();
                v.push((x, y));
                let mut i: usize = 0;
                while i < tail.len()
                    invariant
                        0 <= i <= tail@.len(),
                        v@ =~= seq![(x, y)] + tail@.subrange(0, i as int),
                    decreases tail@.len() - i,
                {
                    v.push(tail[i]);
                    i = i + 1;
                }
                proof {
                    assert(v@ =~= seq![(x, y)] + tail@);
                    assert(v@.drop_first() =~= tail@);
                    assert(enc_pairs(v@) == be8(v@[0].0) + be8(v@[0].1) + enc_pairs(tail@));
                    assert(be8(x) =~= b@.subrange(start as int, start + 8));
                    assert(be8(y) =~= b@.subrange(start + 8, start + 16));
                    assert(be8(x) + be8(y) =~= b@.subrange(start as int, start + 16));
                    assert(b@.subrange(start as int, start + 16) + b@.subrange(
                        start + 16,
                        end as int,
                    ) =~= b@.subrange(start as int, end as int));
                }
                Some((v, end))
            },
            None => None,
        }
    }
}

/// Reads one length-prefixed name.
fn dec_name(b: &[u8], start: usize) -> (r: Option<(Vec<u8>, usize)>)
    requires
        start <= b@.len(),
    ensures
        r matches Some(p) ==> start <= p.1 <= b@.len() && enc_name(p.0@) == b@.subrange(
            start as int,
            p.1 as int,
        ),
{
    if b.len() - start < 8 {
        return None;
    }
    let ln = u64_from_be_slice(vstd::slice::slice_subrange(b, start, start + 8));
    proof {
        lemma_be8_bytes_of_len8(b@.subrange(start as int, start + 8));
    }
    if ln > (b.len() - (start + 8)) as u64 {
        return None;
    }
    let l2: usize = ln as usize;
    let nm = vstd::slice::slice_to_vec(
        vstd::slice::slice_subrange(b, start + 8, start + 8 + l2),
    );
    proof {
        assert(nm@ =~= b@.subrange(start + 8, start + 8 + l2));
        assert(nm@.len() == ln);
        assert(be8(nm@.len() as u64) =~= b@.subrange(start as int, start + 8));
        assert(enc_name(nm@) =~= b@.subrange(start as int, start + 8 + l2));
    }
    Some((nm, start + 8 + l2))
}

/// Reads one branch record.
fn dec_branch(b: &[u8], start: usize) -> (r: Option<(BranchInfo, usize)>)
    requires
        start <= b@.len(),
    ensures
        r matches Some(p) ==> start <= p.1 <= b@.len() && enc_branch(p.0) == b@.subrange(
            start as int,
            p.1 as int,
        ),
{
    if b.len() - start < 8 {
        return None;
    }
    let id = u64_from_be_slice(vstd::slice::slice_subrange(b, start, start + 8));
    proof {
        lemma_be8_bytes_of_len8(b@.subrange(start as int, start + 8));
    }
    let (name, p1) = match dec_name(b, start + 8) {
        Some(p) => p,
        None => {
            return None;
        },
    };
    if b.len() - p1 < 8 {
        return None;
    }
    let cm = u64_from_be_slice(vstd::slice::slice_subrange(b, p1, p1 + 8));
    proof {
        lemma_be8_bytes_of_len8(b@.subrange(p1 as int, p1 + 8));
    }
    let (chain, p2) = match dec_pairs(b, p1 + 8, cm) {
        Some(p) => p,
        None => {
            return None;
        },
    };
    if b.len() - p2 < 8 {
        return None;
    }
    let vm = u64_from_be_slice(vstd::slice::slice_subrange(b, p2, p2 + 8));
    proof {
        lemma_be8_bytes_of_len8(b@.subrange(p2 as int, p2 + 8));
    }
    let (versions, p3) = match dec_u64s(b, p2 + 8, vm) {
        Some(p) => p,
        None => {
            return None;
        },
    };
    let out = BranchInfo { id, name, chain, versions };
    proof {
        assert(be8(out.id) =~= b@.subrange(start as int, start + 8));
        assert(be8(out.chain@.len() as u64) =~= b@.subrange(p1 as int, p1 + 8));
        assert(be8(out.versions@.len() as u64) =~= b@.subrange(p2 as int, p2 + 8));
        assert(enc_branch(out) =~= b@.subrange(start as int, p3 as int)) by {
            assert(b@.subrange(start as int, start + 8) + b@.subrange(start + 8, p1 as int)
                =~= b@.subrange(start as int, p1 as int));
            assert(b@.subrange(start as int, p1 as int) + b@.subrange(p1 as int, p1 + 8)
                =~= b@.subrange(start as int, p1 + 8));
            assert(b@.subrange(start as int, p1 + 8) + b@.subrange(p1 + 8, p2 as int)
                =~= b@.subrange(start as int, p2 as int));
            assert(b@.subrange(start as int, p2 as int) + b@.subrange(p2 as int, p2 + 8)
                =~= b@.subrange(start as int, p2 + 8));
            assert(b@.subrange(start as int, p2 + 8) + b@.subrange(p2 + 8, p3 as int)
                =~= b@.subrange(start as int, p3 as int));
        }
    }
    Some((out, p3))
}

/// Reads `n` branch records.
fn dec_branches(b: &[u8], start: usize, n: u64) -> (r: Option<(Vec<BranchInfo>, usize)>)
    requires
        start <= b@.len(),
    ensures
        r matches Some(p) ==> start <= p.1 <= b@.len() && p.0@.len() == n && enc_branches(p.0@)
            == b@.subrange(start as int, p.1 as int),
    decreases n,
{
    if n == 0 {
        let v: Vec<BranchInfo> = Vec::new();
        proof {
            assert(v@ =~= Seq::<BranchInfo>::empty());
            assert(enc_branches(v@) =~= b@.subrange(start as int, start as int));
        }
        Some((v, start))
    } else {
        let (head, mid) = match dec_branch(b, start) {
            Some(p) => p,
            None => {
                return None;
            },
        };
        match dec_branches(b, mid, n - 1) {
            Some((tail, end)) => {
                let mut v: Vec<BranchInfo> = Vec::new();
                v.push(head);
                let ghost hd = v@[0];
                let ghost tail0 = tail@;
                let mut tl = tail;
                while tl.len() > 0
                    invariant
                        v@ + tl@ =~= seq![hd] + tail0,
                        v@.len() >= 1,
                        v@[0] == hd,
                    decreases tl@.len(),
                {
                    let e = tl.remove(0);
                    v.push(e);
                    proof {
                        assert(v@ + tl@ =~= seq![hd] + tail0);
                    }
                }
                proof {
                    assert(v@ =~= seq![hd] + tail0);
                    assert(v@.drop_first() =~= tail0);
                    assert(enc_branches(v@) == enc_branch(v@[0]) + enc_branches(tail0));
                    assert(enc_branch(v@[0]) == b@.subrange(start as int, mid as int));
                    assert(b@.subrange(start as int, mid as int) + b@.subrange(
                        mid as int,
                        end as int,
                    ) =~= b@.subrange(start as int, end as int));
                }
                Some((v, end))
            },
            None => None,
        }
    }
}

/// Reads `n` version-name entries.
fn dec_vnames(b: &[u8], start: usize, n: u64) -> (r: Option<(Vec<(Vec<u8>, u64)>, usize)>)
    requires
        start <= b@.len(),
    ensures
        r matches Some(p) ==> start <= p.1 <= b@.len() && p.0@.len() == n && enc_vnames(p.0@)
            == b@.subrange(start as int, p.1 as int),
    decreases n,
{
    if n == 0 {
        let v: Vec<(Vec<u8>, u64)> = Vec::new();
        proof {
            assert(v@ =~= Seq::<(Vec<u8>, u64)>::empty());
            assert(enc_vnames(v@) =~= b@.subrange(start as int, start as int));
        }
        Some((v, start))
    } else {
        let (name, p1) = match dec_name(b, start) {
            Some(p) => p,
            None => {
                return None;
            },
        };
        if b.len() - p1 < 8 {
            return None;
        }
        let id = u64_from_be_slice(vstd::slice::slice_subrange(b, p1, p1 + 8));
        proof {
            lemma_be8_bytes_of_len8(b@.subrange(p1 as int, p1 + 8));
        }
        match dec_vnames(b, p1 + 8, n - 1) {
            Some((tail, end)) => {
                let mut v: Vec<(Vec<u8>, u64)> = Vec::new();
                v.push((name, id));
                let ghost hd = v@[0];
                let ghost tail0 = tail@;
                let mut tl = tail;
                while tl.len() > 0
                    invariant
                        v@ + tl@ =~= seq![hd] + tail0,
                        v@.len() >= 1,
                        v@[0] == hd,
                    decreases tl@.len(),
                {
                    let e = tl.remove(0);
                    v.push(e);
                    proof {
                        assert(v@ + tl@ =~= seq![hd] + tail0);
                    }
                }
                proof {
                    assert(v@ =~= seq![hd] + tail0);
                    assert(v@.drop_first() =~= tail0);
                    assert(enc_vnames(v@) == enc_name(v@[0].0@) + be8(v@[0].1) + enc_vnames(
                        tail0,
                    ));
                    assert(be8(id) =~= b@.subrange(p1 as int, p1 + 8));
                    assert(enc_name(v@[0].0@) + be8(v@[0].1) =~= b@.subrange(
                        start as int,
                        p1 + 8,
                    )) by {
                        assert(b@.subrange(start as int, p1 as int) + b@.subrange(
                            p1 as int,
                            p1 + 8,
                        ) =~= b@.subrange(start as int, p1 + 8));
                    }
                    assert(b@.subrange(start as int, p1 + 8) + b@.subrange(p1 + 8, end as int)
                        =~= b@.subrange(start as int, end as int));
                }
                Some((v, end))
            },
            None => None,
        }
    }
}

impl Ledger {
    /// Reads a ledger back from its serialised form: a successful read is
    /// exactly a preimage of the bytes.
    pub fn decode(b: &[u8]) -> (r: Option<Ledger>)
        ensures
            r matches Some(l2) ==> lenc(&l2) == b@,
    {
        if b.len() < 8 {
            return None;
        }
        let nb = u64_from_be_slice(vstd::slice::slice_subrange(b, 0, 8));
        proof {
            assert(b@.subrange(0, 8) =~= b@.subrange(0, 8));
            lemma_be8_bytes_of_len8(b@.subrange(0, 8));
        }
        let (branches, p1) = match dec_branches(b, 8, nb) {
            Some(p) => p,
            None => {
                return None;
            },
        };
        if b.len() - p1 < 8 {
            return None;
        }
        let nv = u64_from_be_slice(vstd::slice::slice_subrange(b, p1, p1 + 8));
        proof {
            lemma_be8_bytes_of_len8(b@.subrange(p1 as int, p1 + 8));
        }
        let (vnames, p2) = match dec_vnames(b, p1 + 8, nv) {
            Some(p) => p,
            None => {
                return None;
            },
        };
        if p2 != b.len() {
            return None;
        }
        let l2 = Ledger { branches, vnames };
        proof {
            assert(be8(l2.branches@.len() as u64) =~= b@.subrange(0, 8));
            assert(be8(l2.vnames@.len() as u64) =~= b@.subrange(p1 as int, p1 + 8));
            assert(lenc(&l2) =~= b@) by {
                assert(b@.subrange(0, 8) + b@.subrange(8, p1 as int) =~= b@.subrange(
                    0,
                    p1 as int,
                ));
                assert(b@.subrange(0, p1 as int) + b@.subrange(p1 as int, p1 + 8) =~= b@.subrange(
                    0,
                    p1 + 8,
                ));
                assert(b@.subrange(0, p1 + 8) + b@.subrange(p1 + 8, p2 as int) =~= b@.subrange(
                    0,
                    p2 as int,
                ));
                assert(b@.subrange(0, b@.len() as int) =~= b@);
            }
        }
        Some(l2)
    }
}


/// Pairwise order from adjacent order.
proof fn lemma_sorted_from_adjacent(v: Seq<u64>, a: int, b: int)
    requires
        forall|t: int| 0 <= t < v.len() - 1 ==> #[trigger] v[t] < v[t + 1],
        0 <= a < b < v.len(),
    ensures
        v[a] < v[b],
    decreases b - a,
{
    if b == a + 1 {
        assert(v[a] < v[a + 1]);
    } else {
        lemma_sorted_from_adjacent(v, a, b - 1);
        assert(v[b - 1] < v[b]);
    }
}

impl Ledger {
    /// Validates a freshly read ledger: unique branch names and ids,
    /// bounded chains, strictly increasing version lists, a unique name
    /// registry, and every identifier below the store's counter. A passing
    /// check proves the ledger usable.
    #[verifier::rlimit(100)]
    #[verifier::spinoff_prover]
    fn check(&self, c: u64) -> (r: bool)
        ensures
            r ==> self.wf() && self.ids_below(c),
    {
        let mut i: usize = 0;
        while i < self.branches.len()
            invariant
                0 <= i <= self.branches@.len(),
                forall|a: int, b: int|
                    0 <= a < b < i ==> (#[trigger] self.branches@[a]).id != (
                    #[trigger] self.branches@[b]).id,
                forall|a: int, b: int|
                    0 <= a < b < i ==> (#[trigger] self.branches@[a]).name@ != (
                    #[trigger] self.branches@[b]).name@,
                forall|a: int|
                    0 <= a < i ==> (#[trigger] self.branches@[a]).chain@.len()
                        <= BRANCH_ANCESTORS_LIMIT,
                forall|a: int, x: int, y: int|
                    #![trigger self.branches@[a].versions@[x], self.branches@[a].versions@[y]]
                    0 <= a < i && 0 <= x < y < self.branches@[a].versions@.len()
                        ==> self.branches@[a].versions@[x] < self.branches@[a].versions@[y],
                forall|a: int| 0 <= a < i ==> (#[trigger] self.branches@[a]).id < c,
                forall|a: int, x: int|
                    #![trigger self.branches@[a].versions@[x]]
                    0 <= a < i && 0 <= x < self.branches@[a].versions@.len()
                        ==> self.branches@[a].versions@[x] < c,
            decreases self.branches@.len() - i,
        {
            let b = &self.branches[i];
            if b.id >= c {
                return false;
            }
            if b.chain.len() > BRANCH_ANCESTORS_LIMIT {
                return false;
            }
            let mut j: usize = 0;
            while j < i
                invariant
                    0 <= j <= i,
                    i < self.branches@.len(),
                    b == self.branches@[i as int],
                    forall|a: int|
                        0 <= a < j ==> (#[trigger] self.branches@[a]).id != b.id
                            && self.branches@[a].name@ != b.name@,
                decreases i - j,
            {
                if self.branches[j].id == b.id {
                    return false;
                }
                if bytes_eq(self.branches[j].name.as_slice(), b.name.as_slice()) {
                    return false;
                }
                j = j + 1;
            }
            let mut x: usize = 0;
            while x < b.versions.len()
                invariant
                    0 <= x <= b.versions@.len(),
                    i < self.branches@.len(),
                    b == self.branches@[i as int],
                    forall|t: int| 0 <= t < x ==> (#[trigger] b.versions@[t]) < c,
                    forall|t: int|
                        0 <= t < x - 1 ==> (#[trigger] b.versions@[t]) < b.versions@[t + 1],
                decreases b.versions@.len() - x,
            {
                if b.versions[x] >= c {
                    return false;
                }
                if x > 0 {
                    if b.versions[x - 1] >= b.versions[x] {
                        return false;
                    }
                }
                x = x + 1;
            }
            proof {
                assert forall|x2: int, y2: int|
                    #![trigger b.versions@[x2], b.versions@[y2]]
                    0 <= x2 < y2 < b.versions@.len() implies b.versions@[x2] < b.versions@[y2] by {
                    lemma_sorted_from_adjacent(b.versions@, x2, y2);
                }
            }
            i = i + 1;
        }
        let mut p: usize = 0;
        while p < self.vnames.len()
            invariant
                0 <= p <= self.vnames@.len(),
                forall|a: int, b: int|
                    0 <= a < p && 0 <= b < p && a != b ==> (#[trigger] self.vnames@[a]).0@ != (
                    #[trigger] self.vnames@[b]).0@ && self.vnames@[a].1 != self.vnames@[b].1,
                forall|a: int| 0 <= a < p ==> (#[trigger] self.vnames@[a]).1 < c,
            decreases self.vnames@.len() - p,
        {
            if self.vnames[p].1 >= c {
                return false;
            }
            let mut q: usize = 0;
            while q < p
                invariant
                    0 <= q <= p,
                    p < self.vnames@.len(),
                    forall|a: int|
                        0 <= a < q ==> (#[trigger] self.vnames@[a]).0@ != self.vnames@[p as int].0@
                            && self.vnames@[a].1 != self.vnames@[p as int].1,
                decreases p - q,
            {
                if bytes_eq(self.vnames[q].0.as_slice(), self.vnames[p].0.as_slice()) {
                    return false;
                }
                if self.vnames[q].1 == self.vnames[p].1 {
                    return false;
                }
                q = q + 1;
            }
            proof {
                assert forall|a: int, b2: int|
                    0 <= a < p + 1 && 0 <= b2 < p + 1 && a != b2 implies (
                #[trigger] self.vnames@[a]).0@ != (#[trigger] self.vnames@[b2]).0@
                    && self.vnames@[a].1 != self.vnames@[b2].1 by {
                    if b2 == p as int {
                        assert(a < p as int);
                    } else if a == p as int {
                        assert(b2 < p as int);
                        assert(self.vnames@[b2].0@ != self.vnames@[p as int].0@);
                    }
                }
            }
            p = p + 1;
        }
        true
    }

    /// The meta cell the serialised ledger lives under.
    pub open spec fn ledger_cell_key() -> Seq<u8> {
        seq![1u8]
    }

    /// Writes the serialised ledger into the meta area, so branches and
    /// versions survive a restart alongside the data they describe.
    pub fn save(&self, s: &mut VsStore) -> (r: Result<(), VsError>)
        requires
            old(s).wf(),
        ensures
            final(s).areas == old(s).areas,
            r matches Ok(u) ==> final(s).wf() && final(s).counter() == old(s).counter(),
            r matches Ok(u) ==> final(s).meta_map() == old(s).meta_map().insert(
                Self::ledger_cell_key(),
                lenc(self),
            ),
            r matches Err(e) ==> e == VsError::BackendIo,
    {
        let b = self.encode();
        let key: Vec<u8> = vec![1u8];
        proof {
            assert(key@ =~= Self::ledger_cell_key());
            assert(Self::ledger_cell_key() != VsStore::counter_key()) by {
                assert(Self::ledger_cell_key()[0] != VsStore::counter_key()[0]);
            }
        }
        match crate::engine::tree_insert(&mut s.meta, key.as_slice(), b.as_slice()) {
            Ok(_) => {
                proof {
                    assert forall|i: int| 0 <= i < AREAS implies (#[trigger] s.area_map(
                        i,
                    )).dom().finite() by {
                        assert(s.areas@[i] == old(s).areas@[i]);
                        assert(old(s).area_map(i).dom().finite());
                    }
                    assert(s.meta_map()[VsStore::counter_key()] == old(
                        s,
                    ).meta_map()[VsStore::counter_key()]);
                }
                Ok(())
            },
            Err(e) => Err(e),
        }
    }

    /// Reads the ledger back from the meta area: a successful read is a
    /// well-formed preimage of the stored bytes, with every identifier
    /// below the store's counter.
    pub fn load(s: &VsStore) -> (r: Result<Option<Ledger>, VsError>)
        requires
            s.wf(),
        ensures
            r matches Ok(o) ==> match o {
                Some(l2) => s.meta_map().contains_key(Self::ledger_cell_key()) && lenc(&l2)
                    == s.meta_map()[Self::ledger_cell_key()] && l2.wf() && l2.ids_below(
                    s.counter(),
                ),
                None => true,
            },
    {
        let key: Vec<u8> = vec![1u8];
        proof {
            assert(key@ =~= Self::ledger_cell_key());
        }
        let cell = match crate::engine::tree_get(&s.meta, key.as_slice()) {
            Ok(o) => o,
            Err(e) => {
                return Err(e);
            },
        };
        let bytes = match cell {
            Some(b) => b,
            None => {
                return Ok(None);
            },
        };
        let l2 = match Ledger::decode(bytes.as_slice()) {
            Some(l2) => l2,
            None => {
                return Ok(None);
            },
        };
        let ck: Vec<u8> = vec![0u8];
        proof {
            assert(ck@ =~= VsStore::counter_key());
        }
        let cb = match crate::engine::tree_get(&s.meta, ck.as_slice()) {
            Ok(Some(v)) => v,
            Ok(None) => {
                proof {
                    assert(false);
                }
                return Err(VsError::BackendIo);
            },
            Err(e) => {
                return Err(e);
            },
        };
        let c = u64_from_be_slice(cb.as_slice());
        if l2.check(c) {
            Ok(Some(l2))
        } else {
            Ok(None)
        }
    }

    /// The ledger the store wakes up with: the persisted one when the meta
    /// area holds a usable image, else a fresh ledger, saved at once.
    pub fn load_or_init(s: &mut VsStore) -> (r: Result<Ledger, VsError>)
        requires
            old(s).wf(),
        ensures
            r matches Ok(l) ==> final(s).wf() && l.wf() && l.ids_below(final(s).counter()),
    {
        match Ledger::load(s) {
            Ok(Some(l)) => Ok(l),
            Ok(None) => {
                let l = match Ledger::init(s) {
                    Ok(l) => l,
                    Err(e) => {
                        return Err(e);
                    },
                };
                match l.save(s) {
                    Ok(_) => Ok(l),
                    Err(e) => Err(e),
                }
            },
            Err(e) => Err(e),
        }
    }
}


/// The branch named `bname` exists and is the default branch.
pub open spec fn is_initial_branch(l: &Ledger, bname: Seq<u8>) -> bool {
    exists|i: int|
        0 <= i < l.branches@.len() && (#[trigger] l.branches@[i]).name@ == bname
            && l.branches@[i].id == INITIAL_BRANCH_ID
}

/// Some branch's chain references the branch named `bname`, at any
/// version: it has descendants.
pub open spec fn has_forks(l: &Ledger, bname: Seq<u8>) -> bool {
    exists|i: int, c: int, e: int|
        #![trigger l.branches@[i], l.branches@[c].chain@[e]]
        {
            &&& 0 <= i < l.branches@.len()
            &&& l.branches@[i].name@ == bname
            &&& 0 <= c < l.branches@.len()
            &&& 0 <= e < l.branches@[c].chain@.len()
            &&& l.branches@[c].chain@[e].0 == l.branches@[i].id
        }
}

/// What renaming a branch does: one name changes, nothing else.
pub open spec fn branch_renamed(l0: &Ledger, l1: &Ledger, bname: Seq<u8>, new_name: Seq<u8>) -> bool {
    &&& l1.branches@.len() == l0.branches@.len()
    &&& exists|i: int|
        #![trigger l0.branches@[i]]
        {
            &&& 0 <= i < l0.branches@.len()
            &&& l0.branches@[i].name@ == bname
            &&& l1.branches@[i].name@ == new_name
            &&& l1.branches@[i].id == l0.branches@[i].id
            &&& l1.branches@[i].chain@ == l0.branches@[i].chain@
            &&& l1.branches@[i].versions@ == l0.branches@[i].versions@
            &&& forall|j: int|
                0 <= j < l0.branches@.len() && j != i ==> l1.branches@[j] == #[trigger] l0.branches@[j]
        }
    &&& l1.vnames@ == l0.vnames@
}

/// What removing a branch does: its record leaves the list, nothing else.
pub open spec fn branch_removed(l0: &Ledger, l1: &Ledger, bname: Seq<u8>) -> bool {
    &&& l1.branches@.len() == l0.branches@.len() - 1
    &&& exists|i: int|
        #![trigger l0.branches@[i]]
        {
            &&& 0 <= i < l0.branches@.len()
            &&& l0.branches@[i].name@ == bname
            &&& l1.branches@ == l0.branches@.remove(i)
        }
    &&& l1.vnames@ == l0.vnames@
}

impl Ledger {
    /// Renames a branch; the new name must be free.
    pub fn branch_rename(&mut self, bname: &[u8], new_name: &[u8]) -> (r: Result<(), VsError>)
        requires
            old(self).wf(),
        ensures
            r matches Ok(u) ==> final(self).wf() && branch_renamed(
                &*old(self),
                &*final(self),
                bname@,
                new_name@,
            ),
            r matches Err(_) ==> *final(self) == *old(self),
            (r == Err::<(), VsError>(VsError::Conflict)) == old(self).has_bname(new_name@),
            (r == Err::<(), VsError>(VsError::InvalidCoordinate)) == (!old(self).has_bname(
                new_name@,
            ) && !old(self).has_bname(bname@)),
            (r is Ok) == (!old(self).has_bname(new_name@) && old(self).has_bname(bname@)),
    {
        match self.find_branch(new_name) {
            Some(ni) => {
                proof {
                    lemma_bname_at(self, ni as int);
                }
                return Err(VsError::Conflict);
            },
            None => {},
        }
        let i = match self.find_branch(bname) {
            Some(i) => i,
            None => {
                return Err(VsError::InvalidCoordinate);
            },
        };
        proof {
            lemma_bname_at(self, i as int);
        }
        let nn = vstd::slice::slice_to_vec(new_name);
        self.branches[i].name = nn;
        proof {
            assert forall|a: int, b: int|
                0 <= a < b < self.branches@.len() implies (#[trigger] self.branches@[a]).name@
                != (#[trigger] self.branches@[b]).name@ by {
                if a != i as int && b != i as int {
                    assert(self.branches@[a] == old(self).branches@[a]);
                    assert(self.branches@[b] == old(self).branches@[b]);
                } else if a == i as int {
                    assert(self.branches@[b].name@ == old(self).branches@[b].name@);
                } else {
                    assert(self.branches@[a].name@ == old(self).branches@[a].name@);
                }
            }
        }
        Ok(())
    }

    /// Removes a branch: refused for the default branch, and while any
    /// other branch forks from it. The registry keeps the names of its
    /// versions, so those names stay spent.
    pub fn branch_remove(&mut self, bname: &[u8]) -> (r: Result<(), VsError>)
        requires
            old(self).wf(),
        ensures
            r matches Ok(u) ==> final(self).wf() && branch_removed(
                &*old(self),
                &*final(self),
                bname@,
            ),
            r matches Err(_) ==> *final(self) == *old(self),
            (r == Err::<(), VsError>(VsError::InvalidCoordinate)) == (!old(self).has_bname(bname@)
                || is_initial_branch(&*old(self), bname@)),
            (r == Err::<(), VsError>(VsError::BranchHasDescendants)) == (old(self).has_bname(
                bname@,
            ) && !is_initial_branch(&*old(self), bname@) && has_forks(&*old(self), bname@)),
            (r is Ok) == (old(self).has_bname(bname@) && !is_initial_branch(&*old(self), bname@)
                && !has_forks(&*old(self), bname@)),
    {
        let i = match self.find_branch(bname) {
            Some(i) => i,
            None => {
                return Err(VsError::InvalidCoordinate);
            },
        };
        proof {
            lemma_bname_at(self, i as int);
        }
        let bid = self.branches[i].id;
        if bid == INITIAL_BRANCH_ID {
            proof {
                assert(is_initial_branch(self, bname@)) by {
                    assert(self.branches@[i as int].name@ == bname@);
                    assert(self.branches@[i as int].id == INITIAL_BRANCH_ID);
                }
            }
            return Err(VsError::InvalidCoordinate);
        }
        proof {
            assert(!is_initial_branch(self, bname@)) by {
                if is_initial_branch(self, bname@) {
                    let k = choose|k: int|
                        0 <= k < self.branches@.len() && self.branches@[k].name@ == bname@
                            && self.branches@[k].id == INITIAL_BRANCH_ID;
                    if k != i as int {
                        if k < i as int {
                            assert(self.branches@[k].name@ != self.branches@[i as int].name@);
                        } else {
                            assert(self.branches@[i as int].name@ != self.branches@[k].name@);
                        }
                    }
                }
            }
        }
        let mut c: usize = 0;
        while c < self.branches.len()
            invariant
                0 <= c <= self.branches@.len(),
                *self == *old(self),
                self.wf(),
                i < self.branches@.len(),
                self.branches@[i as int].name@ == bname@,
                bid == self.branches@[i as int].id,
                !is_initial_branch(&*old(self), bname@),
                forall|a: int, e: int|
                    #![trigger self.branches@[a].chain@[e]]
                    0 <= a < c && 0 <= e < self.branches@[a].chain@.len()
                        ==> self.branches@[a].chain@[e].0 != bid,
            decreases self.branches@.len() - c,
        {
            let mut e: usize = 0;
            while e < self.branches[c].chain.len()
                invariant
                    0 <= c < self.branches@.len(),
                    *self == *old(self),
                    self.wf(),
                    i < self.branches@.len(),
                    self.branches@[i as int].name@ == bname@,
                    bid == self.branches@[i as int].id,
                    !is_initial_branch(&*old(self), bname@),
                    0 <= e <= self.branches@[c as int].chain@.len(),
                    forall|a: int, f: int|
                        #![trigger self.branches@[a].chain@[f]]
                        0 <= a < c && 0 <= f < self.branches@[a].chain@.len()
                            ==> self.branches@[a].chain@[f].0 != bid,
                    forall|f: int|
                        #![trigger self.branches@[c as int].chain@[f]]
                        0 <= f < e ==> self.branches@[c as int].chain@[f].0 != bid,
                decreases self.branches@[c as int].chain@.len() - e,
            {
                if self.branches[c].chain[e].0 == bid {
                    proof {
                        assert(has_forks(self, bname@));
                    }
                    return Err(VsError::BranchHasDescendants);
                }
                e = e + 1;
            }
            c = c + 1;
        }
        proof {
            assert(!has_forks(self, bname@)) by {
                if has_forks(self, bname@) {
                    let (i2, c2, e2): (int, int, int) = choose|i2: int, c2: int, e2: int|
                        #![trigger self.branches@[i2], self.branches@[c2].chain@[e2]]
                        {
                            &&& 0 <= i2 < self.branches@.len()
                            &&& self.branches@[i2].name@ == bname@
                            &&& 0 <= c2 < self.branches@.len()
                            &&& 0 <= e2 < self.branches@[c2].chain@.len()
                            &&& self.branches@[c2].chain@[e2].0 == self.branches@[i2].id
                        };
                    assert(i2 == i as int) by {
                        if i2 != i as int {
                            if i2 < i as int {
                                assert(self.branches@[i2].name@ != self.branches@[i as int].name@);
                            } else {
                                assert(self.branches@[i as int].name@ != self.branches@[i2].name@);
                            }
                        }
                    }
                    assert(self.branches@[c2].chain@[e2].0 == bid);
                }
            }
        }
        self.branches.remove(i);
        proof {
            assert forall|j: int| 0 <= j < self.branches@.len() implies #[trigger] self.branches@[j]
                == (if j < i as int {
                old(self).branches@[j]
            } else {
                old(self).branches@[j + 1]
            }) by {}
            assert forall|a: int, b: int|
                0 <= a < b < self.branches@.len() implies (#[trigger] self.branches@[a]).id != (
                #[trigger] self.branches@[b]).id && self.branches@[a].name@
                != self.branches@[b].name@ by {
                let a0: int = if a < i as int {
                    a
                } else {
                    a + 1
                };
                let b0: int = if b < i as int {
                    b
                } else {
                    b + 1
                };
                assert(self.branches@[a] == old(self).branches@[a0]);
                assert(self.branches@[b] == old(self).branches@[b0]);
                assert(0 <= a0 < b0 < old(self).branches@.len());
            }
        }
        Ok(())
    }
}

} // verus!
