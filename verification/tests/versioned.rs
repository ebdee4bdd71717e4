//! Branch and version semantics: writes at coordinates, ancestry reads,
//! pops and branch forks, against a real backend.

use vsdb::{Ledger, MapxRawVs, VsError, VsStore};

const MAIN: &[u8] = b"main";

#[test]
fn t_write_then_read_later_version() {
    // A write at version v is read back by every later version of the
    // branch while nothing newer lands on the key.
    let mut s = VsStore::open("/tmp/vsdb_test_t_later_version").unwrap();
    let mut l = Ledger::init(&mut s).unwrap();
    let m = MapxRawVs::new(&mut s).unwrap();
    m.insert(&mut s, &l, MAIN, b"k", b"X").unwrap();
    l.version_create(&mut s, MAIN, b"v-next").unwrap();
    assert_eq!(m.get(&s, &l, b"k", MAIN).unwrap(), Some(b"X".to_vec()));
    l.version_create(&mut s, MAIN, b"v-later").unwrap();
    assert_eq!(m.get(&s, &l, b"k", MAIN).unwrap(), Some(b"X".to_vec()));
}

#[test]
fn t_remove_shadows() {
    // A tombstone shadows older writes for all later versions until the
    // next insert.
    let mut s = VsStore::open("/tmp/vsdb_test_t_remove_shadows").unwrap();
    let mut l = Ledger::init(&mut s).unwrap();
    let m = MapxRawVs::new(&mut s).unwrap();
    m.insert(&mut s, &l, MAIN, b"k", b"X").unwrap();
    l.version_create(&mut s, MAIN, b"v1").unwrap();
    m.remove(&mut s, &l, MAIN, b"k").unwrap();
    assert_eq!(m.get(&s, &l, b"k", MAIN).unwrap(), None);
    l.version_create(&mut s, MAIN, b"v2").unwrap();
    assert_eq!(m.get(&s, &l, b"k", MAIN).unwrap(), None);
    m.insert(&mut s, &l, MAIN, b"k", b"Y").unwrap();
    assert_eq!(m.get(&s, &l, b"k", MAIN).unwrap(), Some(b"Y".to_vec()));
}

#[test]
fn t_branch_ancestry_read() {
    // On `main` at `v0` write `k=1`; fork `feat` there; on `feat` create
    // `v1` and write `k=2`; the two branches read their own values, and
    // `feat` at the fork still reads the parent's.
    let mut s = VsStore::open("/tmp/vsdb_test_t_branch_ancestry").unwrap();
    let mut l = Ledger::init(&mut s).unwrap();
    let m = MapxRawVs::new(&mut s).unwrap();
    m.insert(&mut s, &l, MAIN, b"k", b"1").unwrap();
    l.branch_create(&mut s, b"feat", MAIN, b"").unwrap();
    assert_eq!(m.get_by_branch_version(&s, &l, b"k", b"feat", b"").unwrap(), Some(b"1".to_vec()));
    l.version_create(&mut s, b"feat", b"v1").unwrap();
    m.insert(&mut s, &l, b"feat", b"k", b"2").unwrap();
    assert_eq!(m.get(&s, &l, b"k", MAIN).unwrap(), Some(b"1".to_vec()));
    assert_eq!(m.get_by_branch_version(&s, &l, b"k", b"feat", b"v1").unwrap(), Some(b"2".to_vec()));
    assert_eq!(m.get_by_branch_version(&s, &l, b"k", b"feat", b"").unwrap(), Some(b"1".to_vec()));
}

#[test]
fn t_branch_delete_does_not_touch_parent() {
    // Delete `k` on `feat`; `feat` reads absence while `main` keeps its
    // value.
    let mut s = VsStore::open("/tmp/vsdb_test_t_branch_delete").unwrap();
    let mut l = Ledger::init(&mut s).unwrap();
    let m = MapxRawVs::new(&mut s).unwrap();
    m.insert(&mut s, &l, MAIN, b"k", b"1").unwrap();
    l.branch_create(&mut s, b"feat", MAIN, b"").unwrap();
    l.version_create(&mut s, b"feat", b"v2").unwrap();
    m.remove(&mut s, &l, b"feat", b"k").unwrap();
    assert_eq!(m.get_by_branch_version(&s, &l, b"k", b"feat", b"v2").unwrap(), None);
    assert_eq!(m.get(&s, &l, b"k", MAIN).unwrap(), Some(b"1".to_vec()));
}

#[test]
fn t_version_pop() {
    // At the tip: a write followed by a version-create and a pop reads as
    // if the popped version never existed; a write before the popped
    // version survives.
    let mut s = VsStore::open("/tmp/vsdb_test_t_version_pop").unwrap();
    let mut l = Ledger::init(&mut s).unwrap();
    let m = MapxRawVs::new(&mut s).unwrap();

    m.insert(&mut s, &l, MAIN, b"k1", b"V1").unwrap();
    l.version_create(&mut s, MAIN, b"w2").unwrap();
    m.insert(&mut s, &l, MAIN, b"k1", b"V2").unwrap();
    m.version_pop(&mut s, &mut l, MAIN).unwrap();
    assert_eq!(m.get(&s, &l, b"k1", MAIN).unwrap(), Some(b"V1".to_vec()));

    l.version_create(&mut s, MAIN, b"w3").unwrap();
    m.insert(&mut s, &l, MAIN, b"k2", b"A").unwrap();
    m.version_pop(&mut s, &mut l, MAIN).unwrap();
    assert_eq!(m.get(&s, &l, b"k2", MAIN).unwrap(), None);
    // the popped version's name is unregistered
    assert_eq!(
        m.get_by_branch_version(&s, &l, b"k2", MAIN, b"w3"),
        Err(VsError::InvalidCoordinate)
    );
}

#[test]
fn t_error_variants() {
    let mut s = VsStore::open("/tmp/vsdb_test_t_error_variants").unwrap();
    let mut l = Ledger::init(&mut s).unwrap();
    let m = MapxRawVs::new(&mut s).unwrap();

    // unknown branch
    assert_eq!(m.get(&s, &l, b"k", b"nope"), Err(VsError::InvalidCoordinate));
    assert_eq!(m.insert(&mut s, &l, b"nope", b"k", b"v"), Err(VsError::InvalidCoordinate));
    // unknown version name
    assert_eq!(
        m.get_by_branch_version(&s, &l, b"k", MAIN, b"missing"),
        Err(VsError::InvalidCoordinate)
    );
    // duplicated version name
    l.version_create(&mut s, MAIN, b"dup").unwrap();
    assert_eq!(l.version_create(&mut s, MAIN, b"dup"), Err(VsError::Conflict));
    // duplicated branch name; the fork sits at the parent's tip
    l.branch_create(&mut s, b"twin", MAIN, b"dup").unwrap();
    assert_eq!(l.branch_create(&mut s, b"twin", MAIN, b"dup"), Err(VsError::Conflict));
    // a fork at the tip forbids popping the parent's tip
    assert_eq!(l.version_pop(MAIN), Err(VsError::BranchHasDescendants));
}

#[test]
fn t_ancestors_limit() {
    // A chain may not grow past the ancestor bound.
    let mut s = VsStore::open("/tmp/vsdb_test_t_ancestors_limit").unwrap();
    let mut l = Ledger::init(&mut s).unwrap();
    let mut parent: Vec<u8> = MAIN.to_vec();
    let mut fork_at: Vec<u8> = b"".to_vec();
    let mut hit_limit = false;
    for d in 0..200u32 {
        let child = format!("b{}", d).into_bytes();
        let vname = format!("v{}", d).into_bytes();
        match l.branch_create(&mut s, &child, &parent, &fork_at) {
            Ok(_) => {
                l.version_create(&mut s, &child, &vname).unwrap();
                parent = child;
                fork_at = vname;
            }
            Err(e) => {
                assert_eq!(e, VsError::AncestorsExceeded);
                hit_limit = true;
                break;
            }
        }
    }
    assert!(hit_limit);
}

#[test]
fn t_prune() {
    // Keep only the last version: older writes collapse into the cutoff,
    // the tip reads as before, and writes below the cutoff fold into it.
    let mut s = VsStore::open("/tmp/vsdb_test_t_prune").unwrap();
    let mut l = Ledger::init(&mut s).unwrap();
    let m = MapxRawVs::new(&mut s).unwrap();

    m.insert(&mut s, &l, MAIN, b"k", b"old").unwrap();
    m.insert(&mut s, &l, MAIN, b"stable", b"S").unwrap();
    l.version_create(&mut s, MAIN, b"p1").unwrap();
    m.insert(&mut s, &l, MAIN, b"k", b"mid").unwrap();
    l.version_create(&mut s, MAIN, b"p2").unwrap();
    m.insert(&mut s, &l, MAIN, b"k", b"new").unwrap();

    let before_k = m.get(&s, &l, b"k", MAIN).unwrap();
    let before_stable = m.get(&s, &l, b"stable", MAIN).unwrap();

    m.prune(&mut s, &mut l, MAIN, 1).unwrap();

    assert_eq!(m.get(&s, &l, b"k", MAIN).unwrap(), before_k);
    assert_eq!(m.get(&s, &l, b"stable", MAIN).unwrap(), before_stable);
    assert_eq!(before_k, Some(b"new".to_vec()));
    assert_eq!(before_stable, Some(b"S".to_vec()));
    // the pruned intermediate version is unqueryable: its writes collapsed
    // upward, and nothing resolves at the old coordinate any more
    assert_eq!(m.get_by_branch_version(&s, &l, b"k", MAIN, b"p1").unwrap(), None);
}

#[test]
fn t_prune_tombstone() {
    // A delete below the cutoff survives the collapse as a tombstone, so
    // the key still reads absent afterwards.
    let mut s = VsStore::open("/tmp/vsdb_test_t_prune_tomb").unwrap();
    let mut l = Ledger::init(&mut s).unwrap();
    let m = MapxRawVs::new(&mut s).unwrap();

    m.insert(&mut s, &l, MAIN, b"k", b"x").unwrap();
    l.version_create(&mut s, MAIN, b"q1").unwrap();
    m.remove(&mut s, &l, MAIN, b"k").unwrap();
    l.version_create(&mut s, MAIN, b"q2").unwrap();

    m.prune(&mut s, &mut l, MAIN, 1).unwrap();
    assert_eq!(m.get(&s, &l, b"k", MAIN).unwrap(), None);
}

#[test]
fn t_ledger_persistence() {
    // The ledger survives through the meta area: saved, read back, it
    // serialises identically and answers the same queries. The store
    // directory is fresh per run, since the saved ledger would otherwise
    // greet the next run with its names already registered.
    let stamp = std::time::SystemTime::now()
        .duration_since(std::time::UNIX_EPOCH)
        .unwrap()
        .as_nanos();
    let mut s = VsStore::open(&format!("/tmp/vsdb_test_t_ledger_persist_{}", stamp)).unwrap();
    let mut l = Ledger::load_or_init(&mut s).unwrap();
    let m = MapxRawVs::new(&mut s).unwrap();
    m.insert(&mut s, &l, MAIN, b"k", b"v").unwrap();
    l.version_create(&mut s, MAIN, b"pv1").unwrap();
    l.branch_create(&mut s, b"side", MAIN, b"pv1").unwrap();
    l.save(&mut s).unwrap();

    let l2 = Ledger::load(&s).unwrap().expect("a saved ledger reads back");
    assert_eq!(l.encode(), l2.encode());
    assert_eq!(
        m.get_by_branch_version(&s, &l2, b"k", b"side", b"pv1").unwrap(),
        Some(b"v".to_vec())
    );
    assert_eq!(m.get(&s, &l2, b"k", MAIN).unwrap(), Some(b"v".to_vec()));

    // a store without a saved image gets a fresh ledger, saved at once
    let mut s2 = VsStore::open(&format!("/tmp/vsdb_test_t_ledger_fresh_{}", stamp)).unwrap();
    let l3 = Ledger::load_or_init(&mut s2).unwrap();
    let l4 = Ledger::load(&s2).unwrap().expect("load_or_init saved the fresh ledger");
    assert_eq!(l3.encode(), l4.encode());
}

#[test]
fn t_branch_rename_remove() {
    let mut s = VsStore::open("/tmp/vsdb_test_t_rename_remove").unwrap();
    let mut l = Ledger::init(&mut s).unwrap();
    let m = MapxRawVs::new(&mut s).unwrap();
    m.insert(&mut s, &l, MAIN, b"k", b"v").unwrap();
    l.branch_create(&mut s, b"tmp", MAIN, b"").unwrap();

    // rename: old name gone, new name answers
    l.branch_rename(b"tmp", b"kept").unwrap();
    assert_eq!(l.branch_rename(b"tmp", b"other"), Err(VsError::InvalidCoordinate));
    assert_eq!(l.branch_rename(b"kept", b"main"), Err(VsError::Conflict));
    assert_eq!(
        m.get_by_branch_version(&s, &l, b"k", b"kept", b"").unwrap(),
        Some(b"v".to_vec())
    );

    // remove: the default branch is refused; a leaf branch goes away
    assert_eq!(l.branch_remove(MAIN), Err(VsError::InvalidCoordinate));
    l.branch_remove(b"kept").unwrap();
    assert_eq!(m.get(&s, &l, b"k", b"kept"), Err(VsError::InvalidCoordinate));

    // a parent with a live fork is refused, the fork itself removable
    l.branch_create(&mut s, b"mid", MAIN, b"").unwrap();
    l.version_create(&mut s, b"mid", b"mv").unwrap();
    l.branch_create(&mut s, b"leaf", b"mid", b"mv").unwrap();
    assert_eq!(l.branch_remove(b"mid"), Err(VsError::BranchHasDescendants));
    l.branch_remove(b"leaf").unwrap();
    l.branch_remove(b"mid").unwrap();
}
