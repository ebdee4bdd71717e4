//! The unversioned typed ordered map, exercised against a real backend.

use vsdb::{gen_sample, KBound, MapxOrd, MapxRaw, SampleBlock, VsError, VsStore};

#[test]
fn t_mapx_oc() {
    let mut s = VsStore::open("/tmp/vsdb_test_t_mapx_oc").unwrap();
    let cnt: usize = 200;

    let db = {
        let dbi: MapxOrd<usize, SampleBlock> = MapxOrd::new(&mut s).unwrap();

        assert_eq!(0, dbi.len(&s).unwrap());
        for i in 0..cnt {
            assert!(dbi.get(&s, &i).unwrap().is_none());
        }

        for i in 0..cnt {
            let b = gen_sample(i);
            dbi.entry_or_insert(&mut s, &i, &b).unwrap();
            assert_eq!((1 + i) as u64, dbi.len(&s).unwrap());
            assert_eq!(dbi.get(&s, &i).unwrap().unwrap().idx, i);
            assert_eq!(dbi.remove(&mut s, &i).unwrap(), Some(b.clone()));
            assert_eq!(i as u64, dbi.len(&s).unwrap());
            assert!(dbi.get(&s, &i).unwrap().is_none());
            assert!(dbi.insert(&mut s, &i, &b).unwrap().is_none());
            assert!(dbi.insert(&mut s, &i, &b).unwrap().is_some());
        }

        assert_eq!(cnt as u64, dbi.len(&s).unwrap());

        dbi.to_bytes()
    };

    let reloaded: MapxOrd<usize, SampleBlock> = MapxOrd::from_bytes(&db).unwrap();

    assert_eq!(cnt as u64, reloaded.len(&s).unwrap());

    for i in 0..cnt {
        assert_eq!(i, reloaded.get(&s, &i).unwrap().unwrap().idx);
    }

    for i in 1..cnt {
        let mut v = reloaded.get(&s, &i).unwrap().unwrap();
        v.idx = 1 + i;
        reloaded.insert(&mut s, &i, &v).unwrap();
        assert_eq!(reloaded.get(&s, &i).unwrap().unwrap().idx, 1 + i);
        assert!(reloaded.contains_key(&s, &i).unwrap());
        assert!(reloaded.remove(&mut s, &i).unwrap().is_some());
        assert!(!reloaded.contains_key(&s, &i).unwrap());
    }

    assert_eq!(1, reloaded.len(&s).unwrap());
    reloaded.clear(&mut s).unwrap();
    assert!(reloaded.is_empty(&s).unwrap());

    reloaded.insert(&mut s, &1, &gen_sample(1)).unwrap();
    reloaded.insert(&mut s, &10, &gen_sample(10)).unwrap();
    reloaded.insert(&mut s, &100, &gen_sample(100)).unwrap();
    reloaded.insert(&mut s, &1000, &gen_sample(1000)).unwrap();

    let r = reloaded.range(&s, &KBound::Incl(0), &KBound::Excl(1)).unwrap();
    assert!(r.is_empty());

    let r = reloaded.range(&s, &KBound::Incl(12), &KBound::Excl(999)).unwrap();
    assert_eq!(100, r[0].1.idx);
    let r = reloaded.range(&s, &KBound::Incl(12), &KBound::Incl(999)).unwrap();
    assert_eq!(100, r[0].1.idx);

    let r = reloaded.range(&s, &KBound::Incl(100), &KBound::Incl(999)).unwrap();
    assert_eq!(100, r[0].1.idx);
    let r = reloaded.range(&s, &KBound::Excl(100), &KBound::Incl(999)).unwrap();
    assert!(r.is_empty());

    assert_eq!(100, reloaded.get_ge(&s, &99).unwrap().unwrap().1.idx);
    assert_eq!(100, reloaded.get_ge(&s, &100).unwrap().unwrap().1.idx);
    assert_eq!(100, reloaded.get_le(&s, &100).unwrap().unwrap().1.idx);
    assert_eq!(100, reloaded.get_le(&s, &101).unwrap().unwrap().1.idx);
}

#[test]
fn t_handle_round_trip() {
    let mut s = VsStore::open("/tmp/vsdb_test_t_handle_round_trip").unwrap();
    let m: MapxOrd<u64, u64> = MapxOrd::new(&mut s).unwrap();
    for i in 0..20u64 {
        m.insert(&mut s, &i, &(i * 7)).unwrap();
    }
    let bytes = m.to_bytes();
    let m2: MapxOrd<u64, u64> = MapxOrd::from_bytes(&bytes).unwrap();
    assert_eq!(m2.len(&s).unwrap(), 20);
    let all = m.iter(&s).unwrap();
    let all2 = m2.iter(&s).unwrap();
    assert_eq!(all.len(), all2.len());
    for i in 0..all.len() {
        assert_eq!(all[i].0, all2[i].0);
        assert_eq!(all[i].1, all2[i].1);
        assert_eq!(all[i].0, i as u64);
    }
}

#[test]
fn t_ordered_iteration() {
    let mut s = VsStore::open("/tmp/vsdb_test_t_ordered_iteration").unwrap();
    let m: MapxOrd<u64, u64> = MapxOrd::new(&mut s).unwrap();
    for &k in &[500u64, 3, 77, 1000, 0, 12] {
        m.insert(&mut s, &k, &k).unwrap();
    }
    let all = m.iter(&s).unwrap();
    let keys: Vec<u64> = all.iter().map(|p| p.0).collect();
    assert_eq!(keys, vec![0, 3, 12, 77, 500, 1000]);
}

#[test]
fn t_decode_error() {
    let mut s = VsStore::open("/tmp/vsdb_test_t_decode_error").unwrap();
    let m: MapxOrd<u64, u64> = MapxOrd::new(&mut s).unwrap();
    m.insert(&mut s, &5, &55).unwrap();
    // Alias the same namespace through a raw handle and plant bytes that
    // are nobody's encoding.
    let raw = MapxRaw::from_bytes(&m.to_bytes()).unwrap();
    let key5 = vsdb::u64_to_be_vec(5);
    raw.insert(&mut s, &key5, &[1, 2, 3]).unwrap();
    assert_eq!(m.get(&s, &5), Err(VsError::DecodeError));
}

#[test]
fn t_prefix_allocation_distinct() {
    let mut s = VsStore::open("/tmp/vsdb_test_t_prefix_alloc").unwrap();
    let a: MapxOrd<u64, u64> = MapxOrd::new(&mut s).unwrap();
    let b: MapxOrd<u64, u64> = MapxOrd::new(&mut s).unwrap();
    assert_ne!(a.to_bytes(), b.to_bytes());
    a.insert(&mut s, &1, &10).unwrap();
    assert!(b.get(&s, &1).unwrap().is_none());
    assert_eq!(b.len(&s).unwrap(), 0);
}

#[test]
fn t_vecx_push_get() {
    let mut s = VsStore::open("/tmp/vsdb_test_t_vecx").unwrap();
    let v: vsdb::Vecx<u64> = vsdb::Vecx::new(&mut s).unwrap();
    assert_eq!(v.len(&s).unwrap(), 0);
    for i in 0..10u64 {
        let at = v.push(&mut s, &(i * 3)).unwrap();
        assert_eq!(at, i);
    }
    assert_eq!(v.len(&s).unwrap(), 10);
    for i in 0..10u64 {
        assert_eq!(v.get_at(&s, i).unwrap(), Some(i * 3));
    }
    assert_eq!(v.get_at(&s, 10).unwrap(), None);
}

#[test]
fn t_orphan_cell() {
    let mut s = VsStore::open("/tmp/vsdb_test_t_orphan").unwrap();
    let c: vsdb::Orphan<u64> = vsdb::Orphan::new(&mut s).unwrap();
    assert_eq!(c.get_value(&s).unwrap(), None);
    c.set_value(&mut s, &42).unwrap();
    assert_eq!(c.get_value(&s).unwrap(), Some(42));
    c.set_value(&mut s, &7).unwrap();
    assert_eq!(c.get_value(&s).unwrap(), Some(7));
}

#[test]
fn t_mapx_unordered() {
    let mut s = VsStore::open("/tmp/vsdb_test_t_mapx_unordered").unwrap();
    let m: vsdb::Mapx<u64, u64> = vsdb::Mapx::new(&mut s).unwrap();
    assert!(m.is_empty(&s).unwrap());
    assert!(m.insert(&mut s, &7, &70).unwrap().is_none());
    assert!(m.insert(&mut s, &9, &90).unwrap().is_none());
    assert_eq!(m.insert(&mut s, &7, &71).unwrap(), Some(70));
    assert_eq!(m.len(&s).unwrap(), 2);
    assert_eq!(m.get(&s, &7).unwrap(), Some(71));
    assert!(m.contains_key(&s, &9).unwrap());
    assert_eq!(m.remove(&mut s, &9).unwrap(), Some(90));
    assert!(!m.contains_key(&s, &9).unwrap());
    let m2: vsdb::Mapx<u64, u64> = vsdb::Mapx::from_bytes(&m.to_bytes()).unwrap();
    assert_eq!(m2.get(&s, &7).unwrap(), Some(71));
    m.clear(&mut s).unwrap();
    assert!(m.is_empty(&s).unwrap());
}
