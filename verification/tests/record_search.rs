use rankless::record_search::{RecordSearch, SearchStep};

/// Drives a search over records held in memory, reading each key the search asks for.
fn lookup(keys: &[Vec<u8>], k: &[u8]) -> Option<u64> {
    let (mut st, mut step) = RecordSearch::start(keys.len() as u64);
    let mut reads = 0;
    loop {
        match step {
            SearchStep::ReadKey(m) => {
                reads += 1;
                assert!(reads <= 70, "the search must end");
                let read = keys.get(m as usize).map(|x| x.as_slice());
                step = st.step(read, k);
            }
            SearchStep::ReadValue(m) => return Some(m),
            SearchStep::Missing => return None,
        }
    }
}

#[test]
fn a_stored_key_is_found_at_its_record() {
    let keys = vec![vec![0, 1], vec![0, 5], vec![2, 0], vec![9, 9]];
    for (i, k) in keys.iter().enumerate() {
        assert_eq!(lookup(&keys, k), Some(i as u64));
    }
}

#[test]
fn a_key_that_no_record_holds_is_missing() {
    let keys = vec![vec![0, 1], vec![0, 5], vec![2, 0], vec![9, 9]];
    assert_eq!(lookup(&keys, &[0, 0]), None);
    assert_eq!(lookup(&keys, &[0, 3]), None);
    assert_eq!(lookup(&keys, &[9, 10]), None);
    assert_eq!(lookup(&keys, &[255, 255]), None);
    assert_eq!(lookup(&[], &[1, 1]), None);
}

#[test]
fn big_endian_ids_are_found_in_id_order() {
    let ids: Vec<u64> = vec![3, 17, 1000, 1 << 40];
    let keys: Vec<Vec<u8>> = ids.iter().map(|x| x.to_be_bytes().to_vec()).collect();
    for (i, id) in ids.iter().enumerate() {
        assert_eq!(lookup(&keys, &id.to_be_bytes()), Some(i as u64));
    }
    assert_eq!(lookup(&keys, &18u64.to_be_bytes()), None);
}

#[test]
fn the_first_read_is_the_middle_record() {
    let (st, step) = RecordSearch::start(7);
    assert_eq!(step, SearchStep::ReadKey(3));
    assert_eq!((st.lo, st.hi, st.mid), (0, 7, 3));
}
