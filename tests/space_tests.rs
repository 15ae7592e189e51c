use address_space::{AddressSpace, Section, SpaceError};

fn collect(address_space: AddressSpace) -> Vec<(u32, Vec<u8>)> {
    let mut out = Vec::new();
    let mut iter = address_space.into_iter();
    while let Some(section) = iter.next() {
        out.push((section.start_addr(), section.data().clone()));
    }
    out
}

#[test]
fn neighbor_find_empty() {
    let sec = Section::new(0, vec![2, 3, 4, 5]);
    let address_space = AddressSpace::from_sections(Vec::new()).unwrap();
    assert_eq!(address_space.find_neighboring_section(&sec), None);
}

#[test]
fn neighbor_find_one() {
    let sec = Section::new(0, vec![2, 3, 4, 5]);
    let sec_two = Section::new(4, vec![2, 3, 4, 5]);

    let mut map = Vec::new();
    map.push(sec_two);

    let address_space = AddressSpace::from_sections(map).unwrap();

    assert!(address_space.find_neighboring_section(&sec).is_some());
    let neighbor_sec = address_space.find_neighboring_section(&sec).unwrap();

    assert_eq!(neighbor_sec.start_addr(), 4);
    assert_eq!(neighbor_sec.data(), &vec![2, 3, 4, 5]);
}

#[test]
fn neighbor_find_not_contig() {
    // length of section is 3, should thus
    // not have a neighbor.
    let sec = Section::new(0, vec![2, 3, 4]);
    let sec_two = Section::new(4, vec![2, 3, 4, 5]);

    let mut map = Vec::new();
    map.push(sec_two);

    let address_space = AddressSpace::from_sections(map).unwrap();

    assert!(address_space.find_neighboring_section(&sec).is_none());
}

#[test]
fn test_conslidate_hole() {
    let sec = Section::new(0, vec![2, 3, 4]);
    let sec_two = Section::new(4, vec![2, 3, 4, 5]);

    let mut map = Vec::new();
    map.push(sec);
    map.push(sec_two);
    let mut address_space = AddressSpace::from_sections(map).unwrap();

    assert_eq!(address_space.segement_count(), 2);
    address_space.consolidate();
    assert_eq!(address_space.segement_count(), 2);
}

#[test]
fn test_conslidate() {
    let sec = Section::new(0, vec![2, 3, 4, 5]);
    let sec_two = Section::new(4, vec![2, 3, 4, 5]);

    let mut map = Vec::new();
    map.push(sec);
    map.push(sec_two);
    let mut address_space = AddressSpace::from_sections(map).unwrap();

    assert_eq!(address_space.segement_count(), 2);
    address_space.consolidate();
    assert_eq!(address_space.segement_count(), 1);
    let sections = collect(address_space);
    assert_eq!(sections[0].1, vec![2, 3, 4, 5, 2, 3, 4, 5]);
}

#[test]
fn test_read() {
    let sec = Section::new(0, vec![2, 3, 4, 5]);
    let sec_two = Section::new(4, vec![2, 3, 4, 5]);

    let mut map = Vec::new();
    map.push(sec);
    map.push(sec_two);
    let mut address_space = AddressSpace::from_sections(map).unwrap();
    address_space.consolidate();

    let bytes = address_space.read_bytes(3, 4).unwrap();
    assert_eq!(bytes, vec![5, 2, 3, 4]);
}

#[test]
fn test_get_bytes_none() {
    let address_space = AddressSpace::from_sections(Vec::new()).unwrap();

    let bytes = address_space.read_bytes(3, 4);
    assert!(bytes.is_none());
}

#[test]
fn test_insert_multi() {
    let mut address_space = AddressSpace::new();
    address_space.update(300, &vec![1, 2, 3, 4, 5]).unwrap();
    assert_eq!(address_space.read_bytes(300, 5).unwrap(), vec![1, 2, 3, 4, 5]);
}

#[test]
fn record_iterator() {
    let mut address_space = AddressSpace::from_sections(Vec::new()).unwrap();
    address_space.update_byte(1, 10);
    address_space.update_byte(0, 32);
    address_space.update_byte(3, 2);

    address_space.update_byte(100, 30);
    address_space.update_byte(400, 20);

    let expected_values = vec![
        (0, vec![32, 10]),
        (3, vec![2]),
        (100, vec![30]),
        (400, vec![20]),
    ];
    for (index, i) in collect(address_space).into_iter().enumerate() {
        assert_eq!(expected_values[index].0, i.0);
        assert_eq!(expected_values[index].1, i.1);
    }
}

#[test]
fn size_checking() {
    let mut address_space = AddressSpace::new();
    assert_eq!(address_space.size(), 0);

    address_space.update_byte(1, 2);
    assert_eq!(address_space.size(), 1);

    address_space.update_byte(5, 3);
    assert_eq!(address_space.size(), 2);
}

#[test]
fn two_ranges_merge_into_one_section() {
    let mut address_space = AddressSpace::new();
    address_space.update(0, &vec![1, 2, 3, 4, 5]).unwrap();
    address_space.update(5, &vec![6, 7, 8, 9]).unwrap();
    assert_eq!(address_space.read_bytes(0, 9), Some(vec![1, 2, 3, 4, 5, 6, 7, 8, 9]));
    assert_eq!(address_space.segement_count(), 1);
}

#[test]
fn single_bytes_merge_only_when_adjacent() {
    let mut address_space = AddressSpace::new();
    address_space.update_byte(1, 11);
    address_space.update_byte(0, 10);
    address_space.update_byte(3, 13);
    assert_eq!(address_space.segement_count(), 2);
    assert_eq!(collect(address_space), vec![(0, vec![10, 11]), (3, vec![13])]);
}

#[test]
fn read_across_unmerged_sections_is_undefined() {
    let map = vec![Section::new(0, vec![1, 2, 3, 4]), Section::new(4, vec![5, 6, 7, 8])];
    let mut address_space = AddressSpace::from_sections(map).unwrap();
    assert_eq!(address_space.read_bytes(3, 4), None);
    assert!(!address_space.is_defined(3, 4));
    address_space.consolidate();
    assert_eq!(address_space.read_bytes(3, 4), Some(vec![4, 5, 6, 7]));
    assert!(address_space.is_defined(3, 4));
}

#[test]
fn defined_exactly_at_written_addresses() {
    let mut address_space = AddressSpace::new();
    address_space.update_byte(10, 1);
    address_space.update_byte(12, 2);
    address_space.update(20, &vec![3, 4, 5]).unwrap();
    let written = [10u32, 12, 20, 21, 22];
    for addr in 0u32..30 {
        assert_eq!(address_space.is_defined(addr, 1), written.contains(&addr));
        assert_eq!(address_space.read(addr).is_some(), written.contains(&addr));
    }
    assert!(address_space.is_defined(20, 3));
    assert!(!address_space.is_defined(20, 4));
    assert!(!address_space.is_defined(10, 3));
    assert_eq!(address_space.read(21), Some(4));
}

#[test]
fn rewriting_same_byte_changes_nothing() {
    let mut address_space = AddressSpace::new();
    address_space.update(5, &vec![1, 2, 3]).unwrap();
    address_space.update_byte(9, 4);
    address_space.update_byte(6, 2);
    assert_eq!(address_space.size(), 4);
    assert_eq!(collect(address_space), vec![(5, vec![1, 2, 3]), (9, vec![4])]);
}

#[test]
fn overwrite_changes_only_that_byte() {
    let mut address_space = AddressSpace::new();
    address_space.update(5, &vec![1, 2, 3]).unwrap();
    address_space.update_byte(6, 9);
    assert_eq!(address_space.read_bytes(5, 3), Some(vec![1, 9, 3]));
    assert_eq!(address_space.size(), 3);
    assert_eq!(address_space.segement_count(), 1);
}

#[test]
fn filling_gap_merges_both_sides() {
    let mut address_space = AddressSpace::new();
    address_space.update(0, &vec![1, 2, 3]).unwrap();
    address_space.update(4, &vec![5, 6]).unwrap();
    assert_eq!(address_space.segement_count(), 2);
    address_space.update_byte(3, 4);
    assert_eq!(address_space.segement_count(), 1);
    assert_eq!(collect(address_space), vec![(0, vec![1, 2, 3, 4, 5, 6])]);
}

#[test]
fn new_byte_prepends_to_following_section() {
    let mut address_space = AddressSpace::new();
    address_space.update(10, &vec![2, 3]).unwrap();
    address_space.update_byte(9, 1);
    assert_eq!(collect(address_space), vec![(9, vec![1, 2, 3])]);
}

#[test]
fn size_is_sum_of_section_lengths() {
    let mut address_space = AddressSpace::new();
    address_space.update(0, &vec![1, 2, 3]).unwrap();
    address_space.update(10, &vec![1, 2]).unwrap();
    address_space.update(1, &vec![7, 7, 7, 7]).unwrap();
    assert_eq!(address_space.size(), 7);
    let total: usize = collect(address_space).iter().map(|s| s.1.len()).sum();
    assert_eq!(total, 7);
}

#[test]
fn iteration_is_ascending() {
    let mut address_space = AddressSpace::new();
    for addr in [50u32, 7, 300, 8, 2, 1000, 49] {
        address_space.update_byte(addr, addr as u8);
    }
    let sections = collect(address_space);
    let starts: Vec<u32> = sections.iter().map(|s| s.0).collect();
    assert_eq!(starts, vec![2, 7, 49, 300, 1000]);
    for pair in sections.windows(2) {
        assert!(pair[0].0 as u64 + (pair[0].1.len() as u64) < pair[1].0 as u64);
    }
}

#[test]
fn iterator_ends_with_none() {
    let mut address_space = AddressSpace::new();
    address_space.update_byte(4, 1);
    let mut iter = address_space.into_iter();
    assert_eq!(iter.next(), Some(Section::new(4, vec![1])));
    assert_eq!(iter.next(), None);
    assert_eq!(iter.next(), None);
}

#[test]
fn highest_address_is_writable() {
    let mut address_space = AddressSpace::new();
    address_space.update_byte(u32::MAX, 7);
    address_space.update_byte(u32::MAX - 1, 6);
    assert_eq!(address_space.read(u32::MAX), Some(7));
    assert_eq!(address_space.read_bytes(u32::MAX - 1, 2), Some(vec![6, 7]));
    assert_eq!(address_space.segement_count(), 1);
    assert_eq!(address_space.size(), 2);
}

#[test]
fn range_past_last_address_is_refused() {
    let mut address_space = AddressSpace::new();
    assert_eq!(
        address_space.update(u32::MAX, &vec![1, 2]),
        Err(SpaceError::AddressOverflow)
    );
    assert_eq!(address_space.size(), 0);
    assert_eq!(address_space.update(u32::MAX - 1, &vec![1, 2]), Ok(()));
    assert_eq!(address_space.size(), 2);
}

#[test]
fn undefine_is_refused() {
    let mut address_space = AddressSpace::new();
    address_space.update_byte(3, 1);
    assert_eq!(address_space.undefine(3, 1), Err(SpaceError::Unimplemented));
    assert_eq!(address_space.read(3), Some(1));
}

#[test]
fn from_sections_rejects_unordered_or_overlapping() {
    let overlapping = vec![Section::new(0, vec![1, 2, 3]), Section::new(2, vec![4])];
    assert!(AddressSpace::from_sections(overlapping).is_none());
    let unordered = vec![Section::new(10, vec![1]), Section::new(0, vec![2])];
    assert!(AddressSpace::from_sections(unordered).is_none());
    let ordered = vec![Section::new(0, vec![1]), Section::new(1, vec![2])];
    assert!(AddressSpace::from_sections(ordered).is_some());
}

#[test]
fn zero_length_read_needs_defined_address() {
    let mut address_space = AddressSpace::new();
    address_space.update_byte(5, 1);
    assert_eq!(address_space.read_bytes(5, 0), Some(vec![]));
    assert_eq!(address_space.read_bytes(6, 0), None);
    assert!(!address_space.is_defined(6, 0));
}

#[test]
fn update_with_empty_range_changes_nothing() {
    let mut address_space = AddressSpace::new();
    assert_eq!(address_space.update(10, &Vec::new()), Ok(()));
    assert_eq!(address_space.segement_count(), 0);
}
