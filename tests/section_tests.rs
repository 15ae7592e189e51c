use address_space::{merge_sections, MergeError, Section};

#[test]
fn test_section_merge() {
    let section_one = Section::new(0, vec![1, 2, 3, 4, 5]);
    let section_two = Section::new(5, vec![6, 7, 8, 9]);
    let section_three = merge_sections(&section_one, &section_two);
    assert!(section_three.is_ok());
    let r = section_three.unwrap();
    assert_eq!(r.data(), &vec![1, 2, 3, 4, 5, 6, 7, 8, 9]);
    assert_eq!(r.start_addr(), 0);
}

#[test]
fn merge_order() {
    let section_one = Section::new(0, vec![1, 2, 3, 4, 5]);
    let section_two = Section::new(5, vec![6, 7, 8, 9]);
    let section_three = merge_sections(&section_one, &section_two);
    let section_four = merge_sections(&section_two, &section_one);

    assert!(section_three.is_ok());
    assert!(section_four.is_ok());
    assert_eq!(section_three.unwrap().data(), section_four.unwrap().data());
}

#[test]
fn record_write_data() {
    let mut sec = Section::new(100, vec![1, 2, 3, 4, 5, 6]);
    sec.write_data(100, 2);
    sec.write_data(101, 3);
    sec.write_data(103, 3);

    assert_eq!(sec.data()[0], 2);
    assert_eq!(sec.data()[1], 3);
}

#[test]
fn merge_symmetric_start_and_bytes() {
    let low = Section::new(10, vec![1, 2]);
    let high = Section::new(12, vec![3]);
    let a = merge_sections(&low, &high).unwrap();
    let b = merge_sections(&high, &low).unwrap();
    assert_eq!(a, b);
    assert_eq!(a.start_addr(), 10);
    assert_eq!(a.data(), &vec![1, 2, 3]);
    assert_eq!(a.end_addr(), 13);
}

#[test]
fn merge_rejects_overlap() {
    let a = Section::new(0, vec![1, 2, 3]);
    let b = Section::new(2, vec![4, 5]);
    assert_eq!(merge_sections(&a, &b), Err(MergeError::Overlap));
    assert_eq!(merge_sections(&b, &a), Err(MergeError::Overlap));
    let same_start = Section::new(0, vec![9]);
    assert_eq!(merge_sections(&a, &same_start), Err(MergeError::Overlap));
}

#[test]
fn merge_rejects_gap() {
    let a = Section::new(0, vec![1, 2, 3]);
    let b = Section::new(4, vec![4, 5]);
    assert_eq!(merge_sections(&a, &b), Err(MergeError::NotContiguous));
    assert_eq!(merge_sections(&b, &a), Err(MergeError::NotContiguous));
}

#[test]
fn merge_with_failure_leaves_section_unchanged() {
    let mut a = Section::new(0, vec![1, 2, 3]);
    let b = Section::new(4, vec![4, 5]);
    assert!(!a.merge_with(b));
    assert_eq!(a, Section::new(0, vec![1, 2, 3]));
}

#[test]
fn merge_with_absorbs_lower_neighbour() {
    let mut a = Section::new(3, vec![4, 5]);
    let b = Section::new(0, vec![1, 2, 3]);
    assert!(a.merge_with(b));
    assert_eq!(a.start_addr(), 0);
    assert_eq!(a.data(), &vec![1, 2, 3, 4, 5]);
}

#[test]
fn section_push_and_length() {
    let mut a = Section::new(7, vec![1]);
    a.push_data(2);
    assert_eq!(a.len(), 2);
    assert_eq!(a.end_addr(), 9);
    assert_eq!(a.data(), &vec![1, 2]);
}

#[test]
fn section_read_bytes_bounds() {
    let a = Section::new(10, vec![1, 2, 3, 4]);
    assert_eq!(a.read_bytes(11, 2), Some(vec![2, 3]));
    assert_eq!(a.read_bytes(10, 4), Some(vec![1, 2, 3, 4]));
    assert_eq!(a.read_bytes(12, 3), None);
    assert_eq!(a.read_bytes(9, 1), None);
    assert_eq!(a.read_bytes(14, 0), Some(vec![]));
    assert_eq!(a.read_bytes(15, 0), None);
}

#[test]
fn section_at_top_of_address_space() {
    let a = Section::new(u32::MAX, vec![7]);
    assert_eq!(a.end_addr(), 1u64 << 32);
    assert_eq!(a.read_bytes(u32::MAX, 1), Some(vec![7]));
}
