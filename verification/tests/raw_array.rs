use linear_collections::raw::RawArray;

fn filled(capacity: usize, values: &[i32]) -> RawArray<i32> {
    let mut raw = RawArray::<i32>::allocate(capacity);
    for (index, value) in values.iter().enumerate() {
        raw.write(index, *value);
    }
    raw
}

fn slots(raw: &RawArray<i32>) -> Vec<Option<i32>> {
    (0..raw.cap).map(|index| *raw.offset(index)).collect()
}

#[test]
fn raw_array_starts_vacant() {
    let raw = RawArray::<i32>::allocate(4);
    assert_eq!(raw.cap, 4);
    assert_eq!(slots(&raw), vec![None, None, None, None]);
}

#[test]
fn raw_array_of_capacity_zero_has_no_slots() {
    let mut raw = RawArray::<String>::allocate(0);
    assert_eq!(raw.cap, 0);
    assert_eq!(raw.arr.capacity(), 0);
    raw.dealloc();
    assert_eq!(raw.cap, 0);
}

#[test]
fn raw_array_write_then_read_leaves_the_slot_vacant() {
    let mut raw = RawArray::<i32>::allocate(3);
    raw.write(1, 42);
    assert_eq!(slots(&raw), vec![None, Some(42), None]);
    assert_eq!(*raw.get(1), 42);
    assert_eq!(raw.read(1), 42);
    assert_eq!(slots(&raw), vec![None, None, None]);
}

#[test]
fn raw_array_get_mut_writes_in_place() {
    let mut raw = filled(2, &[1, 2]);
    *raw.get_mut(1) += 10;
    assert_eq!(slots(&raw), vec![Some(1), Some(12)]);
}

#[test]
fn raw_array_offset_mut_is_the_slot_itself() {
    let mut raw = filled(2, &[1]);
    *raw.offset_mut(1) = Some(5);
    assert_eq!(raw.offset_mut(0).take(), Some(1));
    assert_eq!(slots(&raw), vec![None, Some(5)]);
}

#[test]
fn raw_array_move_run_to_the_right_with_overlap() {
    let mut raw = filled(5, &[10, 20, 30, 40]);
    raw.move_run(1, 2, 3);
    assert_eq!(slots(&raw), vec![Some(10), None, Some(20), Some(30), Some(40)]);
}

#[test]
fn raw_array_move_run_to_the_left_with_overlap() {
    let mut raw = filled(5, &[10, 20, 30, 40]);
    assert_eq!(raw.read(0), 10);
    raw.move_run(1, 0, 3);
    assert_eq!(slots(&raw), vec![Some(20), Some(30), Some(40), None, None]);
}

#[test]
fn raw_array_move_run_without_overlap_and_in_place() {
    let mut raw = filled(6, &[1, 2]);
    raw.move_run(0, 4, 2);
    assert_eq!(slots(&raw), vec![None, None, None, None, Some(1), Some(2)]);
    raw.move_run(4, 4, 2);
    assert_eq!(slots(&raw), vec![None, None, None, None, Some(1), Some(2)]);
    raw.move_run(0, 3, 0);
    assert_eq!(slots(&raw), vec![None, None, None, None, Some(1), Some(2)]);
}

#[test]
fn raw_array_drop_run_empties_only_its_run() {
    let mut raw = filled(4, &[1, 2, 3, 4]);
    raw.drop_run(1, 2);
    assert_eq!(slots(&raw), vec![Some(1), None, None, Some(4)]);
    raw.drop_run(0, 0);
    assert_eq!(slots(&raw), vec![Some(1), None, None, Some(4)]);
}

#[test]
fn raw_array_dealloc_releases_the_storage() {
    let mut raw = RawArray::<i32>::allocate(8);
    raw.dealloc();
    assert_eq!(raw.cap, 0);
    assert!(raw.arr.is_empty());
}

#[test]
fn raw_array_shadow_clone_sees_the_same_slots() {
    let raw = filled(2, &[7]);
    let shadow = raw.shadow_clone();
    assert_eq!(shadow.cap, 2);
    assert_eq!(*shadow.get(0), 7);
    assert!(shadow.offset(1).is_none());
}

#[test]
fn raw_array_fits_goes_by_the_size_in_bytes() {
    let slot = std::mem::size_of::<Option<u64>>();
    let most = isize::MAX as usize / slot;
    assert!(RawArray::<u64>::fits(0));
    assert!(RawArray::<u64>::fits(1024));
    assert!(RawArray::<u64>::fits(most));
    assert!(!RawArray::<u64>::fits(most + 1));
    assert!(!RawArray::<u64>::fits(usize::MAX));
}

#[test]
fn raw_array_try_allocate_refuses_what_does_not_fit() {
    assert!(RawArray::<u64>::try_allocate(usize::MAX).is_none());
    assert!(RawArray::<u64>::try_allocate(isize::MAX as usize).is_none());
    let raw = RawArray::<u64>::try_allocate(3).unwrap();
    assert_eq!(raw.cap, 3);
    assert_eq!(raw.arr.len(), 3);
}
