use markov_text::{CyclicArray, MarkovError};

#[test]
fn zero_capacity_is_rejected() {
    let r = CyclicArray::<String>::new(0);
    assert!(matches!(r, Err(MarkovError::InvalidBufferSize)));
}

#[test]
fn empty_source_is_rejected() {
    let r = CyclicArray::<u32>::from_vec(Vec::new());
    assert!(matches!(r, Err(MarkovError::EmptySourceCollection)));
}

#[test]
fn index_wraps_by_capacity() {
    let a = CyclicArray::<u32>::new(3).unwrap();
    assert_eq!(a.index(0), 0);
    assert_eq!(a.index(4), 1);
    for i in 0..10usize {
        for k in 0..5usize {
            assert_eq!(a.index(i), a.index(i + k * 3));
        }
    }
}

#[test]
fn full_write_then_read_from_zero() {
    let mut a = CyclicArray::<String>::new(4).unwrap();
    let vals = vec!["w", "x", "y", "z"];
    for (i, v) in vals.iter().enumerate() {
        a.write(i, v.to_string());
    }
    assert_eq!(a.create_offset_array(0), vec!["w", "x", "y", "z"]);
}

#[test]
fn offset_read_wraps_once() {
    let a = CyclicArray::from_vec(vec![1u32, 2, 3, 4]).unwrap();
    assert_eq!(a.create_offset_array(2), vec![3, 4, 1, 2]);
    assert_eq!(a.create_offset_array(5), vec![2, 3, 4, 1]);
}

#[test]
fn later_writes_overwrite_slots() {
    let mut a = CyclicArray::<String>::new(2).unwrap();
    for (i, w) in ["a", "b", "c"].iter().enumerate() {
        a.write(i, w.to_string());
    }
    assert_eq!(a.get(0), "c");
    assert_eq!(a.create_offset_array(3), vec!["b", "c"]);
}

#[test]
fn new_slots_hold_default() {
    let a = CyclicArray::<u32>::new(3).unwrap();
    assert_eq!(a.create_offset_array(0), vec![0, 0, 0]);
}
