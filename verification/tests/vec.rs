use gsim2::vec::SmallVec;

#[test]
fn small_vec_new_is_empty() {
    let v: SmallVec<u32, 4> = SmallVec::new();
    assert_eq!(v.len(), 0);
    assert!(v.is_inline());
}

#[test]
fn small_vec_push_pop() {
    let mut v: SmallVec<u32, 2> = SmallVec::new();
    v.push(1);
    v.push(2);
    assert!(v.is_inline());
    v.push(3);
    assert!(!v.is_inline());
    assert_eq!(v.len(), 3);
    assert_eq!(v.pop(), Some(3));
    assert_eq!(v.pop(), Some(2));
    assert_eq!(v.pop(), Some(1));
    assert_eq!(v.pop(), None);
}

#[test]
fn small_vec_from_array() {
    let v: SmallVec<u8, 4> = SmallVec::from_array([7, 8, 9]);
    assert_eq!(v.as_slice(), &[7, 8, 9]);
}

#[test]
fn small_vec_from_slice() {
    let v: SmallVec<u8, 2> = SmallVec::from_slice(&[1, 2, 3, 4]);
    assert_eq!(v.as_slice(), &[1, 2, 3, 4]);
}

#[test]
fn small_vec_repeat() {
    let v: SmallVec<char, 4> = SmallVec::repeat('x', 3);
    assert_eq!(v.as_slice(), &['x', 'x', 'x']);
    let empty: SmallVec<char, 4> = SmallVec::repeat('y', 0);
    assert_eq!(empty.len(), 0);
}
