use redos_detector::arrays::drop_common;

#[test]
fn drop_common_works() {
    let empty: [i32; 0] = [];
    assert_eq!(drop_common::<i32>(&empty, &empty), (&empty[..], &empty[..]));
    assert_eq!(drop_common(&[1], &[2]), (&[1][..], &[2][..]));
    assert_eq!(drop_common(&[1], &[1]), (&empty[..], &empty[..]));
    assert_eq!(drop_common(&[1, 2], &[1, 2]), (&empty[..], &empty[..]));
    assert_eq!(
        drop_common(&[0, 1, 2], &[1, 2]),
        (&[0, 1, 2][..], &[1, 2][..])
    );
    assert_eq!(drop_common(&[1, 2], &[1, 2, 3]), (&empty[..], &[3][..]));
    assert_eq!(drop_common(&[1, 2, 3], &[1, 2]), (&[3][..], &empty[..]));
    assert_eq!(drop_common(&[1, 2], &[1, 3, 4]), (&[2][..], &[3, 4][..]));
}

#[test]
fn drop_common_on_ids() {
    let a: Vec<usize> = vec![7, 8, 9];
    let b: Vec<usize> = vec![7, 8];
    assert_eq!(drop_common(&a, &b), (&[9usize][..], &[][..]));
}
