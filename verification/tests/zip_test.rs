use shadow::zip::zip;

#[test]
fn zip_test_two() {
    let x = &[1, 2, 3];
    let y = &[3, 4, 5];

    assert_eq!(zip(x, y), vec![(&1, &3), (&2, &4), (&3, &5)])
}

#[test]
fn zip_tests_test_two() {
    let x = &[1, 2, 3];
    let y = &[3, 4, 5];

    assert_eq!(zip(x, y), vec![(&1, &3), (&2, &4), (&3, &5)])
}

#[test]
fn zip_stops_at_the_shorter_slice() {
    let x = &[1, 2, 3, 4];
    let y = &["a", "b"];
    assert_eq!(zip(x, y), vec![(&1, &"a"), (&2, &"b")]);
    let empty: &[u8] = &[];
    assert_eq!(zip(empty, x).len(), 0);
}
