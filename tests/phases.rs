use fdnverb::phases::phases;

#[test]
fn phases_follow_the_bits_of_the_row() {
    let m = 8;
    let p = phases(m);
    assert_eq!(p.len(), 64);
    for (k, row) in p.iter().enumerate() {
        assert_eq!(row.len(), m);
        for (i, &s) in row.iter().enumerate() {
            assert_eq!(s == 1, (k >> i) & 1 == 0);
            assert!(s == 1 || s == -1);
        }
    }
}

#[test]
fn phase_row_five_of_four_lines() {
    let p = phases(4);
    assert_eq!(p.len(), 16);
    assert_eq!(p[0], vec![1, 1, 1, 1]);
    assert_eq!(p[5], vec![-1, 1, -1, 1]);
    assert_eq!(p[15], vec![-1, -1, -1, -1]);
}

#[test]
fn phases_of_no_lines() {
    assert!(phases(0).is_empty());
}

#[test]
fn phases_of_the_full_network() {
    let p = phases(32);
    assert_eq!(p.len(), 1024);
    assert_eq!(p[1023][..10], [-1; 10]);
    assert_eq!(p[1023][10..], [1; 22]);
    assert_eq!(p[6][..4], [1, -1, -1, 1]);
}
