use malbolge::encrypt;

#[test]
fn encrypt_of_known_residues() {
    assert_eq!(encrypt(0), 57);
    assert_eq!(encrypt(1), 109);
    assert_eq!(encrypt(4), 84);
    assert_eq!(encrypt(5), 86);
    assert_eq!(encrypt(23), 111);
    assert_eq!(encrypt(39), 116);
    assert_eq!(encrypt(40), 121);
    assert_eq!(encrypt(62), 76);
    assert_eq!(encrypt(68), 33);
    assert_eq!(encrypt(81), 54);
    assert_eq!(encrypt(92), 115);
    assert_eq!(encrypt(93), 98);
}

#[test]
fn encrypt_is_the_whole_table() {
    let table: [usize; 94] = [
        57, 109, 60, 46, 84, 86, 97, 99, 96, 117, 89, 42, 77, 75, 39, 88, 126, 120, 68, 108, 125,
        82, 69, 111, 107, 78, 58, 35, 63, 71, 34, 105, 64, 53, 122, 93, 38, 103, 113, 116, 121,
        102, 114, 36, 40, 119, 101, 52, 123, 87, 80, 41, 72, 45, 90, 110, 44, 91, 37, 92, 51, 100,
        76, 43, 81, 59, 62, 85, 33, 112, 74, 83, 55, 50, 70, 104, 79, 65, 49, 67, 66, 54, 118, 94,
        61, 73, 95, 48, 47, 56, 124, 106, 115, 98,
    ];
    for n in 0..94 {
        assert_eq!(encrypt(n), table[n]);
    }
}

#[test]
fn encrypt_maps_onto_the_printable_codes() {
    let mut seen = [false; 127];
    for n in 0..94 {
        let e = encrypt(n);
        assert!((33..=126).contains(&e));
        assert!(!seen[e]);
        seen[e] = true;
    }
    for e in 33..=126 {
        assert!(seen[e]);
    }
}

#[test]
fn encrypt_never_keeps_a_residue() {
    for n in 0..94 {
        assert_ne!(encrypt(n) % 94, n);
    }
}
