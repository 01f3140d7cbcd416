use chunk_delta::hunt_szymanski::{lcs_hunt_szymanski, matching_characters_coordinates};
use chunk_delta::lcs::{lcs, lcs_len, lcs_nakatsu};

#[test]
fn test_lcs_nakatsu() {
    let a_string = "bcdabab".as_bytes();
    let b_string = "cbacbaaba".as_bytes();
    let lcs = lcs_nakatsu(a_string, b_string);
    let lcs_string = String::from_utf8(lcs).unwrap();
    assert_eq!(lcs_string, "bcaba");

    let b_string = "equilibrium".as_bytes();
    let a_string = "eiger".as_bytes();
    let lcs = lcs_nakatsu(a_string, b_string);
    let lcs_string = String::from_utf8(lcs).unwrap();
    assert_eq!(lcs_string, "eir");

    let a_string = "a blockchain is a growing list of records".as_bytes();
    let b_string = "the blockchain - an ever-growing decentralized ledger".as_bytes();
    let lcs = lcs_nakatsu(a_string, b_string);
    let lcs_string = String::from_utf8(lcs).unwrap();
    assert_eq!(lcs_string, " blockchain  a growing li er");
}

#[test]
fn lcs_nakatsu_lengths() {
    assert_eq!(lcs_nakatsu("bcdabab".as_bytes(), "cbacbaaba".as_bytes()).len(), 5);
    assert_eq!(lcs_nakatsu("equilibrium".as_bytes(), "eiger".as_bytes()).len(), 3);
}

#[test]
fn lcs_nakatsu_edges() {
    let empty: &[u8] = &[];
    assert!(lcs_nakatsu(empty, "abc".as_bytes()).is_empty());
    assert!(lcs_nakatsu("abc".as_bytes(), empty).is_empty());
    assert!(lcs_nakatsu(empty, empty).is_empty());
    assert!(lcs_nakatsu("abc".as_bytes(), "xyz".as_bytes()).is_empty());
    assert_eq!(lcs_nakatsu("a".as_bytes(), "a".as_bytes()), "a".as_bytes().to_vec());
    assert_eq!(lcs_nakatsu("x".as_bytes(), "yxz".as_bytes()), "x".as_bytes().to_vec());
    assert_eq!(
        lcs_nakatsu("identical".as_bytes(), "identical".as_bytes()),
        "identical".as_bytes().to_vec()
    );
}

#[test]
fn lcs_nakatsu_digests() {
    let a: Vec<Vec<u8>> = vec![vec![1, 1], vec![2, 2], vec![3, 3]];
    let b: Vec<Vec<u8>> = vec![vec![2, 2], vec![9], vec![3, 3]];
    assert_eq!(lcs_nakatsu(&a, &b), vec![vec![2, 2], vec![3, 3]]);
}

#[test]
fn test_longest_common_subsequence() {
    let a_string = "EQUILIBRIUM".as_bytes(); // ascii-only so as_bytes is ok
    let b_string = "EIGER".as_bytes();
    let lcs = lcs_len(a_string, b_string);
    assert_eq!(lcs, 3);
}

#[test]
fn lcs_len_matches_nakatsu() {
    let cases: [(&str, &str); 5] = [
        ("bcdabab", "cbacbaaba"),
        ("equilibrium", "eiger"),
        ("a blockchain is a growing list of records", "the blockchain - an ever-growing decentralized ledger"),
        ("", "abc"),
        ("abcabcabc", "cbacbacba"),
    ];
    for (a, b) in cases.iter() {
        let n = lcs_len(a.as_bytes(), b.as_bytes());
        assert_eq!(lcs_nakatsu(a.as_bytes(), b.as_bytes()).len(), n);
        assert_eq!(lcs_hunt_szymanski(a.as_bytes(), b.as_bytes()).len(), n);
    }
    assert_eq!(lcs_len("bcdabab".as_bytes(), "cbacbaaba".as_bytes()), 5);
}

#[test]
fn test_matching_characters_coordinates() {
    let a_string = "EQUILIBRIUM".as_bytes();
    let b_string = "EIGER".as_bytes();
    let matching_character_coords = matching_characters_coordinates(a_string, b_string);
    assert_eq!(
        matching_character_coords,
        vec![(1, 4), (1, 1), (4, 2), (6, 2), (8, 5), (9, 2)]
    );
}

#[test]
fn test_lcs_hunt_szymanski_matching_character_coordinates() {
    let a_string = "EQUILIBRIUM".as_bytes();
    let b_string = "EIGER".as_bytes();
    let coords = matching_characters_coordinates(a_string, b_string);
    assert_eq!(coords, vec![(1, 4), (1, 1), (4, 2), (6, 2), (8, 5), (9, 2)]);
}

#[test]
fn test_lcs_hunt_szymanski() {
    let a_string = "bcdabab".as_bytes();
    let b_string = "cbacbaaba".as_bytes();
    let lcs = lcs_hunt_szymanski(a_string, b_string);
    let lcs_string = String::from_utf8(lcs).unwrap();
    assert_eq!(lcs_string, "cabab");

    let a_string = "equilibrium".as_bytes();
    let b_string = "eiger".as_bytes();
    let lcs = lcs_hunt_szymanski(a_string, b_string);
    let lcs_string = String::from_utf8(lcs).unwrap();
    assert_eq!(lcs_string, "eir");

    let a_string = "a blockchain is a growing list of records".as_bytes();
    let b_string = "the blockchain - an ever-growing decentralized ledger".as_bytes();
    let lcs = lcs_hunt_szymanski(a_string, b_string);
    let lcs_string = String::from_utf8(lcs).unwrap();
    assert_eq!(lcs_string, " blockchain  a growing li ed");
}

#[test]
fn lcs_hunt_szymanski_edges() {
    let empty: &[u8] = &[];
    assert!(lcs_hunt_szymanski(empty, "abc".as_bytes()).is_empty());
    assert!(lcs_hunt_szymanski("abc".as_bytes(), empty).is_empty());
    assert!(lcs_hunt_szymanski("abc".as_bytes(), "xyz".as_bytes()).is_empty());
    assert_eq!(lcs_hunt_szymanski("a".as_bytes(), "a".as_bytes()), "a".as_bytes().to_vec());
}

#[test]
fn lcs_default_engine() {
    assert_eq!(lcs("bcdabab".as_bytes(), "cbacbaaba".as_bytes()), "bcaba".as_bytes().to_vec());
    assert_eq!(lcs("abc".as_bytes(), "abc".as_bytes()), "abc".as_bytes().to_vec());
    let empty: &[u8] = &[];
    assert!(lcs(empty, empty).is_empty());
}

#[test]
fn lcs_hunt_szymanski_starts_from_the_last_block() {
    // the last node recorded belongs to block 1 here; the longest subsequence has two items
    assert_eq!(lcs_hunt_szymanski("abz".as_bytes(), "zab".as_bytes()), "ab".as_bytes().to_vec());
    assert_eq!(lcs_hunt_szymanski("zab".as_bytes(), "abz".as_bytes()).len(), 2);
}
