use subset_sum_zk::encoding::push_hex;
use subset_sum_zk::hash::{append_bytes, Digest, DIGEST_BYTES};

fn hex_of(d: &Digest) -> String {
    let mut out = Vec::new();
    push_hex(&d.bytes, &mut out);
    String::from_utf8(out).unwrap()
}

#[test]
fn digest_of_foo_is_the_published_one() {
    let d = Digest::of(&b"foo".to_vec());
    assert_eq!(
        hex_of(&d),
        "ca002330e69d3e6b84a46a56a6533fd79d51d97a3bb7cad6c2ff43b354185d6d\
         c1e723fb3db4ae0737e120378424c714bb982d9dc5bbd7a0ab318240ddd18f8d"
    );
}

#[test]
fn digest_has_sixty_four_bytes() {
    assert_eq!(DIGEST_BYTES, 64);
    assert_eq!(Digest::of(&Vec::new()).bytes.len(), 64);
    assert_eq!(Digest::of(&vec![1, 2, 3]).bytes.len(), 64);
    assert_eq!(Digest::of(&vec![0u8; 1000]).bytes.len(), 64);
}

#[test]
fn digest_agrees_with_the_hash_crate() {
    for input in [b"".to_vec(), b"12".to_vec(), b"-7".to_vec(), vec![0u8; 200]] {
        let theirs = blake2b_simd::blake2b(&input);
        let ours = Digest::of(&input);
        assert_eq!(ours.bytes, theirs.as_bytes().to_vec());
        assert_eq!(hex_of(&ours), theirs.to_hex().to_string());
    }
}

#[test]
fn digest_is_a_function_of_the_input() {
    assert_eq!(Digest::of(&b"abc".to_vec()), Digest::of(&b"abc".to_vec()));
    assert_ne!(Digest::of(&b"abc".to_vec()), Digest::of(&b"abd".to_vec()));
}

#[test]
fn pair_digest_hashes_left_then_right() {
    let left = Digest::of(&b"l".to_vec());
    let right = Digest::of(&b"r".to_vec());
    let mut joined = left.bytes.clone();
    joined.extend_from_slice(&right.bytes);
    assert_eq!(Digest::of_pair(&left, &right), Digest::of(&joined));
    assert_ne!(Digest::of_pair(&left, &right), Digest::of_pair(&right, &left));
    assert_eq!(
        Digest::of_pair(&left, &right).bytes,
        blake2b_simd::blake2b(&joined).as_bytes().to_vec()
    );
}

#[test]
fn same_as_compares_bytes() {
    let a = Digest { bytes: vec![1, 2, 3] };
    let b = Digest { bytes: vec![1, 2, 3] };
    let c = Digest { bytes: vec![1, 2, 4] };
    let d = Digest { bytes: vec![1, 2] };
    let e = Digest { bytes: vec![] };
    assert!(a.same_as(&b));
    assert!(!a.same_as(&c));
    assert!(!a.same_as(&d));
    assert!(!d.same_as(&a));
    assert!(e.same_as(&Digest { bytes: vec![] }));
    assert!(!e.same_as(&a));
}

#[test]
fn duplicate_keeps_the_bytes() {
    let a = Digest::of(&b"copy me".to_vec());
    let b = a.duplicate();
    assert_eq!(a, b);
    assert!(a.same_as(&b));
}

#[test]
fn append_bytes_appends() {
    let mut dst = vec![1u8, 2];
    append_bytes(&mut dst, &vec![3, 4, 5]);
    assert_eq!(dst, vec![1, 2, 3, 4, 5]);
    append_bytes(&mut dst, &Vec::new());
    assert_eq!(dst, vec![1, 2, 3, 4, 5]);
}
