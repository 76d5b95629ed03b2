use dir_compare::digest::{Digest, FileHasher, Hashing, ReadOutcome, READ_SIZE};

fn hex(s: &str) -> [u8; 32] {
    let mut out = [0u8; 32];
    for i in 0..32 {
        out[i] = u8::from_str_radix(&s[2 * i..2 * i + 2], 16).unwrap();
    }
    out
}

/// Hashes `data` as a file read in pieces of `piece` bytes.
fn hash_in_pieces(data: &[u8], piece: usize) -> Digest {
    let mut hasher = FileHasher::new();
    let mut at = 0;
    loop {
        let end = (at + piece).min(data.len());
        match hasher.step(ReadOutcome::Bytes(&data[at..end])) {
            Hashing::Reading(next) => hasher = next,
            Hashing::Done(digest) => return digest,
            Hashing::Failed(cause) => panic!("{}", cause),
        }
        at = end;
    }
}

#[test]
fn digest_of_nothing() {
    let expected = hex("e3b0c44298fc1c149afbf4c8996fb92427ae41e4649b934ca495991b7852b855");
    assert_eq!(hash_in_pieces(b"", 8192).bytes, expected);
}

#[test]
fn digest_of_hello() {
    let expected = hex("2cf24dba5fb0a30e26e83b2ac5b9e29e1b161e5c1fa7425e73043362938b9824");
    assert_eq!(hash_in_pieces(b"hello", 8192).bytes, expected);
}

#[test]
fn digest_of_abc() {
    let expected = hex("ba7816bf8f01cfea414140de5dae2223b00361a396177a9cb410ff61f20015ad");
    assert_eq!(hash_in_pieces(b"abc", 8192).bytes, expected);
}

#[test]
fn digest_does_not_depend_on_how_the_bytes_are_cut() {
    let data: Vec<u8> = (0..20000u32).map(|i| (i % 251) as u8).collect();
    let whole = hash_in_pieces(&data, 1 << 20);
    for piece in [1usize, 7, 64, 8192, 19999] {
        assert_eq!(hash_in_pieces(&data, piece), whole);
    }
}

#[test]
fn digest_tells_hello_from_upper_case_hello() {
    assert_ne!(hash_in_pieces(b"hello", 8192), hash_in_pieces(b"HELLO", 8192));
}

#[test]
fn digest_is_of_the_bytes_in_order() {
    let mut forth = FileHasher::new();
    forth = match forth.step(ReadOutcome::Bytes(b"ab")) {
        Hashing::Reading(h) => h,
        _ => panic!("more was to be read"),
    };
    forth = match forth.step(ReadOutcome::Bytes(b"cd")) {
        Hashing::Reading(h) => h,
        _ => panic!("more was to be read"),
    };
    let forth = match forth.step(ReadOutcome::Bytes(b"")) {
        Hashing::Done(d) => d,
        _ => panic!("the file ended"),
    };
    assert_eq!(forth, hash_in_pieces(b"abcd", 8192));
    assert_ne!(forth, hash_in_pieces(b"cdab", 8192));
}

#[test]
fn failed_read_ends_the_hashing_with_its_cause() {
    let hasher = FileHasher::new();
    let hasher = match hasher.step(ReadOutcome::Bytes(b"some bytes")) {
        Hashing::Reading(h) => h,
        _ => panic!("more was to be read"),
    };
    match hasher.step(ReadOutcome::Failed(String::from("device gone"))) {
        Hashing::Failed(cause) => assert_eq!(cause, "device gone"),
        _ => panic!("the read failed"),
    }
}

#[test]
fn failed_first_read_gives_no_digest() {
    match FileHasher::new().step(ReadOutcome::Failed(String::from("permission denied"))) {
        Hashing::Failed(cause) => assert_eq!(cause, "permission denied"),
        _ => panic!("the read failed"),
    }
}

#[test]
fn same_as_compares_every_byte() {
    let a = Digest { bytes: [7u8; 32] };
    let mut b = Digest { bytes: [7u8; 32] };
    assert!(a.same_as(&b));
    b.bytes[31] = 8;
    assert!(!a.same_as(&b));
    b.bytes[31] = 7;
    b.bytes[0] = 0;
    assert!(!a.same_as(&b));
}

#[test]
fn large_input_is_hashed_in_pieces_of_the_read_size() {
    assert_eq!(READ_SIZE, 8192);
    let data = vec![b'a'; 1_000_000];
    let expected = hex("cdc76e5c9914fb9281a1c7e284d73e67f1809a48a497200e046d39ccc7112cd0");
    assert_eq!(hash_in_pieces(&data, READ_SIZE).bytes, expected);
}

#[test]
fn digest_of_hello_world() {
    let expected = hex("b94d27b9934d3e08a52e52d7da7dabfac484efe37a5380ee9088f7ace2efcde9");
    assert_eq!(hash_in_pieces(b"hello world", 3).bytes, expected);
}
