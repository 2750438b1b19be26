use ironscribe::fs_model::FsTree;
use ironscribe::hashing::Hasher;
use ironscribe::paths::clean_path;

fn p(s: &str) -> Vec<Vec<u8>> {
    clean_path(&s.as_bytes().to_vec()).unwrap()
}

#[test]
fn strong_digest_is_32_bytes_and_not_the_input() {
    let hasher = Hasher {};
    let empty = hasher.compute_strong_byte_hash(&Vec::new());
    assert_eq!(empty.len(), 32);
    let short = hasher.compute_strong_byte_hash(&vec![1u8, 2, 3]);
    assert_eq!(short.len(), 32);
    assert_ne!(short, vec![1u8, 2, 3]);
    assert_ne!(short, empty);
}

#[test]
fn strong_digest_known_answer() {
    // SHA-256 of the empty input
    let expected: Vec<u8> = vec![
        0xe3, 0xb0, 0xc4, 0x42, 0x98, 0xfc, 0x1c, 0x14, 0x9a, 0xfb, 0xf4, 0xc8, 0x99, 0x6f,
        0xb9, 0x24, 0x27, 0xae, 0x41, 0xe4, 0x64, 0x9b, 0x93, 0x4c, 0xa4, 0x95, 0x99, 0x1b,
        0x78, 0x52, 0xb8, 0x55,
    ];
    let hasher = Hasher {};
    assert_eq!(hasher.compute_strong_byte_hash(&Vec::new()), expected);
}

#[test]
fn weak_digest_known_answer() {
    // Adler-32 of "Wikipedia"
    let hasher = Hasher {};
    assert_eq!(
        hasher.compute_weak_byte_hash(&b"Wikipedia".to_vec()),
        0x11E6_0398
    );
    // and of the empty input
    assert_eq!(hasher.compute_weak_byte_hash(&Vec::new()), 1);
}

#[test]
fn strong_digest_is_deterministic() {
    let hasher = Hasher {};
    let a = hasher.compute_strong_byte_hash(&b"some file content".to_vec());
    let b = hasher.compute_strong_byte_hash(&b"some file content".to_vec());
    assert_eq!(a, b);
}

#[test]
fn weak_digest_is_deterministic_and_distinguishes() {
    let hasher = Hasher {};
    let a = hasher.compute_weak_byte_hash(&b"abcdef".to_vec());
    let b = hasher.compute_weak_byte_hash(&b"abcdef".to_vec());
    assert_eq!(a, b);
    let c = hasher.compute_weak_byte_hash(&b"abcdeg".to_vec());
    assert_ne!(a, c);
}

#[test]
fn whole_file_digest_stable_across_repeated_calls() {
    let mut fs = FsTree::new();
    fs.create_dir_all(&p("library")).unwrap();
    fs.write_file(&p("library/novel"), b"chapter one".to_vec())
        .unwrap();

    let hasher = Hasher {};
    let first = hasher.compute_file_hash(&fs, &p("library/novel")).unwrap();
    let second = hasher.compute_file_hash(&fs, &p("library/novel")).unwrap();
    assert!(first.is_some());
    assert_eq!(first, second);

    // an unrelated change leaves the digest alone
    fs.write_file(&p("library/other"), b"chapter two".to_vec())
        .unwrap();
    let third = hasher.compute_file_hash(&fs, &p("library/novel")).unwrap();
    assert_eq!(first, third);
}

#[test]
fn whole_file_digest_absent_and_unreadable() {
    let mut fs = FsTree::new();
    fs.create_dir_all(&p("shelf")).unwrap();
    let hasher = Hasher {};
    // absent file: no digest, not an error
    assert_eq!(hasher.compute_file_hash(&fs, &p("missing")).unwrap(), None);
    // a directory cannot be read as a file
    assert!(hasher.compute_file_hash(&fs, &p("shelf")).is_err());
}
