use ironscribe::index::ChecksumIndex;
use ironscribe::paths::clean_path;

fn p(s: &str) -> Vec<Vec<u8>> {
    clean_path(&s.as_bytes().to_vec()).unwrap()
}

fn d(seed: u8) -> Vec<u8> {
    vec![seed; 32]
}

#[test]
fn forget_removes_the_path_from_digest_lookup() {
    let mut index = ChecksumIndex::new();
    index.record(p("books/one"), d(1));
    assert_eq!(index.find_by_digest(&d(1)), Some(p("books/one")));

    index.forget(&p("books/one"));
    assert_eq!(index.find_by_digest(&d(1)), None);
}

#[test]
fn forget_leaves_other_paths_findable() {
    let mut index = ChecksumIndex::new();
    index.record(p("a"), d(7));
    index.record(p("b"), d(7));
    index.forget(&p("a"));
    // the other path with the same digest is still found
    assert_eq!(index.find_by_digest(&d(7)), Some(p("b")));
}

#[test]
fn record_overwrites_prior_digest() {
    let mut index = ChecksumIndex::new();
    index.record(p("x"), d(1));
    index.record(p("x"), d(2));
    assert_eq!(index.find_by_digest(&d(1)), None);
    assert_eq!(index.find_by_digest(&d(2)), Some(p("x")));
}

#[test]
fn find_by_digest_prefers_record_order() {
    let mut index = ChecksumIndex::new();
    index.record(p("first"), d(5));
    index.record(p("second"), d(5));
    assert_eq!(index.find_by_digest(&d(5)), Some(p("first")));
}

#[test]
fn forget_subtree_evicts_nested_records() {
    let mut index = ChecksumIndex::new();
    index.record(p("dir/a"), d(1));
    index.record(p("dir/sub/b"), d(2));
    index.record(p("other"), d(3));
    index.forget_subtree(&p("dir"));
    assert_eq!(index.find_by_digest(&d(1)), None);
    assert_eq!(index.find_by_digest(&d(2)), None);
    assert_eq!(index.find_by_digest(&d(3)), Some(p("other")));
}
