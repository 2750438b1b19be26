use ironscribe::fs_model::{FsError, FsTree};
use ironscribe::hashing::Hasher;
use ironscribe::metadata::RequestMetadata;
use ironscribe::paths::{clean_path, PathError};
use ironscribe::sync::{MyDirSync, PathEntry, SyncError};

fn b(s: &str) -> Vec<u8> {
    s.as_bytes().to_vec()
}

fn p(s: &str) -> Vec<Vec<u8>> {
    clean_path(&b(s)).unwrap()
}

fn dir(path: &str) -> PathEntry {
    PathEntry { path: b(path), is_dir: true }
}

fn file(path: &str) -> PathEntry {
    PathEntry { path: b(path), is_dir: false }
}

fn digest_of(bytes: &[u8]) -> Vec<u8> {
    Hasher {}.compute_strong_byte_hash(&bytes.to_vec())
}

#[test]
fn get_checksum_matching_digest_means_synchronized() {
    let mut server = MyDirSync::new(b("/srv/data"));
    let mut fs = FsTree::new();
    fs.create_dir_all(&p("docs")).unwrap();
    fs.write_file(&p("docs/report"), b("same bytes")).unwrap();

    let resp = server
        .get_checksum(&mut fs, &b("docs/report"), 4, &digest_of(b"same bytes"))
        .unwrap();
    // already synchronized: empty block-checksum list, no mutation
    assert!(resp.checksums.is_empty());
    assert_eq!(resp.path, p("docs/report"));
    assert_eq!(fs.read_file(&p("docs/report")).unwrap(), &b("same bytes"));
}

#[test]
fn get_checksum_absent_path_copies_from_indexed_twin() {
    let mut server = MyDirSync::new(b("/srv/data"));
    let mut fs = FsTree::new();
    fs.write_file(&p("old_name"), b("moved content")).unwrap();
    let d = digest_of(b"moved content");
    server.update_checksum(p("old_name"), d.clone());

    let resp = server.get_checksum(&mut fs, &b("new_name"), 4, &d).unwrap();
    // the absent path was created with identical bytes to the source
    assert!(resp.checksums.is_empty());
    assert_eq!(fs.read_file(&p("new_name")).unwrap(), &b("moved content"));
    assert_eq!(fs.read_file(&p("old_name")).unwrap(), &b("moved content"));

    // and the index now maps the new path to that digest: after the source
    // record is dropped, the lookup still finds the new path
    server.delete_checksum(&p("old_name"));
    assert_eq!(server.get_file_with_matching_checksum(&d), Some(p("new_name")));
}

#[test]
fn get_checksum_changed_file_returns_block_checksums() {
    let mut server = MyDirSync::new(b("/srv/data"));
    let mut fs = FsTree::new();
    fs.write_file(&p("f"), b("0123456789")).unwrap();

    // the client's digest matches nothing on the server
    let resp = server
        .get_checksum(&mut fs, &b("f"), 4, &digest_of(b"different"))
        .unwrap();
    // 10 bytes in blocks of 4: 3 blocks
    assert_eq!(resp.checksums.len(), 3);
    for c in resp.checksums.iter() {
        assert_eq!(c.strong.len(), 32);
    }
    // per-block digests match hashing the blocks directly
    let hasher = Hasher {};
    assert_eq!(resp.checksums[0].strong, hasher.compute_strong_byte_hash(&b("0123")));
    assert_eq!(resp.checksums[0].weak, hasher.compute_weak_byte_hash(&b("0123")));
    assert_eq!(resp.checksums[2].strong, hasher.compute_strong_byte_hash(&b("89")));
    // the server changed nothing
    assert_eq!(fs.read_file(&p("f")).unwrap(), &b("0123456789"));
}

#[test]
fn get_checksum_stale_index_entry_is_not_trusted() {
    let mut server = MyDirSync::new(b("/srv/data"));
    let mut fs = FsTree::new();
    // the index claims old_name holds the digest, but the file has changed
    fs.write_file(&p("old_name"), b("rewritten")).unwrap();
    let d = digest_of(b"original");
    server.update_checksum(p("old_name"), d.clone());

    let resp = server.get_checksum(&mut fs, &b("target"), 4, &d).unwrap();
    // no copy happened: the target is still absent, and the block checksum
    // list of its (absent) content is empty
    assert!(resp.checksums.is_empty());
    assert!(fs.read_file(&p("target")).is_none());
    assert_eq!(fs.read_file(&p("old_name")).unwrap(), &b("rewritten"));
}

#[test]
fn get_checksum_error_cases() {
    let mut server = MyDirSync::new(b("/srv/data"));
    let mut fs = FsTree::new();
    fs.create_dir_all(&p("somedir")).unwrap();

    // traversal outside the root
    let err = server
        .get_checksum(&mut fs, &b("../escape"), 4, &digest_of(b"x"))
        .unwrap_err();
    assert_eq!(err, SyncError::Path(PathError::Traversal));

    // a directory cannot be opened as a file
    let err = server
        .get_checksum(&mut fs, &b("somedir"), 4, &digest_of(b"x"))
        .unwrap_err();
    assert_eq!(err, SyncError::Fs(FsError::IsADirectory));

    // block size zero is rejected once block checksums are needed
    let err = server
        .get_checksum(&mut fs, &b("absent"), 0, &digest_of(b"x"))
        .unwrap_err();
    assert_eq!(err, SyncError::Chunk(ironscribe::chunker::ChunkError::ZeroBlockSize));
}

#[test]
fn sync_structure_declared_set_wins() {
    let mut server = MyDirSync::new(b("/srv/data"));
    let mut fs = FsTree::new();
    // prior state: a stray file and a stray directory
    fs.create_dir_all(&p("stray_dir")).unwrap();
    fs.write_file(&p("stray_file"), b("junk")).unwrap();
    // and one file the client still declares
    fs.create_dir_all(&p("keep")).unwrap();
    fs.write_file(&p("keep/data"), b("precious")).unwrap();
    server.update_checksum(p("stray_file"), digest_of(b"junk"));
    server.update_checksum(p("keep/data"), digest_of(b"precious"));

    let entries = vec![dir("keep"), file("keep/data"), dir("fresh")];
    server.sync_structure(&mut fs, &entries).unwrap();

    // every path not declared is absent
    assert!(!fs.contains(&p("stray_dir")));
    assert!(!fs.contains(&p("stray_file")));
    // every declared directory exists
    assert!(fs.contains(&p("keep")));
    assert!(fs.contains(&p("fresh")));
    // declared files that existed keep their content
    assert_eq!(fs.read_file(&p("keep/data")).unwrap(), &b("precious"));
    // the index dropped the deleted path and kept the declared one
    assert_eq!(server.get_file_with_matching_checksum(&digest_of(b"junk")), None);
    assert_eq!(
        server.get_file_with_matching_checksum(&digest_of(b"precious")),
        Some(p("keep/data"))
    );
}

#[test]
fn sync_structure_rejects_traversal_without_changes() {
    let mut server = MyDirSync::new(b("/srv/data"));
    let mut fs = FsTree::new();
    fs.write_file(&p("present"), b("x")).unwrap();
    let entries = vec![dir("ok"), dir("../escape")];
    let err = server.sync_structure(&mut fs, &entries).unwrap_err();
    assert_eq!(err, SyncError::Path(PathError::Traversal));
    // nothing was created or deleted
    assert!(fs.contains(&p("present")));
    assert!(!fs.contains(&p("ok")));
}

#[test]
fn sync_structure_file_in_the_way_of_directory() {
    let mut server = MyDirSync::new(b("/srv/data"));
    let mut fs = FsTree::new();
    fs.write_file(&p("blocker"), b("i am a file")).unwrap();
    let entries = vec![dir("blocker/child")];
    let err = server.sync_structure(&mut fs, &entries).unwrap_err();
    assert_eq!(err, SyncError::Fs(FsError::NotADirectory));
    // the file is untouched
    assert_eq!(fs.read_file(&p("blocker")).unwrap(), &b("i am a file"));
}

#[test]
fn diff_structure_created_exists_deleted_does_not() {
    let mut server = MyDirSync::new(b("/srv/data"));
    let mut fs = FsTree::new();
    fs.write_file(&p("obsolete"), b("bye")).unwrap();
    fs.create_dir_all(&p("unrelated")).unwrap();

    let created = vec![dir("fresh/sub")];
    let deleted = vec![file("obsolete")];
    server.diff_structure(&mut fs, &created, &deleted).unwrap();

    assert!(fs.contains(&p("fresh/sub")));
    assert!(!fs.contains(&p("obsolete")));
    // paths the change-set does not mention are untouched
    assert!(fs.contains(&p("unrelated")));
}

#[test]
fn diff_structure_deleting_absent_path_is_tolerated() {
    let mut server = MyDirSync::new(b("/srv/data"));
    let mut fs = FsTree::new();
    let created = vec![dir("a")];
    let deleted = vec![file("never_existed")];
    server.diff_structure(&mut fs, &created, &deleted).unwrap();
    assert!(fs.contains(&p("a")));
    assert!(!fs.contains(&p("never_existed")));
}

#[test]
fn diff_structure_directory_deletion_is_recursive_and_evicts_index() {
    let mut server = MyDirSync::new(b("/srv/data"));
    let mut fs = FsTree::new();
    fs.create_dir_all(&p("tree/inner")).unwrap();
    fs.write_file(&p("tree/inner/leaf"), b("leafdata")).unwrap();
    server.update_checksum(p("tree/inner/leaf"), digest_of(b"leafdata"));

    let deleted = vec![dir("tree")];
    server.diff_structure(&mut fs, &Vec::new(), &deleted).unwrap();

    assert!(!fs.contains(&p("tree")));
    assert!(!fs.contains(&p("tree/inner")));
    assert!(!fs.contains(&p("tree/inner/leaf")));
    assert_eq!(
        server.get_file_with_matching_checksum(&digest_of(b"leafdata")),
        None
    );
}

#[test]
fn diff_structure_kind_mismatch_aborts() {
    let mut server = MyDirSync::new(b("/srv/data"));
    let mut fs = FsTree::new();
    fs.create_dir_all(&p("actually_a_dir")).unwrap();
    fs.write_file(&p("bystander"), b("untouched")).unwrap();
    server.update_checksum(p("bystander"), digest_of(b"untouched"));
    let deleted = vec![file("actually_a_dir")];
    let err = server
        .diff_structure(&mut fs, &Vec::new(), &deleted)
        .unwrap_err();
    assert_eq!(err, SyncError::Fs(FsError::IsADirectory));
    assert!(fs.contains(&p("actually_a_dir")));
    // the aborted batch touched nothing the deletion list does not cover
    assert_eq!(fs.read_file(&p("bystander")).unwrap(), &b("untouched"));
    assert_eq!(
        server.get_file_with_matching_checksum(&digest_of(b"untouched")),
        Some(p("bystander"))
    );
}

#[test]
fn upload_blocks_writes_and_indexes_the_file() {
    let mut server = MyDirSync::new(b("/srv/data"));
    let mut fs = FsTree::new();
    let mut metadata = RequestMetadata::new();
    metadata.insert(b("path"), b("incoming/book"));
    metadata.insert(b("block_size"), b("4"));

    let blocks = vec![b("hello "), b("world"), b("!")];
    let written = server.upload_blocks(&mut fs, &metadata, &blocks).unwrap();
    assert_eq!(written, 12);
    assert_eq!(fs.read_file(&p("incoming/book")).unwrap(), &b("hello world!"));
    // the digest of the assembled content is now indexed under the path
    let d = digest_of(b"hello world!");
    assert_eq!(server.get_file_with_matching_checksum(&d), Some(p("incoming/book")));
}

#[test]
fn upload_blocks_rejects_bad_metadata_untouched() {
    let mut server = MyDirSync::new(b("/srv/data"));
    let mut fs = FsTree::new();
    let metadata = RequestMetadata::new();
    let err = server
        .upload_blocks(&mut fs, &metadata, &vec![b("x")])
        .unwrap_err();
    assert!(matches!(err, SyncError::Metadata(_)));
    assert!(!fs.contains(&p("x")));
}

#[test]
fn default_server_is_empty() {
    let server = MyDirSync::default();
    assert_eq!(server.get_root_directory(), &Vec::<u8>::new());
    assert_eq!(server.get_file_with_matching_checksum(&vec![0u8; 32]), None);
}
