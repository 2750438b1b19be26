use ironscribe::fs_model::{FsError, FsTree};
use ironscribe::paths::clean_path;
use ironscribe::upload::{
    BookClient, BookError, BookServer, FileUploadRequest, MyFileTransfer, ProtocolError,
    UploadMessage, UploadSession,
};

fn b(s: &str) -> Vec<u8> {
    s.as_bytes().to_vec()
}

fn p(s: &str) -> Vec<Vec<u8>> {
    clean_path(&b(s)).unwrap()
}

#[test]
fn chunk_before_name_is_rejected() {
    let mut session = UploadSession::new();
    let err = session.step(UploadMessage::Chunk(b("data"))).unwrap_err();
    assert_eq!(err, ProtocolError::WrongMessageType);
}

#[test]
fn second_name_is_rejected() {
    let mut session = UploadSession::new();
    session.step(UploadMessage::Name(b("a"))).unwrap();
    let err = session.step(UploadMessage::Name(b("b"))).unwrap_err();
    assert_eq!(err, ProtocolError::WrongMessageType);
}

#[test]
fn name_then_chunks_writes_their_concatenation() {
    let server = BookServer::new(p("shelf"));
    let mut fs = FsTree::new();
    let messages = vec![
        UploadMessage::Name(b("novel")),
        UploadMessage::Chunk(b("first half, ")),
        UploadMessage::Chunk(b("second half")),
    ];
    server.add_book(&mut fs, &messages).unwrap();
    assert_eq!(
        fs.read_file(&p("shelf/novel")).unwrap(),
        &b("first half, second half")
    );
}

#[test]
fn add_book_rejects_chunk_first_stream() {
    let server = BookServer::new(p("shelf"));
    let mut fs = FsTree::new();
    let messages = vec![UploadMessage::Chunk(b("data")), UploadMessage::Name(b("n"))];
    let err = server.add_book(&mut fs, &messages).unwrap_err();
    assert_eq!(err, BookError::Protocol(ProtocolError::WrongMessageType));
    assert!(!fs.contains(&p("shelf/n")));
}

#[test]
fn add_book_rejects_empty_stream() {
    let server = BookServer::new(p("shelf"));
    let mut fs = FsTree::new();
    let err = server.add_book(&mut fs, &Vec::new()).unwrap_err();
    assert_eq!(err, BookError::Protocol(ProtocolError::WrongMessageType));
}

#[test]
fn add_book_sanitizes_the_name() {
    let server = BookServer::new(p("shelf"));
    let mut fs = FsTree::new();
    let messages = vec![
        UploadMessage::Name(b("../outside")),
        UploadMessage::Chunk(b("x")),
    ];
    let err = server.add_book(&mut fs, &messages).unwrap_err();
    assert!(matches!(err, BookError::Path(_)));
}

#[test]
fn client_messages_round_trip_through_the_server() {
    let client = BookClient {};
    let content = (0u8..=255).cycle().take(3000).collect::<Vec<u8>>();
    let messages = client.add_book(b("cycle.bin"), &content);

    let server = BookServer::new(p("uploads_dir"));
    let mut fs = FsTree::new();
    server.add_book(&mut fs, &messages).unwrap();
    assert_eq!(fs.read_file(&p("uploads_dir/cycle.bin")).unwrap(), &content);
}

#[test]
fn client_chunks_content_at_a_mebibyte() {
    let client = BookClient {};
    let content = vec![7u8; 2_500_000];
    let messages = client.add_book(b("big.bin"), &content);
    // one name, then full chunks and a short last one
    assert_eq!(messages.len(), 4);
    assert!(matches!(&messages[0], UploadMessage::Name(n) if n == &b("big.bin")));
    let sizes: Vec<usize> = messages[1..]
        .iter()
        .map(|m| match m {
            UploadMessage::Chunk(c) => c.len(),
            UploadMessage::Name(_) => panic!("chunk expected"),
        })
        .collect();
    assert_eq!(sizes, vec![1_048_576, 1_048_576, 402_848]);
}

#[test]
fn client_empty_content_sends_name_only() {
    let client = BookClient {};
    let messages = client.add_book(b("empty.bin"), &Vec::new());
    assert_eq!(messages.len(), 1);
    assert!(matches!(&messages[0], UploadMessage::Name(n) if n == &b("empty.bin")));
}

#[test]
fn delete_book_removes_files_and_directories() {
    let server = BookServer::new(p("shelf"));
    let mut fs = FsTree::new();
    fs.create_dir_all(&p("shelf/series")).unwrap();
    fs.write_file(&p("shelf/series/volume1"), b("v1")).unwrap();
    fs.write_file(&p("shelf/single"), b("s")).unwrap();

    server.delete_book(&mut fs, &b("single")).unwrap();
    assert!(!fs.contains(&p("shelf/single")));

    server.delete_book(&mut fs, &b("series")).unwrap();
    assert!(!fs.contains(&p("shelf/series")));
    assert!(!fs.contains(&p("shelf/series/volume1")));

    // deleting something absent is reported
    let err = server.delete_book(&mut fs, &b("single")).unwrap_err();
    assert_eq!(err, BookError::Fs(FsError::NotFound));
}

#[test]
fn list_books_names_and_sizes() {
    let server = BookServer::new(p("shelf"));
    let mut fs = FsTree::new();
    fs.create_dir_all(&p("shelf/subdir")).unwrap();
    fs.write_file(&p("shelf/alpha"), b("12345")).unwrap();
    fs.write_file(&p("shelf/beta"), b("")).unwrap();
    fs.write_file(&p("shelf/subdir/nested"), b("not listed")).unwrap();
    fs.write_file(&p("elsewhere"), b("not either")).unwrap();

    let mut books = server.list_books(&fs);
    books.sort();
    assert_eq!(books, vec![(b("alpha"), 5u64), (b("beta"), 0u64)]);
}

#[test]
fn get_directory_joins_components() {
    let server = BookServer::new(p("data/books"));
    assert_eq!(server.get_directory(), b("data/books"));
    let rootless = BookServer::new(Vec::new());
    assert_eq!(rootless.get_directory(), b(""));
}

#[test]
fn file_transfer_concatenates_chunks_under_upload_id() {
    let transfer = MyFileTransfer {};
    let mut fs = FsTree::new();
    let requests = vec![
        FileUploadRequest { file_name: b("track.mp3"), chunk: b("intro") },
        FileUploadRequest { file_name: b("track.mp3"), chunk: b(" and outro") },
    ];
    let status = transfer.upload(&mut fs, &b("id42"), &requests).unwrap();
    assert_eq!(status.file_name, b("track.mp3"));
    assert_eq!(status.size, 15);
    assert_eq!(
        fs.read_file(&p("uploads/id42-track.mp3")).unwrap(),
        &b("intro and outro")
    );
}

#[test]
fn file_transfer_empty_stream_writes_nothing() {
    let transfer = MyFileTransfer {};
    let mut fs = FsTree::new();
    let status = transfer.upload(&mut fs, &b("id1"), &Vec::new()).unwrap();
    assert_eq!(status.file_name, b(""));
    assert_eq!(status.size, 0);
    assert!(!fs.contains(&p("uploads")));
}
