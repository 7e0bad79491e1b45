use conserve::kind::Kind;
use conserve::transport::local::LocalTransport;
use conserve::transport::memory::MemoryTransport;
use conserve::transport::{Metadata, TransportEntry, TransportError, TransportRead, TransportWrite};

#[test]
fn read_file() {
    let content: &str = "the ribs of the disaster";
    let filename = "poem.txt";

    let mut transport = MemoryTransport::new();
    transport.write_file(filename, content.as_bytes()).unwrap();

    assert_eq!(transport.read_file(&filename).unwrap(), content.as_bytes());
}

#[test]
fn list_memory_directory() {
    let mut transport = MemoryTransport::new();
    transport.write_file("root file", b"").unwrap();
    transport.make_dir("subdir").unwrap();
    transport.write_file("subdir/subfile", b"").unwrap();

    let mut root_list = transport.read_dir("").unwrap();
    assert_eq!(root_list.len(), 2);
    root_list.sort();

    assert_eq!(
        root_list[0],
        TransportEntry::new("root file".to_owned(), Kind::File)
    );
    assert_eq!(
        root_list[1],
        TransportEntry::new("subdir".to_owned(), Kind::Dir)
    );

    let subdir_list = transport.read_dir("subdir").unwrap();
    assert_eq!(
        subdir_list,
        vec![TransportEntry::new("subdir/subfile".to_owned(), Kind::File)]
    );
    assert_eq!(subdir_list[0].name_tail(), "subfile");
    assert_eq!(subdir_list[0].relpath(), "subdir/subfile");
    assert_eq!(subdir_list[0].kind(), Kind::File);
}

#[test]
fn listing_leaves_out_what_lies_deeper() {
    let mut transport = MemoryTransport::new();
    transport.make_dir("a").unwrap();
    transport.make_dir("a/b").unwrap();
    transport.write_file("a/b/c", b"x").unwrap();
    transport.write_file("ab", b"y").unwrap();
    let listed = transport.read_dir("a").unwrap();
    assert_eq!(listed, vec![TransportEntry::new("a/b".to_owned(), Kind::Dir)]);
    let mut top = transport.read_dir("").unwrap();
    top.sort();
    assert_eq!(
        top,
        vec![
            TransportEntry::new("a".to_owned(), Kind::Dir),
            TransportEntry::new("ab".to_owned(), Kind::File),
        ]
    );
}

#[test]
fn missing_entries_are_not_found() {
    let mut transport = MemoryTransport::new();
    assert_eq!(transport.read_file("nothing"), Err(TransportError::NotFound));
    assert_eq!(transport.metadata("nothing"), Err(TransportError::NotFound));
    assert_eq!(transport.read_dir("nothing"), Err(TransportError::NotFound));
    transport.write_file("file", b"abc").unwrap();
    assert_eq!(transport.read_dir("file"), Err(TransportError::Other));
    transport.make_dir("dir").unwrap();
    assert_eq!(transport.read_file("dir"), Err(TransportError::Other));
}

#[test]
fn names_are_taken_once() {
    let mut transport = MemoryTransport::new();
    transport.write_file("file", b"abc").unwrap();
    assert_eq!(
        transport.write_file("file", b"other"),
        Err(TransportError::AlreadyExists)
    );
    assert_eq!(transport.make_dir("file"), Err(TransportError::AlreadyExists));
    assert_eq!(transport.read_file("file").unwrap(), b"abc");
    assert_eq!(
        transport.metadata("file"),
        Ok(Metadata {
            len: 3,
            kind: Kind::File
        })
    );
    transport.make_dir("dir").unwrap();
    assert_eq!(transport.make_dir("dir"), Err(TransportError::AlreadyExists));
    assert_eq!(transport.metadata("dir").unwrap().kind, Kind::Dir);
}

#[test]
fn name_tail_is_what_follows_the_last_slash() {
    assert_eq!(
        TransportEntry::new("a/b/c.txt".to_owned(), Kind::File).name_tail(),
        "c.txt"
    );
    assert_eq!(
        TransportEntry::new("plain".to_owned(), Kind::File).name_tail(),
        "plain"
    );
    assert_eq!(
        TransportEntry::new("dir/".to_owned(), Kind::Dir).name_tail(),
        ""
    );
    assert_eq!(
        TransportEntry::new("caf\u{e9}/na\u{ef}ve".to_owned(), Kind::File).name_tail(),
        "na\u{ef}ve"
    );
}

#[test]
fn local_paths_are_joined_to_the_root() {
    let transport = LocalTransport::new("/backup/archive");
    assert_eq!(transport.root_path(), "/backup/archive");
    assert_eq!(transport.full_path("d/66a"), "/backup/archive/d/66a");
    assert_eq!(transport.full_path(""), "/backup/archive/");
    assert_eq!(transport.full_path("/elsewhere"), "/elsewhere");
    assert_eq!(LocalTransport::new("/").full_path("x"), "/x");
    assert_eq!(LocalTransport::new("").full_path("x"), "x");
    assert_eq!(LocalTransport::new("rel/").full_path("x/y"), "rel/x/y");
}
