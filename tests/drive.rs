use hanabi_auth::drive::{
    Dir, FileTree, FileTreeWalker, TreeClasses,
    extension, extension_formatted, has_extension, name, BytesUnit, DrivePath, FileExtension, FileKind,
    FileTreeParams, Node, Upload,
};
use hanabi_auth::http::HttpError;
use hanabi_auth::wire::parse;

#[test]
fn node_text_and_kind() {
    assert_eq!(Node::Dir(b"/a".to_vec()).as_str(), b"/a".to_vec());
    assert_eq!(Node::Error.as_str(), "\u{fffd}\u{fffd}\u{fffd}\u{fffd}\u{fffd} ".as_bytes().to_vec());
    assert!(Node::Dir(vec![]).is_dir());
    assert!(!Node::File(vec![]).is_dir());
    assert!(FileKind::Dir.is_dir());
    assert!(FileKind::File.is_file());
    assert!(!FileKind::SymLink.is_file());
}

#[test]
fn extension_test_of_names() {
    assert!(!has_extension(b""));
    assert!(!has_extension(b"a.rs"));
    assert!(!has_extension(b".hidden"));
    assert!(has_extension(b"Makefile"));
}

#[test]
fn formats_extensions() {
    assert_eq!(extension_formatted(b"rs"), b"Rs".to_vec());
    assert_eq!(extension_formatted(b"7z"), b"__7z".to_vec());
    assert_eq!(extension_formatted(b""), b"".to_vec());
    assert_eq!(extension_formatted(b"Md"), b"Md".to_vec());
}

#[test]
fn file_names_and_extensions() {
    assert_eq!(name(b"/home/u/notes.md"), b"notes.md".to_vec());
    assert_eq!(name(b"plain"), b"plain".to_vec());
    assert_eq!(extension(b"/x/notes.md", FileKind::File), Some(FileExtension::Md));
    assert_eq!(extension(b"/x/a.7z", FileKind::File), Some(FileExtension::__7z));
    assert_eq!(extension(b"/x/notes.md", FileKind::Dir), None);
    assert_eq!(extension(b"/x/notes.unknown", FileKind::File), None);
    assert_eq!(extension(b"/x/a.verylongextension", FileKind::File), None);
    assert_eq!(extension(b"noext", FileKind::File), None);
}

#[test]
fn file_entry_html() {
    assert_eq!(
        hanabi_auth::drive::file(b"a.rs", 12, b"cls"),
        b"<span class='cls' level='12' name='a.rs'>a.rs</span>".to_vec()
    );
}

#[test]
fn bytes_units() {
    assert_eq!(BytesUnit::try_from(b"KiB"), Some(BytesUnit::KiB));
    assert_eq!(BytesUnit::try_from(b"B"), Some(BytesUnit::B));
    assert_eq!(BytesUnit::try_from(b"kb"), None);
}

#[test]
fn request_parameters() {
    let req = parse(b"GET /drive/file_tree?path=/srv&ssr&dir=D HTTP/1.1\r\n\r\n").unwrap();
    let p = FileTreeParams::from_request(&req);
    assert_eq!(p.path, b"/srv".to_vec());
    assert!(p.ssr);
    assert_eq!(p.dir, b"D".to_vec());
    assert_eq!(p.file, b"<styles/File>".to_vec());
    assert_eq!(DrivePath::from_request(&req), Ok(DrivePath(b"/srv".to_vec())));
    let req = parse(b"GET /drive/view HTTP/1.1\r\n\r\n").unwrap();
    assert_eq!(DrivePath::from_request(&req), Err(HttpError::MalformedInput));
    assert_eq!(FileTreeParams::from_request(&req).path, b".".to_vec());
}

#[test]
fn upload_names() {
    let req = parse(b"POST /drive/upload?name=C:\\fakepath\\notes.txt HTTP/1.1\r\n\r\nhello").unwrap();
    let u = Upload::from_request(&req).unwrap();
    assert_eq!(u.name, b"uploads/notes.txt".to_vec());
    assert_eq!(u.data, b"hello".to_vec());
}

#[test]
fn walk_orders_and_trims() {
    let walker = FileTreeWalker {
        dirs: vec![
            Dir { path: b"/srv/a/b".to_vec(), idx: 2 },
            Dir { path: b"/srv/a".to_vec(), idx: 1 },
            Dir { path: b"/srv".to_vec(), idx: 0 },
        ],
        nodes: vec![
            vec![b"/srv/a".to_vec(), b"/srv/x.md".to_vec()],
            vec![b"/srv/a/b".to_vec()],
            vec![],
        ],
    };
    let tree = walker.walk(b"/srv");
    assert_eq!(tree.base, b"/srv".to_vec());
    assert_eq!(tree.dirs, vec![b"/".to_vec(), b"/a".to_vec(), b"/a/b".to_vec()]);
    assert_eq!(tree.nodes, vec![vec![b"/a".to_vec(), b"/x.md".to_vec()], vec![b"/a/b".to_vec()], vec![]]);
}

fn dir_html(dc: &str, pc: &str, cc: &str, level: u8, directory: &str, nodes: &str) -> String {
    format!(
        "<div class='{dc}' level='{level}' name='{directory}' nodes='{nodes}'>
<span class='{pc}' level='{level}'>{directory}</span>
<div class='{cc}' level='{level}'>{nodes}</div>
</div>"
    )
}

#[test]
fn renders_tree() {
    let tree = FileTree {
        nodes: vec![vec![b"/a".to_vec(), b"/x.md".to_vec()], vec![]],
        dirs: vec![b"/".to_vec(), b"/a".to_vec()],
        base: b"/srv".to_vec(),
    };
    let kinds = vec![vec![true, false], vec![]];
    let classes = TreeClasses { file: b"F".to_vec(), dir: b"D".to_vec(), parent: b"P".to_vec(), children: b"C".to_vec() };
    let inner = dir_html("D", "P", "C", 1, "/a", "");
    let file = "<span class='F' level='1' name='/x.md'>/x.md</span>";
    let expected = dir_html("D", "P", "C", 0, "/", &format!("{inner}{file}"));
    assert_eq!(tree.ssr(&kinds, &classes), Some(expected.into_bytes()));
}

#[test]
fn rendering_needs_matching_listings() {
    let tree = FileTree { nodes: vec![vec![b"/a".to_vec()]], dirs: vec![b"/".to_vec()], base: b"/".to_vec() };
    let classes = TreeClasses { file: vec![], dir: vec![], parent: vec![], children: vec![] };
    assert_eq!(tree.ssr(&vec![vec![true]], &classes), None);
    assert_eq!(tree.ssr(&vec![vec![]], &classes), None);
}

#[test]
fn kinds_and_nodes() {
    assert_eq!(FileKind::from_type(false, true, false), FileKind::Dir);
    assert_eq!(FileKind::from_type(false, false, false), FileKind::Other);
    assert_eq!(Node::from_kind(FileKind::SymLink, b"l".to_vec()), Node::SymLink(b"l".to_vec()));
    assert_eq!(Node::from_kind(FileKind::Other, b"l".to_vec()), Node::Error);
}
