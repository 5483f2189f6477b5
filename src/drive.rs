//! The pure parts of the drive pages: node names, file names and extensions,
//! the parameters that the drive requests carry, and the HTML of a file
//! entry. Paths are handled as bytes.
use vstd::prelude::*;
use crate::bytes::{append_bytes, ascii, bytes_eq, copy_range, decimal, find_byte, has_prefix, lacks, push_decimal, starts_with, text};
use crate::http::{HttpError, Request, RequestView};
use crate::services::{find_param, param_of};

verus! {

pub const DOT: u8 = 46;
pub const SLASH: u8 = 47;

/// The path that a drive request names.
#[derive(Debug, Clone, PartialEq, Eq)]
pub struct DrivePath(pub Vec<u8>);

pub open spec fn query_param(req: RequestView, key: Seq<u8>) -> Option<Seq<u8>> {
    match req.query {
        Some(ps) => param_of(ps, key),
        None => None,
    }
}

fn request_param(req: &Request, key: &[u8]) -> (r: Option<Vec<u8>>)
    ensures
        match r {
            Some(v) => query_param(req@, key@) == Some(v@),
            None => query_param(req@, key@) is None,
        },
{
    match &req.query {
        None => None,
        Some(q) => match find_param(q, key) {
            Some(i) => {
                let v = q[i].value.as_slice();
                assert(v@.subrange(0, v@.len() as int) =~= v@);
                Some(copy_range(v, 0, v.len()))
            },
            None => None,
        },
    }
}

impl DrivePath {
    /// The `path` query parameter; a request without one is malformed.
    pub fn from_request(req: &Request) -> (r: Result<DrivePath, HttpError>)
        ensures
            match query_param(req@, ascii("path"@)) {
                Some(p) => r is Ok && r->Ok_0.0@ == p,
                None => r == Err::<DrivePath, HttpError>(HttpError::MalformedInput),
            },
    {
        proof {
            reveal_strlit("path");
        }
        match request_param(req, text("path").as_slice()) {
            Some(p) => Ok(DrivePath(p)),
            None => Err(HttpError::MalformedInput),
        }
    }
}

/// An entry of a directory.
#[derive(Debug, Clone, PartialEq, Eq)]
pub enum Node {
    Dir(Vec<u8>),
    File(Vec<u8>),
    SymLink(Vec<u8>),
    Error,
}

/// What stands for an entry that could not be read: no file has this name.
pub open spec fn error_text() -> Seq<u8> {
    seq![0xefu8, 0xbfu8, 0xbdu8, 0xefu8, 0xbfu8, 0xbdu8, 0xefu8, 0xbfu8, 0xbdu8, 0xefu8, 0xbfu8, 0xbdu8, 0xefu8, 0xbfu8, 0xbdu8, 0x20u8]
}

pub open spec fn node_text(n: Node) -> Seq<u8> {
    match n {
        Node::Dir(p) => p@,
        Node::File(p) => p@,
        Node::SymLink(p) => p@,
        Node::Error => error_text(),
    }
}

impl Node {
    /// The path of the entry, or the error text.
    pub fn as_str(&self) -> (r: Vec<u8>)
        ensures
            r@ == node_text(*self),
    {
        match self {
            Node::Dir(p) | Node::File(p) | Node::SymLink(p) => {
                assert(p@.subrange(0, p@.len() as int) =~= p@);
                copy_range(p.as_slice(), 0, p.len())
            },
            Node::Error => {
                let r = vec![0xefu8, 0xbfu8, 0xbdu8, 0xefu8, 0xbfu8, 0xbdu8, 0xefu8, 0xbfu8, 0xbdu8, 0xefu8, 0xbfu8, 0xbdu8, 0xefu8, 0xbfu8, 0xbdu8, 0x20u8];
                assert(r@ =~= error_text());
                r
            },
        }
    }

    pub fn is_dir(&self) -> (r: bool)
        ensures
            r == (*self is Dir),
    {
        match self {
            Node::Dir(_) => true,
            _ => false,
        }
    }
}

/// How many times `c` occurs in `s`.
pub open spec fn count_of(s: Seq<u8>, c: u8) -> nat
    decreases s.len(),
{
    if s.len() == 0 {
        0
    } else {
        count_of(s.drop_first(), c) + if s[0] == c { 1nat } else { 0nat }
    }
}

/// The test that the drive applies to a file name: not empty, no dot, and
/// not a hidden name with a single dot.
pub open spec fn has_extension_spec(s: Seq<u8>) -> bool {
    s.len() > 0 && lacks(s, DOT) && !(s[0] == DOT && count_of(s, DOT) == 1)
}

pub fn has_extension(s: &[u8]) -> (r: bool)
    ensures
        r == has_extension_spec(s@),
{
    if s.len() == 0 {
        return false;
    }
    match find_byte(s, 0, DOT) {
        Some(k) => {
            proof {
                crate::bytes::lemma_first_index_bounds(s@, DOT);
                assert(s@.subrange(0, s@.len() as int) =~= s@);
            }
            false
        },
        None => {
            proof {
                crate::bytes::lemma_first_index_bounds(s@, DOT);
                assert(s@.subrange(0, s@.len() as int) =~= s@);
            }
            true
        },
    }
}

pub open spec fn upper(b: u8) -> u8 {
    if 97 <= b <= 122 { (b - 32) as u8 } else { b }
}

/// An extension written as a variant name: a leading digit gets `__`, a
/// leading ASCII letter is upper-cased.
pub open spec fn formatted(s: Seq<u8>) -> Seq<u8> {
    if s.len() == 0 {
        s
    } else if 48 <= s[0] <= 57 {
        seq![95u8, 95u8] + s
    } else {
        seq![upper(s[0])] + s.drop_first()
    }
}

pub fn extension_formatted(s: &[u8]) -> (r: Vec<u8>)
    ensures
        r@ == formatted(s@),
{
    let mut r: Vec<u8> = Vec::new();
    if s.len() == 0 {
        assert(r@ =~= s@);
        return r;
    }
    if 48 <= s[0] && s[0] <= 57 {
        r.push(95);
        r.push(95);
        append_bytes(&mut r, s);
    } else {
        let b = s[0];
        r.push(if 97 <= b && b <= 122 { b - 32 } else { b });
        append_bytes(&mut r, &s[1..s.len()]);
        assert(s@.subrange(1, s@.len() as int) =~= s@.drop_first());
    }
    assert(r@ =~= formatted(s@));
    r
}

/// The file extensions that the drive knows.
#[derive(Debug, Clone, Copy, PartialEq, Eq, Structural)]
#[allow(non_camel_case_types)]
pub enum FileExtension {
    Toml,
    Json,
    Py,
    Yaml,
    Md,
    Rs,
    Js,
    Css,
    Html,
    Txt,
    Zig,
    Pdf,
    Mobi,
    Epub,
    Docx,
    Pptx,
    Xlsx,
    Rar,
    Zip,
    __7z,
    Tar,
    Gzip,
    Jpeg,
    Jpg,
    Png,
    Gif,
    Svg,
    Mp3,
    Mp4,
}

pub open spec fn extension_named(t: Seq<u8>) -> Option<FileExtension> {
    if t == ascii("Toml"@) {
        Some(FileExtension::Toml)
    } else if t == ascii("Json"@) {
        Some(FileExtension::Json)
    } else if t == ascii("Py"@) {
        Some(FileExtension::Py)
    } else if t == ascii("Yaml"@) {
        Some(FileExtension::Yaml)
    } else if t == ascii("Md"@) {
        Some(FileExtension::Md)
    } else if t == ascii("Rs"@) {
        Some(FileExtension::Rs)
    } else if t == ascii("Js"@) {
        Some(FileExtension::Js)
    } else if t == ascii("Css"@) {
        Some(FileExtension::Css)
    } else if t == ascii("Html"@) {
        Some(FileExtension::Html)
    } else if t == ascii("Txt"@) {
        Some(FileExtension::Txt)
    } else if t == ascii("Zig"@) {
        Some(FileExtension::Zig)
    } else if t == ascii("Pdf"@) {
        Some(FileExtension::Pdf)
    } else if t == ascii("Mobi"@) {
        Some(FileExtension::Mobi)
    } else if t == ascii("Epub"@) {
        Some(FileExtension::Epub)
    } else if t == ascii("Docx"@) {
        Some(FileExtension::Docx)
    } else if t == ascii("Pptx"@) {
        Some(FileExtension::Pptx)
    } else if t == ascii("Xlsx"@) {
        Some(FileExtension::Xlsx)
    } else if t == ascii("Rar"@) {
        Some(FileExtension::Rar)
    } else if t == ascii("Zip"@) {
        Some(FileExtension::Zip)
    } else if t == ascii("__7z"@) {
        Some(FileExtension::__7z)
    } else if t == ascii("Tar"@) {
        Some(FileExtension::Tar)
    } else if t == ascii("Gzip"@) {
        Some(FileExtension::Gzip)
    } else if t == ascii("Jpeg"@) {
        Some(FileExtension::Jpeg)
    } else if t == ascii("Jpg"@) {
        Some(FileExtension::Jpg)
    } else if t == ascii("Png"@) {
        Some(FileExtension::Png)
    } else if t == ascii("Gif"@) {
        Some(FileExtension::Gif)
    } else if t == ascii("Svg"@) {
        Some(FileExtension::Svg)
    } else if t == ascii("Mp3"@) {
        Some(FileExtension::Mp3)
    } else if t == ascii("Mp4"@) {
        Some(FileExtension::Mp4)
    } else {
        None
    }
}

fn parse_extension_name(t: &[u8]) -> (r: Option<FileExtension>)
    ensures
        r == extension_named(t@),
{
    proof {
        reveal_strlit("Toml");
        reveal_strlit("Json");
        reveal_strlit("Py");
        reveal_strlit("Yaml");
        reveal_strlit("Md");
        reveal_strlit("Rs");
        reveal_strlit("Js");
        reveal_strlit("Css");
        reveal_strlit("Html");
        reveal_strlit("Txt");
        reveal_strlit("Zig");
        reveal_strlit("Pdf");
        reveal_strlit("Mobi");
        reveal_strlit("Epub");
        reveal_strlit("Docx");
        reveal_strlit("Pptx");
        reveal_strlit("Xlsx");
        reveal_strlit("Rar");
        reveal_strlit("Zip");
        reveal_strlit("__7z");
        reveal_strlit("Tar");
        reveal_strlit("Gzip");
        reveal_strlit("Jpeg");
        reveal_strlit("Jpg");
        reveal_strlit("Png");
        reveal_strlit("Gif");
        reveal_strlit("Svg");
        reveal_strlit("Mp3");
        reveal_strlit("Mp4");
    }
    if bytes_eq(t, text("Toml").as_slice()) {
        Some(FileExtension::Toml)
    } else if bytes_eq(t, text("Json").as_slice()) {
        Some(FileExtension::Json)
    } else if bytes_eq(t, text("Py").as_slice()) {
        Some(FileExtension::Py)
    } else if bytes_eq(t, text("Yaml").as_slice()) {
        Some(FileExtension::Yaml)
    } else if bytes_eq(t, text("Md").as_slice()) {
        Some(FileExtension::Md)
    } else if bytes_eq(t, text("Rs").as_slice()) {
        Some(FileExtension::Rs)
    } else if bytes_eq(t, text("Js").as_slice()) {
        Some(FileExtension::Js)
    } else if bytes_eq(t, text("Css").as_slice()) {
        Some(FileExtension::Css)
    } else if bytes_eq(t, text("Html").as_slice()) {
        Some(FileExtension::Html)
    } else if bytes_eq(t, text("Txt").as_slice()) {
        Some(FileExtension::Txt)
    } else if bytes_eq(t, text("Zig").as_slice()) {
        Some(FileExtension::Zig)
    } else if bytes_eq(t, text("Pdf").as_slice()) {
        Some(FileExtension::Pdf)
    } else if bytes_eq(t, text("Mobi").as_slice()) {
        Some(FileExtension::Mobi)
    } else if bytes_eq(t, text("Epub").as_slice()) {
        Some(FileExtension::Epub)
    } else if bytes_eq(t, text("Docx").as_slice()) {
        Some(FileExtension::Docx)
    } else if bytes_eq(t, text("Pptx").as_slice()) {
        Some(FileExtension::Pptx)
    } else if bytes_eq(t, text("Xlsx").as_slice()) {
        Some(FileExtension::Xlsx)
    } else if bytes_eq(t, text("Rar").as_slice()) {
        Some(FileExtension::Rar)
    } else if bytes_eq(t, text("Zip").as_slice()) {
        Some(FileExtension::Zip)
    } else if bytes_eq(t, text("__7z").as_slice()) {
        Some(FileExtension::__7z)
    } else if bytes_eq(t, text("Tar").as_slice()) {
        Some(FileExtension::Tar)
    } else if bytes_eq(t, text("Gzip").as_slice()) {
        Some(FileExtension::Gzip)
    } else if bytes_eq(t, text("Jpeg").as_slice()) {
        Some(FileExtension::Jpeg)
    } else if bytes_eq(t, text("Jpg").as_slice()) {
        Some(FileExtension::Jpg)
    } else if bytes_eq(t, text("Png").as_slice()) {
        Some(FileExtension::Png)
    } else if bytes_eq(t, text("Gif").as_slice()) {
        Some(FileExtension::Gif)
    } else if bytes_eq(t, text("Svg").as_slice()) {
        Some(FileExtension::Svg)
    } else if bytes_eq(t, text("Mp3").as_slice()) {
        Some(FileExtension::Mp3)
    } else if bytes_eq(t, text("Mp4").as_slice()) {
        Some(FileExtension::Mp4)
    } else {
        None
    }
}

impl FileExtension {
    /// The extension that a file name's suffix stands for.
    pub fn from_suffix(s: &[u8]) -> (r: Option<FileExtension>)
        ensures
            r == extension_named(formatted(s@)),
    {
        let f = extension_formatted(s);
        parse_extension_name(f.as_slice())
    }
}

/// What kind of entry a path is.
#[derive(Debug, Clone, Copy, PartialEq, Eq, Structural)]
pub enum FileKind {
    File,
    Dir,
    SymLink,
    Other,
}

impl FileKind {
    pub fn is_dir(&self) -> (r: bool)
        ensures
            r == (*self == FileKind::Dir),
    {
        match self {
            FileKind::Dir => true,
            _ => false,
        }
    }

    pub fn is_file(&self) -> (r: bool)
        ensures
            r == (*self == FileKind::File),
    {
        match self {
            FileKind::File => true,
            _ => false,
        }
    }
}

pub open spec fn kind_of(is_file: bool, is_dir: bool, is_symlink: bool) -> FileKind {
    if is_file {
        FileKind::File
    } else if is_dir {
        FileKind::Dir
    } else if is_symlink {
        FileKind::SymLink
    } else {
        FileKind::Other
    }
}

impl FileKind {
    /// The kind of an entry from what its file type reports.
    pub fn from_type(is_file: bool, is_dir: bool, is_symlink: bool) -> (r: FileKind)
        ensures
            r == kind_of(is_file, is_dir, is_symlink),
    {
        if is_file {
            FileKind::File
        } else if is_dir {
            FileKind::Dir
        } else if is_symlink {
            FileKind::SymLink
        } else {
            FileKind::Other
        }
    }
}

pub open spec fn node_of(k: FileKind, path: Vec<u8>) -> Node {
    match k {
        FileKind::Dir => Node::Dir(path),
        FileKind::File => Node::File(path),
        FileKind::SymLink => Node::SymLink(path),
        FileKind::Other => Node::Error,
    }
}

impl Node {
    /// The node of an entry of the given kind; an entry of no known kind is
    /// an error node.
    pub fn from_kind(k: FileKind, path: Vec<u8>) -> (r: Node)
        ensures
            r == node_of(k, path),
    {
        match k {
            FileKind::Dir => Node::Dir(path),
            FileKind::File => Node::File(path),
            FileKind::SymLink => Node::SymLink(path),
            FileKind::Other => Node::Error,
        }
    }
}

/// Index of the last occurrence of `c` in `s`, or -1.
pub open spec fn last_index(s: Seq<u8>, c: u8) -> int
    decreases s.len(),
{
    if s.len() == 0 {
        -1
    } else if s.last() == c {
        s.len() - 1
    } else {
        last_index(s.drop_last(), c)
    }
}

fn rfind(s: &[u8], c: u8) -> (r: Option<usize>)
    ensures
        match r {
            Some(k) => k < s@.len() && last_index(s@, c) == k,
            None => last_index(s@, c) < 0,
        },
{
    let mut j: usize = s.len();
    assert(s@.subrange(0, s@.len() as int) =~= s@);
    while j > 0
        invariant
            j <= s@.len(),
            last_index(s@, c) == last_index(s@.subrange(0, j as int), c),
        decreases j,
    {
        let ghost t = s@.subrange(0, j as int);
        if s[j - 1] == c {
            return Some(j - 1);
        }
        assert(t.drop_last() =~= s@.subrange(0, j - 1));
        j = j - 1;
    }
    None
}

/// The last component of a path.
pub open spec fn name_of(p: Seq<u8>) -> Seq<u8> {
    let k = last_index(p, SLASH);
    if 0 <= k < p.len() { p.subrange(k + 1, p.len() as int) } else { p }
}

pub fn name(p: &[u8]) -> (r: Vec<u8>)
    ensures
        r@ == name_of(p@),
{
    assert(p@.subrange(0, p@.len() as int) =~= p@);
    let n = p.len();
    match rfind(p, SLASH) {
        Some(k) => copy_range(p, k + 1, p.len()),
        None => copy_range(p, 0, p.len()),
    }
}

/// The extension of a file path: what follows its last dot, if short enough
/// and known. Directories have none.
pub open spec fn extension_of(p: Seq<u8>, k: FileKind) -> Option<FileExtension> {
    let d = last_index(p, DOT);
    if k == FileKind::Dir || d < 0 || p.len() - d > 11 {
        None
    } else {
        extension_named(formatted(p.subrange(d + 1, p.len() as int)))
    }
}

pub fn extension(p: &[u8], k: FileKind) -> (r: Option<FileExtension>)
    ensures
        r == extension_of(p@, k),
{
    if k.is_dir() {
        return None;
    }
    let start = match rfind(p, DOT) {
        Some(s) => s,
        None => return None,
    };
    if p.len() - start > 11 {
        return None;
    }
    FileExtension::from_suffix(&p[start + 1..p.len()])
}

/// The HTML of one file entry of the tree.
pub open spec fn file_html(file_name: Seq<u8>, level: u8, file_class: Seq<u8>) -> Seq<u8> {
    ascii("<span class='"@) + file_class + ascii("' level='"@) + decimal(level as nat) + ascii("' name='"@) + file_name
        + ascii("'>"@) + file_name + ascii("</span>"@)
}

pub fn file(file_name: &[u8], level: u8, file_class: &[u8]) -> (r: Vec<u8>)
    ensures
        r@ == file_html(file_name@, level, file_class@),
{
    proof {
        reveal_strlit("<span class='");
        reveal_strlit("' level='");
        reveal_strlit("' name='");
        reveal_strlit("'>");
        reveal_strlit("</span>");
    }
    let mut r = text("<span class='");
    append_bytes(&mut r, file_class);
    append_bytes(&mut r, text("' level='").as_slice());
    push_decimal(&mut r, level as u64);
    append_bytes(&mut r, text("' name='").as_slice());
    append_bytes(&mut r, file_name);
    append_bytes(&mut r, text("'>").as_slice());
    append_bytes(&mut r, file_name);
    append_bytes(&mut r, text("</span>").as_slice());
    r
}

/// A unit of byte counts.
#[derive(Debug, Clone, Copy, PartialEq, Eq, Structural)]
pub enum BytesUnit {
    TiB,
    GiB,
    MiB,
    KiB,
    B,
}

pub open spec fn unit_named(s: Seq<u8>) -> Option<BytesUnit> {
    if s == ascii("TiB"@) {
        Some(BytesUnit::TiB)
    } else if s == ascii("GiB"@) {
        Some(BytesUnit::GiB)
    } else if s == ascii("MiB"@) {
        Some(BytesUnit::MiB)
    } else if s == ascii("KiB"@) {
        Some(BytesUnit::KiB)
    } else if s == ascii("B"@) {
        Some(BytesUnit::B)
    } else {
        None
    }
}

impl BytesUnit {
    /// The unit that a symbol names.
    pub fn try_from(s: &[u8]) -> (r: Option<BytesUnit>)
        ensures
            r == unit_named(s@),
    {
        proof {
            reveal_strlit("TiB");
            reveal_strlit("GiB");
            reveal_strlit("MiB");
            reveal_strlit("KiB");
            reveal_strlit("B");
        }
        if bytes_eq(s, text("TiB").as_slice()) {
            Some(BytesUnit::TiB)
        } else if bytes_eq(s, text("GiB").as_slice()) {
            Some(BytesUnit::GiB)
        } else if bytes_eq(s, text("MiB").as_slice()) {
            Some(BytesUnit::MiB)
        } else if bytes_eq(s, text("KiB").as_slice()) {
            Some(BytesUnit::KiB)
        } else if bytes_eq(s, text("B").as_slice()) {
            Some(BytesUnit::B)
        } else {
            None
        }
    }
}


/// `s` with every leading copy of `p` cut off.
pub open spec fn strip_prefixes(s: Seq<u8>, p: Seq<u8>) -> Seq<u8>
    decreases s.len(),
{
    if p.len() > 0 && has_prefix(s, p) {
        strip_prefixes(s.subrange(p.len() as int, s.len() as int), p)
    } else {
        s
    }
}

fn strip_all(s: &[u8], p: &[u8]) -> (r: Vec<u8>)
    ensures
        r@ == strip_prefixes(s@, p@),
{
    let mut i: usize = 0;
    assert(s@.subrange(0, s@.len() as int) =~= s@);
    while i < s.len() && p.len() > 0 && starts_with(&s[i..s.len()], p)
        invariant
            0 <= i <= s@.len(),
            strip_prefixes(s@, p@) == strip_prefixes(s@.subrange(i as int, s@.len() as int), p@),
        decreases s@.len() - i,
    {
        let ghost t = s@.subrange(i as int, s@.len() as int);
        assert(t.subrange(p@.len() as int, t.len() as int) =~= s@.subrange(i + p@.len(), s@.len() as int));
        i = i + p.len();
    }
    proof {
        let t = s@.subrange(i as int, s@.len() as int);
        if i == s@.len() && p@.len() > 0 {
            assert(t.len() == 0);
            assert(!has_prefix(t, p@));
        }
    }
    copy_range(s, i, s.len())
}

/// A file sent to the drive: its contents and where it goes.
#[derive(Debug, Clone, PartialEq, Eq)]
pub struct Upload {
    pub data: Vec<u8>,
    pub name: Vec<u8>,
}

pub open spec fn upload_dir() -> Seq<u8> {
    ascii("uploads/"@)
}

pub open spec fn fake_path() -> Seq<u8> {
    ascii("C:\\fakepath\\"@)
}

impl Upload {
    /// The body is the contents; the `name` query parameter, without the
    /// browser's fake directory, names the file under `uploads/`.
    pub fn from_request(req: &Request) -> (r: Result<Upload, HttpError>)
        ensures
            match (req@.body, query_param(req@, ascii("name"@))) {
                (Some(b), Some(n)) => r is Ok && r->Ok_0.data@ == b && r->Ok_0.name@ == upload_dir() + strip_prefixes(
                    n,
                    fake_path(),
                ),
                _ => r == Err::<Upload, HttpError>(HttpError::MalformedInput),
            },
    {
        proof {
            reveal_strlit("name");
            reveal_strlit("uploads/");
            reveal_strlit("C:\\fakepath\\");
        }
        let data = match &req.body {
            Some(b) => {
                assert(b@.subrange(0, b@.len() as int) =~= b@);
                copy_range(b.as_slice(), 0, b.len())
            },
            None => return Err(HttpError::MalformedInput),
        };
        let n = match request_param(req, text("name").as_slice()) {
            Some(n) => n,
            None => return Err(HttpError::MalformedInput),
        };
        let mut name = text("uploads/");
        let stripped = strip_all(n.as_slice(), text("C:\\fakepath\\").as_slice());
        append_bytes(&mut name, stripped.as_slice());
        Ok(Upload { data, name })
    }
}

/// The parameters of the file tree page.
#[derive(Debug, Clone, PartialEq, Eq)]
pub struct FileTreeParams {
    pub path: Vec<u8>,
    pub ssr: bool,
    pub file: Vec<u8>,
    pub children: Vec<u8>,
    pub parent: Vec<u8>,
    pub dir: Vec<u8>,
}

pub open spec fn param_or(req: RequestView, key: Seq<u8>, default: Seq<u8>) -> Seq<u8> {
    match query_param(req, key) {
        Some(v) => v,
        None => default,
    }
}

fn request_param_or(req: &Request, key: &[u8], default: Vec<u8>) -> (r: Vec<u8>)
    ensures
        r@ == param_or(req@, key@, default@),
{
    match request_param(req, key) {
        Some(v) => v,
        None => default,
    }
}

impl FileTreeParams {
    /// Each parameter from the query, or its default; `ssr` is whether the
    /// query names it at all.
    pub fn from_request(req: &Request) -> (r: FileTreeParams)
        ensures
            r.path@ == param_or(req@, ascii("path"@), ascii("."@)),
            r.ssr == query_param(req@, ascii("ssr"@)) is Some,
            r.file@ == param_or(req@, ascii("file"@), ascii("<styles/File>"@)),
            r.children@ == param_or(req@, ascii("children"@), ascii("<styles/Children>"@)),
            r.parent@ == param_or(req@, ascii("parent"@), ascii("<styles/Parent>"@)),
            r.dir@ == param_or(req@, ascii("dir"@), ascii("<styles/Dir>"@)),
    {
        proof {
            reveal_strlit("path");
            reveal_strlit(".");
            reveal_strlit("ssr");
            reveal_strlit("file");
            reveal_strlit("<styles/File>");
            reveal_strlit("children");
            reveal_strlit("<styles/Children>");
            reveal_strlit("parent");
            reveal_strlit("<styles/Parent>");
            reveal_strlit("dir");
            reveal_strlit("<styles/Dir>");
        }
        FileTreeParams {
            path: request_param_or(req, text("path").as_slice(), text(".")),
            ssr: request_param(req, text("ssr").as_slice()).is_some(),
            file: request_param_or(req, text("file").as_slice(), text("<styles/File>")),
            children: request_param_or(req, text("children").as_slice(), text("<styles/Children>")),
            parent: request_param_or(req, text("parent").as_slice(), text("<styles/Parent>")),
            dir: request_param_or(req, text("dir").as_slice(), text("<styles/Dir>")),
        }
    }
}


/// A directory met by the walker, with the index of its entry list.
#[derive(Debug, Clone, PartialEq, Eq)]
pub struct Dir {
    pub path: Vec<u8>,
    pub idx: usize,
}

impl View for Dir {
    type V = (Seq<u8>, usize);

    open spec fn view(&self) -> (Seq<u8>, usize) {
        (self.path@, self.idx)
    }
}

pub open spec fn dir_views(ds: Seq<Dir>) -> Seq<(Seq<u8>, usize)> {
    ds.map_values(|d: Dir| d@)
}

/// `d` put into `s` before the first directory with a greater index.
pub open spec fn insert_by_idx(s: Seq<(Seq<u8>, usize)>, d: (Seq<u8>, usize)) -> Seq<(Seq<u8>, usize)>
    decreases s.len(),
{
    if s.len() == 0 {
        seq![d]
    } else if s[0].1 > d.1 {
        seq![d] + s
    } else {
        seq![s[0]] + insert_by_idx(s.drop_first(), d)
    }
}

/// The directories ordered by index; equal indices keep their order.
pub open spec fn sort_by_idx(s: Seq<(Seq<u8>, usize)>) -> Seq<(Seq<u8>, usize)>
    decreases s.len(),
{
    if s.len() == 0 {
        s
    } else {
        insert_by_idx(sort_by_idx(s.drop_last()), s.last())
    }
}

/// What the walker gathered: each directory met, and the entry list of each.
#[derive(Debug, Clone, PartialEq, Eq)]
pub struct FileTreeWalker {
    pub dirs: Vec<Dir>,
    pub nodes: Vec<Vec<Vec<u8>>>,
}

/// The tree of a directory, with paths relative to its base.
#[derive(Debug, Clone, PartialEq, Eq)]
pub struct FileTree {
    pub nodes: Vec<Vec<Vec<u8>>>,
    pub dirs: Vec<Vec<u8>>,
    pub base: Vec<u8>,
}

pub open spec fn root_name() -> Seq<u8> {
    ascii("/"@)
}

/// How a directory is named in the tree: the root is `/`, the others lose
/// the base.
pub open spec fn dir_name(d: Seq<u8>, base: Seq<u8>) -> Seq<u8> {
    if d == base {
        root_name()
    } else {
        strip_prefixes(d, base)
    }
}

fn index_of_insert(out: &Vec<Dir>, idx: usize) -> (r: usize)
    ensures
        r <= out@.len(),
        forall|j: int| 0 <= j < r ==> (#[trigger] out@[j]).idx <= idx,
        r < out@.len() ==> out@[r as int].idx > idx,
{
    let mut i: usize = 0;
    while i < out.len() && out[i].idx <= idx
        invariant
            0 <= i <= out@.len(),
            forall|j: int| 0 <= j < i ==> (#[trigger] out@[j]).idx <= idx,
        decreases out@.len() - i,
    {
        i = i + 1;
    }
    i
}

proof fn lemma_insert_at(s: Seq<(Seq<u8>, usize)>, d: (Seq<u8>, usize), r: int)
    requires
        0 <= r <= s.len(),
        forall|j: int| 0 <= j < r ==> (#[trigger] s[j]).1 <= d.1,
        r < s.len() ==> s[r].1 > d.1,
    ensures
        insert_by_idx(s, d) == s.insert(r, d),
    decreases s.len(),
{
    if s.len() == 0 {
        assert(s.insert(r, d) =~= seq![d]);
    } else if r == 0 {
        assert(s.insert(r, d) =~= seq![d] + s);
    } else {
        let t = s.drop_first();
        assert forall|j: int| 0 <= j < r - 1 implies (#[trigger] t[j]).1 <= d.1 by {
            assert(t[j] == s[j + 1]);
        }
        lemma_insert_at(t, d, r - 1);
        assert(s.insert(r, d) =~= seq![s[0]] + t.insert(r - 1, d));
    }
}

proof fn lemma_sort_len(s: Seq<(Seq<u8>, usize)>)
    ensures
        sort_by_idx(s).len() == s.len(),
    decreases s.len(),
{
    if s.len() > 0 {
        lemma_sort_len(s.drop_last());
        lemma_insert_len(sort_by_idx(s.drop_last()), s.last());
    }
}

proof fn lemma_insert_len(s: Seq<(Seq<u8>, usize)>, d: (Seq<u8>, usize))
    ensures
        insert_by_idx(s, d).len() == s.len() + 1,
    decreases s.len(),
{
    if s.len() > 0 && s[0].1 <= d.1 {
        lemma_insert_len(s.drop_first(), d);
    }
}

fn sort_dirs(dirs: Vec<Dir>) -> (r: Vec<Dir>)
    ensures
        dir_views(r@) == sort_by_idx(dir_views(dirs@)),
{
    let mut out: Vec<Dir> = Vec::new();
    let mut i: usize = 0;
    let ghost all = dir_views(dirs@);
    assert(dir_views(out@) =~= sort_by_idx(all.subrange(0, 0)));
    while i < dirs.len()
        invariant
            0 <= i <= dirs@.len(),
            all == dir_views(dirs@),
            dir_views(out@) == sort_by_idx(all.subrange(0, i as int)),
        decreases dirs@.len() - i,
    {
        let d = Dir { path: copy_range(dirs[i].path.as_slice(), 0, dirs[i].path.len()), idx: dirs[i].idx };
        assert(dirs@[i as int].path@.subrange(0, dirs@[i as int].path@.len() as int) =~= dirs@[i as int].path@);
        let at = index_of_insert(&out, d.idx);
        let ghost before = out@;
        proof {
            assert forall|j: int| 0 <= j < at implies (#[trigger] dir_views(before)[j]).1 <= d.idx by {
                assert(dir_views(before)[j] == before[j]@);
            }
            if at < before.len() {
                assert(dir_views(before)[at as int] == before[at as int]@);
            }
            lemma_insert_at(dir_views(before), d@, at as int);
            let t = all.subrange(0, i + 1);
            assert(t.drop_last() =~= all.subrange(0, i as int));
            assert(t.last() == d@);
        }
        out.insert(at, d);
        assert(dir_views(out@) =~= dir_views(before).insert(at as int, d@));
        i = i + 1;
    }
    assert(all.subrange(0, i as int) =~= all);
    out
}

impl FileTreeWalker {
    /// The tree that the walk of `p` gathered: directories in the order they
    /// were met, entries and directories named relative to `p`.
    pub fn walk(self, p: &[u8]) -> (r: FileTree)
        ensures
            r.base@ == p@,
            r.nodes@.len() == self.nodes@.len(),
            forall|i: int| #![trigger r.nodes@[i]]
                0 <= i < r.nodes@.len() ==> r.nodes@[i]@.len() == self.nodes@[i]@.len() && forall|j: int|
                    0 <= j < r.nodes@[i]@.len() ==> (#[trigger] r.nodes@[i]@[j])@ == strip_prefixes(
                        self.nodes@[i]@[j]@,
                        p@,
                    ),
            r.dirs@.len() == self.dirs@.len(),
            forall|i: int|
                0 <= i < r.dirs@.len() ==> (#[trigger] r.dirs@[i])@ == dir_name(
                    sort_by_idx(dir_views(self.dirs@))[i].0,
                    p@,
                ),
    {
        let sorted = sort_dirs(self.dirs);
        let mut nodes: Vec<Vec<Vec<u8>>> = Vec::new();
        let mut i: usize = 0;
        while i < self.nodes.len()
            invariant
                0 <= i <= self.nodes@.len(),
                nodes@.len() == i,
                forall|k: int| #![trigger nodes@[k]]
                    0 <= k < i ==> nodes@[k]@.len() == self.nodes@[k]@.len() && forall|j: int|
                        0 <= j < nodes@[k]@.len() ==> (#[trigger] nodes@[k]@[j])@ == strip_prefixes(
                            self.nodes@[k]@[j]@,
                            p@,
                        ),
            decreases self.nodes@.len() - i,
        {
            let list = &self.nodes[i];
            let mut trimmed: Vec<Vec<u8>> = Vec::new();
            let mut j: usize = 0;
            while j < list.len()
                invariant
                    0 <= j <= list@.len(),
                    i < self.nodes@.len(),
                    list == self.nodes@[i as int],
                    trimmed@.len() == j,
                    forall|m: int| 0 <= m < j ==> (#[trigger] trimmed@[m])@ == strip_prefixes(list@[m]@, p@),
                decreases list@.len() - j,
            {
                trimmed.push(strip_all(list[j].as_slice(), p));
                j = j + 1;
            }
            nodes.push(trimmed);
            i = i + 1;
        }
        let ghost sv = dir_views(sorted@);
        let mut dirs: Vec<Vec<u8>> = Vec::new();
        let mut k: usize = 0;
        while k < sorted.len()
            invariant
                0 <= k <= sorted@.len(),
                sv == dir_views(sorted@),
                dirs@.len() == k,
                forall|m: int| 0 <= m < k ==> (#[trigger] dirs@[m])@ == dir_name(sv[m].0, p@),
            decreases sorted@.len() - k,
        {
            proof {
                reveal_strlit("/");
            }
            assert(sv[k as int].0 == sorted@[k as int].path@);
            let d = sorted[k].path.as_slice();
            let name = if bytes_eq(d, p) { text("/") } else { strip_all(d, p) };
            dirs.push(name);
            k = k + 1;
        }
        let base = copy_range(p, 0, p.len());
        assert(p@.subrange(0, p@.len() as int) =~= p@);
        proof {
            lemma_sort_len(dir_views(self.dirs@));
        }
        FileTree { nodes, dirs, base }
    }
}


/// The classes of the four kinds of element of the rendered tree.
#[derive(Debug, Clone, PartialEq, Eq)]
pub struct TreeClasses {
    pub file: Vec<u8>,
    pub dir: Vec<u8>,
    pub parent: Vec<u8>,
    pub children: Vec<u8>,
}

/// The HTML of a directory whose entries render as `nodes`.
pub open spec fn dir_html(directory: Seq<u8>, level: u8, nodes: Seq<u8>, c: TreeClasses) -> Seq<u8> {
    ascii("<div class='"@) + c.dir@ + ascii("' level='"@) + decimal(level as nat) + ascii("' name='"@) + directory
        + ascii("' nodes='"@) + nodes + ascii("'>\n<span class='"@) + c.parent@ + ascii("' level='"@) + decimal(
        level as nat,
    ) + ascii("'>"@) + directory + ascii("</span>\n<div class='"@) + c.children@ + ascii("' level='"@) + decimal(
        level as nat,
    ) + ascii("'>"@) + nodes + ascii("</div>\n</div>"@)
}

/// The listings of a tree, as mathematical values.
pub struct TreeView {
    pub dirs: Seq<Seq<u8>>,
    pub nodes: Seq<Seq<Seq<u8>>>,
    /// Which entries are directories.
    pub kinds: Seq<Seq<bool>>,
}

/// Renders the directory whose listing is the `at`-th; directories met
/// below take the listings that follow, in order. Gives the HTML and the
/// index of the next listing; `None` when listings run out, a listing and
/// its kinds differ in length, the nesting passes `depth` or level 255.
pub open spec fn render_dir(t: TreeView, at: int, level: u8, depth: nat, c: TreeClasses) -> Option<(Seq<u8>, int)>
    decreases depth, 0int,
{
    if depth == 0 || at < 0 || at >= t.dirs.len() || at >= t.nodes.len() || at >= t.kinds.len()
        || t.kinds[at].len() != t.nodes[at].len() {
        None
    } else {
        match render_entries(t, at, 0, at + 1, level, (depth - 1) as nat, c) {
            None => None,
            Some(r) => Some((dir_html(t.dirs[at], level, r.0, c), r.1)),
        }
    }
}

/// Renders the entries of listing `i` from the `k`-th on, below a directory
/// at `level`; `next` is the index of the next unused listing.
pub open spec fn render_entries(
    t: TreeView,
    i: int,
    k: int,
    next: int,
    level: u8,
    depth: nat,
    c: TreeClasses,
) -> Option<(Seq<u8>, int)>
    decreases depth, (if 0 <= i < t.nodes.len() && k <= t.nodes[i].len() { t.nodes[i].len() - k + 1 } else { 0 }),
{
    if !(0 <= i < t.nodes.len() && 0 <= i < t.kinds.len() && 0 <= k <= t.nodes[i].len() && t.kinds[i].len()
        == t.nodes[i].len()) {
        None
    } else if k == t.nodes[i].len() {
        Some((Seq::empty(), next))
    } else if level == 255 {
        None
    } else {
        let first = if t.kinds[i][k] {
            render_dir(t, next, (level + 1) as u8, depth, c)
        } else {
            Some((file_html(t.nodes[i][k], (level + 1) as u8, c.file@), next))
        };
        match first {
            None => None,
            Some(f) => match render_entries(t, i, k + 1, f.1, level, depth, c) {
                None => None,
                Some(r) => Some((f.0 + r.0, r.1)),
            },
        }
    }
}

impl FileTree {
    pub open spec fn tree_view(&self, kinds: Seq<Vec<bool>>) -> TreeView {
        TreeView {
            dirs: self.dirs@.map_values(|d: Vec<u8>| d@),
            nodes: self.nodes@.map_values(|l: Vec<Vec<u8>>| l@.map_values(|n: Vec<u8>| n@)),
            kinds: kinds.map_values(|l: Vec<bool>| l@),
        }
    }
}

#[verifier::rlimit(50)]
fn render_dir_exec(
    tree: &FileTree,
    kinds: &Vec<Vec<bool>>,
    at: &mut usize,
    level: u8,
    depth: usize,
    c: &TreeClasses,
) -> (r: Option<Vec<u8>>)
    ensures
        match render_dir(tree.tree_view(kinds@), *old(at) as int, level, depth as nat, *c) {
            None => r is None,
            Some(x) => r is Some && r->0@ == x.0 && *final(at) == x.1,
        },
    decreases depth,
{
    let ghost t = tree.tree_view(kinds@);
    let i = *at;
    if depth == 0 || i >= tree.dirs.len() || i >= tree.nodes.len() || i >= kinds.len()
        || kinds[i].len() != tree.nodes[i].len() {
        return None;
    }
    assert(t.nodes[i as int] == tree.nodes@[i as int]@.map_values(|n: Vec<u8>| n@));
    assert(t.kinds[i as int] == kinds@[i as int]@);
    let list = &tree.nodes[i];
    let flags = &kinds[i];
    *at = i + 1;
    let mut html: Vec<u8> = Vec::new();
    let mut k: usize = 0;
    let ghost whole = render_entries(t, i as int, 0, i + 1, level, (depth - 1) as nat, *c);
    assert(whole == match render_entries(t, i as int, 0, *at as int, level, (depth - 1) as nat, *c) {
        None => None,
        Some(r) => Some((html@ + r.0, r.1)),
    }) by {
        assert forall|x: Seq<u8>| Seq::<u8>::empty() + x == x by {
            assert(Seq::<u8>::empty() + x =~= x);
        }
    }
    while k < list.len()
        invariant
            t == tree.tree_view(kinds@),
            whole == render_entries(t, i as int, 0, i + 1, level, (depth - 1) as nat, *c),
            i == *old(at),
            i < tree.dirs@.len(),
            i < tree.nodes@.len(),
            i < kinds@.len(),
            list == tree.nodes@[i as int],
            flags == kinds@[i as int],
            flags@.len() == list@.len(),
            t.nodes[i as int] == list@.map_values(|n: Vec<u8>| n@),
            t.kinds[i as int] == flags@,
            0 < depth,
            0 <= k <= list@.len(),
            whole == match render_entries(t, i as int, k as int, *at as int, level, (depth - 1) as nat, *c) {
                None => None,
                Some(r) => Some((html@ + r.0, r.1)),
            },
        decreases list@.len() - k,
    {
        if level == 255 {
            assert(render_entries(t, i as int, k as int, *at as int, level, (depth - 1) as nat, *c) is None);
            return None;
        }
        let ghost before = html@;
        let ghost cur = *at as int;
        if flags[k] {
            match render_dir_exec(tree, kinds, at, level + 1, depth - 1, c) {
                None => {
                    assert(render_entries(t, i as int, k as int, cur, level, (depth - 1) as nat, *c) is None);
                    return None;
                },
                Some(h) => {
                    append_bytes(&mut html, h.as_slice());
                },
            }
        } else {
            let h = file(list[k].as_slice(), level + 1, c.file.as_slice());
            assert(t.nodes[i as int][k as int] == list@[k as int]@);
            append_bytes(&mut html, h.as_slice());
        }
        proof {
            match render_entries(t, i as int, k + 1, *at as int, level, (depth - 1) as nat, *c) {
                None => {},
                Some(r) => {
                    assert(before + (html@.subrange(before.len() as int, html@.len() as int) + r.0) =~= html@ + r.0);
                },
            }
            assert(html@ == before + html@.subrange(before.len() as int, html@.len() as int));
        }
        k = k + 1;
    }
    let out = dir_text(tree.dirs[i].as_slice(), level, html.as_slice(), c);
    assert(t.dirs[i as int] == tree.dirs@[i as int]@);
    assert(html@ + Seq::<u8>::empty() =~= html@);
    Some(out)
}

fn dir_text(directory: &[u8], level: u8, nodes: &[u8], c: &TreeClasses) -> (r: Vec<u8>)
    ensures
        r@ == dir_html(directory@, level, nodes@, *c),
{
    proof {
        reveal_strlit("<div class='");
        reveal_strlit("' level='");
        reveal_strlit("' name='");
        reveal_strlit("' nodes='");
        reveal_strlit("'>\n<span class='");
        reveal_strlit("'>");
        reveal_strlit("</span>\n<div class='");
        reveal_strlit("</div>\n</div>");
    }
    let mut r = text("<div class='");
    append_bytes(&mut r, c.dir.as_slice());
    append_bytes(&mut r, text("' level='").as_slice());
    push_decimal(&mut r, level as u64);
    append_bytes(&mut r, text("' name='").as_slice());
    append_bytes(&mut r, directory);
    append_bytes(&mut r, text("' nodes='").as_slice());
    append_bytes(&mut r, nodes);
    append_bytes(&mut r, text("'>\n<span class='").as_slice());
    append_bytes(&mut r, c.parent.as_slice());
    append_bytes(&mut r, text("' level='").as_slice());
    push_decimal(&mut r, level as u64);
    append_bytes(&mut r, text("'>").as_slice());
    append_bytes(&mut r, directory);
    append_bytes(&mut r, text("</span>\n<div class='").as_slice());
    append_bytes(&mut r, c.children.as_slice());
    append_bytes(&mut r, text("' level='").as_slice());
    push_decimal(&mut r, level as u64);
    append_bytes(&mut r, text("'>").as_slice());
    append_bytes(&mut r, nodes);
    append_bytes(&mut r, text("</div>\n</div>").as_slice());
    r
}

impl FileTree {
    /// Renders the tree as HTML, from its first listing down. `kinds` tells,
    /// for each entry of each listing, whether it is a directory. `None` when
    /// the listings do not fit together (see `render_dir`).
    pub fn ssr(&self, kinds: &Vec<Vec<bool>>, c: &TreeClasses) -> (r: Option<Vec<u8>>)
        ensures
            match render_dir(self.tree_view(kinds@), 0, 0, self.dirs@.len() as nat, *c) {
                None => r is None,
                Some(x) => r is Some && r->0@ == x.0,
            },
    {
        let mut at: usize = 0;
        render_dir_exec(self, kinds, &mut at, 0, self.dirs.len(), c)
    }
}

} // verus!
