use vstd::prelude::*;
use vstd::string::*;
use vstd::utf8::{valid_utf8, decode_utf8};
use crate::value::{Val, Value, entries_view};

verus! {

/// Relies on std's `str::from_utf8`: it accepts exactly the valid UTF-8
/// byte strings and yields the characters they encode.
#[verifier::external_body]
pub(crate) fn utf8_text(b: &[u8]) -> (r: Option<String>)
    ensures
        match r {
            Some(s) => valid_utf8(b@) && s@ == decode_utf8(b@),
            None => !valid_utf8(b@),
        },
{
    std::str::from_utf8(b).ok().map(|s| s.to_string())
}

/// The value bound to `k` (first binding).
pub open spec fn lookup(d: Seq<(Seq<u8>, Val)>, k: Seq<u8>) -> Option<Val>
    decreases d.len(),
{
    if d.len() == 0 {
        None
    } else if d[0].0 == k {
        Some(d[0].1)
    } else {
        lookup(d.drop_first(), k)
    }
}

/// A bound value is one of the mapping's values.
pub proof fn lemma_lookup_member(d: Seq<(Seq<u8>, Val)>, k: Seq<u8>)
    requires
        lookup(d, k) is Some,
    ensures
        exists|j: int| 0 <= j < d.len() && (#[trigger] d[j]).1 == lookup(d, k)->0,
    decreases d.len(),
{
    if d[0].0 != k {
        lemma_lookup_member(d.drop_first(), k);
        let j = choose|j: int| 0 <= j < d.len() - 1 && (#[trigger] d.drop_first()[j]).1 == lookup(d, k)->0;
        assert(d[j + 1] == d.drop_first()[j]);
    } else {
        assert(d[0].1 == lookup(d, k)->0);
    }
}

pub open spec fn text_val(v: Val) -> Option<Seq<char>> {
    match v {
        Val::Str(b) => if valid_utf8(b) { Some(decode_utf8(b)) } else { None },
        _ => None,
    }
}

pub open spec fn int_val(v: Val) -> Option<int> {
    match v {
        Val::Int(n) => Some(n),
        _ => None,
    }
}

/// A one-byte flag, such as "private".
pub open spec fn flag_val(v: Val) -> Option<int> {
    match v {
        Val::Int(n) => if 0 <= n <= 255 { Some(n) } else { None },
        _ => None,
    }
}

pub open spec fn bytes_val(v: Val) -> Option<Seq<u8>> {
    match v {
        Val::Str(b) => Some(b),
        _ => None,
    }
}

/// A list whose every item converts.
pub open spec fn list_of<T>(v: Val, conv: spec_fn(Val) -> Option<T>) -> Option<Seq<T>> {
    match v {
        Val::List(l) => if forall|i: int| 0 <= i < l.len() ==> conv(#[trigger] l[i]) is Some {
            Some(Seq::new(l.len(), |i: int| conv(l[i])->0))
        } else {
            None
        },
        _ => None,
    }
}

pub open spec fn text_list_val(v: Val) -> Option<Seq<Seq<char>>> {
    list_of(v, |x: Val| text_val(x))
}

pub open spec fn text_lists_val(v: Val) -> Option<Seq<Seq<Seq<char>>>> {
    list_of(v, |x: Val| text_list_val(x))
}

/// A DHT node is written as a two-item list: host, then port.
pub open spec fn node_val(v: Val) -> Option<(Seq<char>, int)> {
    match v {
        Val::List(l) => if l.len() == 2 && text_val(l[0]) is Some && int_val(l[1]) is Some {
            Some((text_val(l[0])->0, int_val(l[1])->0))
        } else {
            None
        },
        _ => None,
    }
}

pub open spec fn nodes_val(v: Val) -> Option<Seq<(Seq<char>, int)>> {
    list_of(v, |x: Val| node_val(x))
}

/// A field that may be absent: `None` when present with the wrong shape.
pub open spec fn optional<T>(d: Seq<(Seq<u8>, Val)>, k: Seq<u8>, conv: spec_fn(Val) -> Option<T>) -> Option<Option<T>> {
    match lookup(d, k) {
        None => Some(None),
        Some(v) => match conv(v) {
            Some(t) => Some(Some(t)),
            None => None,
        },
    }
}

/// A field that must be present with the right shape.
pub open spec fn required<T>(d: Seq<(Seq<u8>, Val)>, k: Seq<u8>, conv: spec_fn(Val) -> Option<T>) -> Option<T> {
    match lookup(d, k) {
        None => None,
        Some(v) => conv(v),
    }
}

/// The failure of a field that must be present with the right shape.
pub open spec fn required_error<T>(d: Seq<(Seq<u8>, Val)>, key: &'static str, conv: spec_fn(Val) -> Option<T>) -> Option<SchemaError> {
    match lookup(d, key.spec_bytes()) {
        None => Some(SchemaError::MissingKey(key)),
        Some(x) => if conv(x) is None { Some(SchemaError::WrongType(key)) } else { None },
    }
}

/// The failure of a field that may be absent.
pub open spec fn optional_error<T>(d: Seq<(Seq<u8>, Val)>, key: &'static str, conv: spec_fn(Val) -> Option<T>) -> Option<SchemaError> {
    match lookup(d, key.spec_bytes()) {
        None => None,
        Some(x) => if conv(x) is None { Some(SchemaError::WrongType(key)) } else { None },
    }
}

/// The first failure met in projecting an "info" mapping, field by field
/// in the order name, pieces, piece length, their values, md5sum, private,
/// path, root hash, length, files, then the file layout.
pub open spec fn info_error(v: Val) -> SchemaError {
    match v {
        Val::Dict(d) => {
            let name = required_error(d, "name", |x: Val| text_val(x));
            let pieces = required_error(d, "pieces", |x: Val| bytes_val(x));
            let plen = required_error(d, "piece length", |x: Val| int_val(x));
            let md5 = optional_error(d, "md5sum", |x: Val| text_val(x));
            let private = optional_error(d, "private", |x: Val| flag_val(x));
            let path = optional_error(d, "path", |x: Val| text_list_val(x));
            let root = optional_error(d, "root hash", |x: Val| text_val(x));
            let length = optional_error(d, "length", |x: Val| int_val(x));
            let files = optional_error(d, "files", |x: Val| files_val(x));
            if name is Some {
                name->0
            } else if pieces is Some {
                pieces->0
            } else if plen is Some {
                plen->0
            } else if int_val(lookup(d, "piece length".spec_bytes())->0)->0 <= 0 {
                SchemaError::InvalidValue("piece length")
            } else if bytes_val(lookup(d, "pieces".spec_bytes())->0)->0.len() % 20 != 0 {
                SchemaError::InvalidValue("pieces")
            } else if md5 is Some {
                md5->0
            } else if private is Some {
                private->0
            } else if path is Some {
                path->0
            } else if root is Some {
                root->0
            } else if length is Some {
                length->0
            } else if files is Some {
                files->0
            } else if lookup(d, "length".spec_bytes()) is None {
                SchemaError::NoFileLayout
            } else {
                SchemaError::BothFileLayouts
            }
        },
        _ => SchemaError::NotAMapping("info"),
    }
}

/// The first failure met in projecting a metainfo root: "info" first,
/// then the optional fields in the order announce, announce-list, nodes,
/// creation date, comment, created by, encoding, httpseeds.
pub open spec fn meta_error(v: Val) -> SchemaError {
    match v {
        Val::Dict(d) => {
            let alist = optional_error(d, "announce-list", |x: Val| text_lists_val(x));
            let announce = optional_error(d, "announce", |x: Val| text_val(x));
            let nodes = optional_error(d, "nodes", |x: Val| nodes_val(x));
            let date = optional_error(d, "creation date", |x: Val| int_val(x));
            let comment = optional_error(d, "comment", |x: Val| text_val(x));
            let created_by = optional_error(d, "created by", |x: Val| text_val(x));
            let encoding = optional_error(d, "encoding", |x: Val| text_val(x));
            let seeds = optional_error(d, "httpseeds", |x: Val| text_list_val(x));
            if lookup(d, "info".spec_bytes()) is None {
                SchemaError::MissingKey("info")
            } else if info_val(lookup(d, "info".spec_bytes())->0) is None {
                info_error(lookup(d, "info".spec_bytes())->0)
            } else if announce is Some {
                announce->0
            } else if alist is Some {
                alist->0
            } else if nodes is Some {
                nodes->0
            } else if date is Some {
                date->0
            } else if comment is Some {
                comment->0
            } else if created_by is Some {
                created_by->0
            } else if encoding is Some {
                encoding->0
            } else {
                seeds->0
            }
        },
        _ => SchemaError::NotAMapping("root"),
    }
}

pub struct FileModel {
    pub path: Seq<Seq<char>>,
    pub length: int,
    pub md5sum: Option<Seq<char>>,
}

pub open spec fn file_val(v: Val) -> Option<FileModel> {
    match v {
        Val::Dict(d) => {
            let path = required(d, "path".spec_bytes(), |x: Val| text_list_val(x));
            let length = required(d, "length".spec_bytes(), |x: Val| int_val(x));
            let md5 = optional(d, "md5sum".spec_bytes(), |x: Val| text_val(x));
            if path is Some && length is Some && md5 is Some {
                Some(FileModel { path: path->0, length: length->0, md5sum: md5->0 })
            } else {
                None
            }
        },
        _ => None,
    }
}

pub open spec fn files_val(v: Val) -> Option<Seq<FileModel>> {
    list_of(v, |x: Val| file_val(x))
}

pub enum LayoutModel {
    Single(int),
    Multi(Seq<FileModel>),
}

pub struct InfoModel {
    pub name: Seq<char>,
    pub pieces: Seq<u8>,
    pub piece_length: int,
    pub md5sum: Option<Seq<char>>,
    pub private: Option<int>,
    pub path: Option<Seq<Seq<char>>>,
    pub root_hash: Option<Seq<char>>,
    pub layout: LayoutModel,
}

/// The typed view of an "info" mapping. Exactly one of "length" and
/// "files" selects the file layout; the piece length is positive and
/// "pieces" holds whole 20-byte hashes.
pub open spec fn info_val(v: Val) -> Option<InfoModel> {
    match v {
        Val::Dict(d) => {
            let name = required(d, "name".spec_bytes(), |x: Val| text_val(x));
            let pieces = required(d, "pieces".spec_bytes(), |x: Val| bytes_val(x));
            let plen = required(d, "piece length".spec_bytes(), |x: Val| int_val(x));
            let md5 = optional(d, "md5sum".spec_bytes(), |x: Val| text_val(x));
            let private = optional(d, "private".spec_bytes(), |x: Val| flag_val(x));
            let path = optional(d, "path".spec_bytes(), |x: Val| text_list_val(x));
            let root = optional(d, "root hash".spec_bytes(), |x: Val| text_val(x));
            let length = optional(d, "length".spec_bytes(), |x: Val| int_val(x));
            let files = optional(d, "files".spec_bytes(), |x: Val| files_val(x));
            if name is Some && pieces is Some && plen is Some && md5 is Some && private is Some
                && path is Some && root is Some && length is Some && files is Some
                && (length->0 is Some) != (files->0 is Some)
                && plen->0 > 0 && pieces->0.len() % 20 == 0 {
                Some(InfoModel {
                    name: name->0,
                    pieces: pieces->0,
                    piece_length: plen->0,
                    md5sum: md5->0,
                    private: private->0,
                    path: path->0,
                    root_hash: root->0,
                    layout: if length->0 is Some { LayoutModel::Single(length->0->0) } else { LayoutModel::Multi(files->0->0) },
                })
            } else {
                None
            }
        },
        _ => None,
    }
}

pub struct MetaModel {
    pub info: InfoModel,
    pub announce: Option<Seq<char>>,
    pub announce_list: Option<Seq<Seq<Seq<char>>>>,
    pub nodes: Option<Seq<(Seq<char>, int)>>,
    pub creation_date: Option<int>,
    pub comment: Option<Seq<char>>,
    pub created_by: Option<Seq<char>>,
    pub encoding: Option<Seq<char>>,
    pub httpseeds: Option<Seq<Seq<char>>>,
}

/// The typed view of a metainfo root mapping.
pub open spec fn meta_val(v: Val) -> Option<MetaModel> {
    match v {
        Val::Dict(d) => {
            let info = required(d, "info".spec_bytes(), |x: Val| info_val(x));
            let announce = optional(d, "announce".spec_bytes(), |x: Val| text_val(x));
            let alist = optional(d, "announce-list".spec_bytes(), |x: Val| text_lists_val(x));
            let nodes = optional(d, "nodes".spec_bytes(), |x: Val| nodes_val(x));
            let date = optional(d, "creation date".spec_bytes(), |x: Val| int_val(x));
            let comment = optional(d, "comment".spec_bytes(), |x: Val| text_val(x));
            let created_by = optional(d, "created by".spec_bytes(), |x: Val| text_val(x));
            let encoding = optional(d, "encoding".spec_bytes(), |x: Val| text_val(x));
            let seeds = optional(d, "httpseeds".spec_bytes(), |x: Val| text_list_val(x));
            if info is Some && announce is Some && alist is Some && nodes is Some && date is Some
                && comment is Some && created_by is Some && encoding is Some && seeds is Some {
                Some(MetaModel {
                    info: info->0,
                    announce: announce->0,
                    announce_list: alist->0,
                    nodes: nodes->0,
                    creation_date: date->0,
                    comment: comment->0,
                    created_by: created_by->0,
                    encoding: encoding->0,
                    httpseeds: seeds->0,
                })
            } else {
                None
            }
        },
        _ => None,
    }
}


pub open spec fn text_opt_view(o: Option<String>) -> Option<Seq<char>> {
    match o {
        Some(s) => Some(s@),
        None => None,
    }
}

pub open spec fn int_opt_view(o: Option<i64>) -> Option<int> {
    match o {
        Some(n) => Some(n as int),
        None => None,
    }
}

pub open spec fn texts_view(v: Seq<String>) -> Seq<Seq<char>> {
    Seq::new(v.len(), |i: int| v[i]@)
}

pub open spec fn texts_opt_view(o: Option<Vec<String>>) -> Option<Seq<Seq<char>>> {
    match o {
        Some(v) => Some(texts_view(v@)),
        None => None,
    }
}

pub open spec fn text_lists_view(v: Seq<Vec<String>>) -> Seq<Seq<Seq<char>>> {
    Seq::new(v.len(), |i: int| texts_view(v[i]@))
}

pub open spec fn nodes_view(v: Seq<Node>) -> Seq<(Seq<char>, int)> {
    Seq::new(v.len(), |i: int| (v[i].host@, v[i].port as int))
}

pub open spec fn files_view(v: Seq<FileEntry>) -> Seq<FileModel> {
    Seq::new(v.len(), |i: int| v[i]@)
}

/// Why a decoded tree is not a metainfo record; names the key at fault.
#[derive(Debug, Clone, Copy, PartialEq, Eq)]
pub enum SchemaError {
    NotAMapping(&'static str),
    MissingKey(&'static str),
    WrongType(&'static str),
    InvalidValue(&'static str),
    NoFileLayout,
    BothFileLayouts,
}

#[derive(Debug, Clone, PartialEq, Eq)]
pub struct Node {
    pub host: String,
    pub port: i64,
}

#[derive(Debug, Clone, PartialEq, Eq)]
pub struct FileEntry {
    pub path: Vec<String>,
    pub length: i64,
    pub md5sum: Option<String>,
}

impl FileEntry {
    pub open spec fn view(&self) -> FileModel {
        FileModel { path: texts_view(self.path@), length: self.length as int, md5sum: text_opt_view(self.md5sum) }
    }
}

/// Single-file or multi-file layout; never both.
#[derive(Debug, Clone, PartialEq, Eq)]
pub enum FileLayout {
    Single { length: i64 },
    Multi { files: Vec<FileEntry> },
}

impl FileLayout {
    pub open spec fn view(&self) -> LayoutModel {
        match self {
            FileLayout::Single { length } => LayoutModel::Single(*length as int),
            FileLayout::Multi { files } => LayoutModel::Multi(files_view(files@)),
        }
    }
}

#[derive(Debug, Clone, PartialEq, Eq)]
pub struct Info {
    pub name: String,
    pub pieces: Vec<u8>,
    pub piece_length: i64,
    pub md5sum: Option<String>,
    pub private: Option<u8>,
    pub path: Option<Vec<String>>,
    pub root_hash: Option<String>,
    pub layout: FileLayout,
}

impl Info {
    pub open spec fn view(&self) -> InfoModel {
        InfoModel {
            name: self.name@,
            pieces: self.pieces@,
            piece_length: self.piece_length as int,
            md5sum: text_opt_view(self.md5sum),
            private: match self.private {
                Some(n) => Some(n as int),
                None => None,
            },
            path: texts_opt_view(self.path),
            root_hash: text_opt_view(self.root_hash),
            layout: self.layout@,
        }
    }
}

/// The typed fields of a metainfo file.
#[derive(Debug, Clone, PartialEq, Eq)]
pub struct Metainfo {
    pub info: Info,
    pub announce: Option<String>,
    pub announce_list: Option<Vec<Vec<String>>>,
    pub nodes: Option<Vec<Node>>,
    pub creation_date: Option<i64>,
    pub comment: Option<String>,
    pub created_by: Option<String>,
    pub encoding: Option<String>,
    pub httpseeds: Option<Vec<String>>,
}

impl Metainfo {
    pub open spec fn view(&self) -> MetaModel {
        MetaModel {
            info: self.info@,
            announce: text_opt_view(self.announce),
            announce_list: match self.announce_list {
                Some(v) => Some(text_lists_view(v@)),
                None => None,
            },
            nodes: match self.nodes {
                Some(v) => Some(nodes_view(v@)),
                None => None,
            },
            creation_date: int_opt_view(self.creation_date),
            comment: text_opt_view(self.comment),
            created_by: text_opt_view(self.created_by),
            encoding: text_opt_view(self.encoding),
            httpseeds: texts_opt_view(self.httpseeds),
        }
    }
}

/// Whether two byte strings are equal.
pub fn bytes_eq(a: &[u8], b: &[u8]) -> (r: bool)
    ensures
        r == (a@ == b@),
{
    if a.len() != b.len() {
        return false;
    }
    let mut i: usize = 0;
    while i < a.len()
        invariant
            i <= a@.len(),
            a@.len() == b@.len(),
            a@.subrange(0, i as int) == b@.subrange(0, i as int),
        decreases a@.len() - i,
    {
        if a[i] != b[i] {
            return false;
        }
        i = i + 1;
        assert(a@.subrange(0, i as int) =~= a@.subrange(0, i - 1).push(a@[i - 1]));
        assert(b@.subrange(0, i as int) =~= b@.subrange(0, i - 1).push(b@[i - 1]));
    }
    assert(a@ =~= a@.subrange(0, i as int));
    assert(b@ =~= b@.subrange(0, i as int));
    true
}

/// The value bound to `k` in a mapping's entries.
pub fn find<'a>(d: &'a Vec<(Vec<u8>, Value)>, k: &[u8]) -> (r: Option<&'a Value>)
    ensures
        match r {
            Some(v) => lookup(entries_view(d@), k@) == Some(v@),
            None => lookup(entries_view(d@), k@) is None,
        },
{
    let ghost e = entries_view(d@);
    let mut i: usize = 0;
    assert(e.subrange(0, e.len() as int) =~= e);
    while i < d.len()
        invariant
            i <= d@.len(),
            e == entries_view(d@),
            lookup(e, k@) == lookup(e.subrange(i as int, e.len() as int), k@),
        decreases d@.len() - i,
    {
        proof {
            let t = e.subrange(i as int, e.len() as int);
            assert(t.drop_first() =~= e.subrange(i + 1, e.len() as int));
        }
        if bytes_eq(d[i].0.as_slice(), k) {
            return Some(&d[i].1);
        }
        i = i + 1;
    }
    None
}

pub fn to_text(v: &Value) -> (r: Option<String>)
    ensures
        text_opt_view(r) == text_val(v@),
{
    match v {
        Value::Bytes(b) => utf8_text(b.as_slice()),
        _ => None,
    }
}

pub fn to_int(v: &Value) -> (r: Option<i64>)
    ensures
        int_opt_view(r) == int_val(v@),
{
    match v {
        Value::Integer(n) => Some(*n),
        _ => None,
    }
}

pub fn to_text_list(v: &Value) -> (r: Option<Vec<String>>)
    ensures
        texts_opt_view(r) == text_list_val(v@),
{
    match v {
        Value::List(items) => {
            let ghost l = v@->List_0;
            let mut out: Vec<String> = Vec::new();
            let mut i: usize = 0;
            while i < items.len()
                invariant
                    i <= items@.len(),
                    l.len() == items@.len(),
                    forall|j: int| 0 <= j < items@.len() ==> l[j] == #[trigger] items@[j]@,
                    forall|j: int| 0 <= j < i ==> (#[trigger] text_val(l[j])) is Some,
                    v@ == Val::List(l),
                    texts_view(out@) == Seq::new(i as nat, |j: int| text_val(l[j])->0),
                decreases items@.len() - i,
            {
                match to_text(&items[i]) {
                    Some(s) => {
                        let ghost before = out@;
                        let ghost sv = s@;
                        assert(Some(sv) == text_val(l[i as int]));
                        out.push(s);
                        assert(texts_view(out@) =~= texts_view(before).push(sv));
                        i = i + 1;
                        assert(texts_view(out@) =~= Seq::new(i as nat, |j: int| text_val(l[j])->0));
                    },
                    None => {
                        assert(text_val(l[i as int]) is None);
                        return None;
                    },
                }
            }
            assert(texts_view(out@) =~= Seq::new(l.len(), |j: int| text_val(l[j])->0));
            Some(out)
        },
        _ => None,
    }
}


pub fn to_text_lists(v: &Value) -> (r: Option<Vec<Vec<String>>>)
    ensures
        match r {
            Some(out) => text_lists_val(v@) == Some(text_lists_view(out@)),
            None => text_lists_val(v@) is None,
        },
{
    match v {
        Value::List(items) => {
            let ghost l = v@->List_0;
            let mut out: Vec<Vec<String>> = Vec::new();
            let mut i: usize = 0;
            while i < items.len()
                invariant
                    i <= items@.len(),
                    l.len() == items@.len(),
                    forall|j: int| 0 <= j < items@.len() ==> l[j] == #[trigger] items@[j]@,
                    forall|j: int| 0 <= j < i ==> (#[trigger] text_list_val(l[j])) is Some,
                    v@ == Val::List(l),
                    text_lists_view(out@) == Seq::new(i as nat, |j: int| text_list_val(l[j])->0),
                decreases items@.len() - i,
            {
                match to_text_list(&items[i]) {
                    Some(x) => {
                        assert(text_list_val(items@[i as int]@) == Some(texts_view(x@)));
                        let ghost before = out@;
                        let ghost xv = texts_view(x@);
                        assert(Some(xv) == text_list_val(l[i as int]));
                        out.push(x);
                        assert(text_lists_view(out@) =~= text_lists_view(before).push(xv));
                        i = i + 1;
                        assert(text_lists_view(out@) =~= Seq::new(i as nat, |j: int| text_list_val(l[j])->0));
                    },
                    None => {
                        assert(text_list_val(l[i as int]) is None);
                        return None;
                    },
                }
            }
            assert(text_lists_view(out@) =~= Seq::new(l.len(), |j: int| text_list_val(l[j])->0));
            Some(out)
        },
        _ => None,
    }
}

pub fn to_nodes(v: &Value) -> (r: Option<Vec<Node>>)
    ensures
        match r {
            Some(out) => nodes_val(v@) == Some(nodes_view(out@)),
            None => nodes_val(v@) is None,
        },
{
    match v {
        Value::List(items) => {
            let ghost l = v@->List_0;
            let mut out: Vec<Node> = Vec::new();
            let mut i: usize = 0;
            while i < items.len()
                invariant
                    i <= items@.len(),
                    l.len() == items@.len(),
                    forall|j: int| 0 <= j < items@.len() ==> l[j] == #[trigger] items@[j]@,
                    forall|j: int| 0 <= j < i ==> (#[trigger] node_val(l[j])) is Some,
                    v@ == Val::List(l),
                    nodes_view(out@) == Seq::new(i as nat, |j: int| node_val(l[j])->0),
                decreases items@.len() - i,
            {
                match to_node(&items[i]) {
                    Some(x) => {
                        let ghost before = out@;
                        let ghost xv = (x.host@, x.port as int);
                        assert(Some(xv) == node_val(l[i as int]));
                        out.push(x);
                        assert(nodes_view(out@) =~= nodes_view(before).push(xv));
                        i = i + 1;
                        assert(nodes_view(out@) =~= Seq::new(i as nat, |j: int| node_val(l[j])->0));
                    },
                    None => {
                        assert(node_val(l[i as int]) is None);
                        return None;
                    },
                }
            }
            assert(nodes_view(out@) =~= Seq::new(l.len(), |j: int| node_val(l[j])->0));
            Some(out)
        },
        _ => None,
    }
}

pub fn to_files(v: &Value) -> (r: Option<Vec<FileEntry>>)
    ensures
        match r {
            Some(out) => files_val(v@) == Some(files_view(out@)),
            None => files_val(v@) is None,
        },
{
    match v {
        Value::List(items) => {
            let ghost l = v@->List_0;
            let mut out: Vec<FileEntry> = Vec::new();
            let mut i: usize = 0;
            while i < items.len()
                invariant
                    i <= items@.len(),
                    l.len() == items@.len(),
                    forall|j: int| 0 <= j < items@.len() ==> l[j] == #[trigger] items@[j]@,
                    forall|j: int| 0 <= j < i ==> (#[trigger] file_val(l[j])) is Some,
                    v@ == Val::List(l),
                    files_view(out@) == Seq::new(i as nat, |j: int| file_val(l[j])->0),
                decreases items@.len() - i,
            {
                match to_file(&items[i]) {
                    Some(x) => {
                        let ghost before = out@;
                        let ghost xv = x@;
                        assert(Some(xv) == file_val(l[i as int]));
                        out.push(x);
                        assert(files_view(out@) =~= files_view(before).push(xv));
                        i = i + 1;
                        assert(files_view(out@) =~= Seq::new(i as nat, |j: int| file_val(l[j])->0));
                    },
                    None => {
                        assert(file_val(l[i as int]) is None);
                        return None;
                    },
                }
            }
            assert(files_view(out@) =~= Seq::new(l.len(), |j: int| file_val(l[j])->0));
            Some(out)
        },
        _ => None,
    }
}

pub fn to_node(v: &Value) -> (r: Option<Node>)
    ensures
        match r {
            Some(n) => node_val(v@) == Some((n.host@, n.port as int)),
            None => node_val(v@) is None,
        },
{
    match v {
        Value::List(items) => {
            if items.len() != 2 {
                return None;
            }
            assert(v@->List_0[0] == items@[0]@ && v@->List_0[1] == items@[1]@);
            match (to_text(&items[0]), to_int(&items[1])) {
                (Some(host), Some(port)) => Some(Node { host, port }),
                _ => None,
            }
        },
        _ => None,
    }
}

pub fn to_file(v: &Value) -> (r: Option<FileEntry>)
    ensures
        match r {
            Some(f) => file_val(v@) == Some(f@),
            None => file_val(v@) is None,
        },
{
    match v {
        Value::Dict(es) => {
            assert(v@->Dict_0 =~= entries_view(es@));
            let path = match find(es, "path".as_bytes()) {
                None => { return None; },
                Some(x) => match to_text_list(x) {
                    Some(p) => p,
                    None => { return None; },
                },
            };
            let length = match find(es, "length".as_bytes()) {
                None => { return None; },
                Some(x) => match to_int(x) {
                    Some(n) => n,
                    None => { return None; },
                },
            };
            let md5sum = match find(es, "md5sum".as_bytes()) {
                None => None,
                Some(x) => match to_text(x) {
                    Some(t) => Some(t),
                    None => { return None; },
                },
            };
            Some(FileEntry { path, length, md5sum })
        },
        _ => None,
    }
}

/// Projects an "info" mapping into its typed record.
pub fn to_info(v: &Value) -> (r: Result<Info, SchemaError>)
    ensures
        match r {
            Ok(i) => info_val(v@) == Some(i@),
            Err(e) => info_val(v@) is None && e == info_error(v@),
        },
{
    match v {
        Value::Dict(es) => {
            assert(v@->Dict_0 =~= entries_view(es@));
            let name = match find(es, "name".as_bytes()) {
                None => { return Err(SchemaError::MissingKey("name")); },
                Some(x) => match to_text(x) {
                    Some(t) => t,
                    None => { return Err(SchemaError::WrongType("name")); },
                },
            };
            let pieces = match find(es, "pieces".as_bytes()) {
                None => { return Err(SchemaError::MissingKey("pieces")); },
                Some(Value::Bytes(b)) => b.clone(),
                Some(_) => { return Err(SchemaError::WrongType("pieces")); },
            };
            let piece_length = match find(es, "piece length".as_bytes()) {
                None => { return Err(SchemaError::MissingKey("piece length")); },
                Some(x) => match to_int(x) {
                    Some(n) => n,
                    None => { return Err(SchemaError::WrongType("piece length")); },
                },
            };
            if piece_length <= 0 {
                return Err(SchemaError::InvalidValue("piece length"));
            }
            if pieces.len() % 20 != 0 {
                return Err(SchemaError::InvalidValue("pieces"));
            }
            let md5sum = match find(es, "md5sum".as_bytes()) {
                None => None,
                Some(x) => match to_text(x) {
                    Some(t) => Some(t),
                    None => { return Err(SchemaError::WrongType("md5sum")); },
                },
            };
            let private = match find(es, "private".as_bytes()) {
                None => None,
                Some(x) => match to_int(x) {
                    Some(n) => if 0 <= n && n <= 255 {
                        Some(n as u8)
                    } else {
                        return Err(SchemaError::WrongType("private"));
                    },
                    None => { return Err(SchemaError::WrongType("private")); },
                },
            };
            let path = match find(es, "path".as_bytes()) {
                None => None,
                Some(x) => match to_text_list(x) {
                    Some(p) => Some(p),
                    None => { return Err(SchemaError::WrongType("path")); },
                },
            };
            let root_hash = match find(es, "root hash".as_bytes()) {
                None => None,
                Some(x) => match to_text(x) {
                    Some(t) => Some(t),
                    None => { return Err(SchemaError::WrongType("root hash")); },
                },
            };
            let length = match find(es, "length".as_bytes()) {
                None => None,
                Some(x) => match to_int(x) {
                    Some(n) => Some(n),
                    None => { return Err(SchemaError::WrongType("length")); },
                },
            };
            let files = match find(es, "files".as_bytes()) {
                None => None,
                Some(x) => match to_files(x) {
                    Some(f) => Some(f),
                    None => { return Err(SchemaError::WrongType("files")); },
                },
            };
            let layout = match (length, files) {
                (Some(n), None) => FileLayout::Single { length: n },
                (None, Some(f)) => FileLayout::Multi { files: f },
                (None, None) => { return Err(SchemaError::NoFileLayout); },
                (Some(_), Some(_)) => { return Err(SchemaError::BothFileLayouts); },
            };
            Ok(Info { name, pieces, piece_length, md5sum, private, path, root_hash, layout })
        },
        _ => Err(SchemaError::NotAMapping("info")),
    }
}

/// Projects a decoded metainfo root into its typed fields.
pub fn project_metainfo(v: &Value) -> (r: Result<Metainfo, SchemaError>)
    ensures
        match r {
            Ok(m) => meta_val(v@) == Some(m@),
            Err(e) => meta_val(v@) is None && e == meta_error(v@),
        },
{
    match v {
        Value::Dict(es) => {
            assert(v@->Dict_0 =~= entries_view(es@));
            let info = match find(es, "info".as_bytes()) {
                None => { return Err(SchemaError::MissingKey("info")); },
                Some(x) => match to_info(x) {
                    Ok(i) => i,
                    Err(e) => { return Err(e); },
                },
            };
            let announce = match find(es, "announce".as_bytes()) {
                None => None,
                Some(x) => match to_text(x) {
                    Some(t) => Some(t),
                    None => { return Err(SchemaError::WrongType("announce")); },
                },
            };
            let announce_list = match find(es, "announce-list".as_bytes()) {
                None => None,
                Some(x) => match to_text_lists(x) {
                    Some(t) => Some(t),
                    None => { return Err(SchemaError::WrongType("announce-list")); },
                },
            };
            let nodes = match find(es, "nodes".as_bytes()) {
                None => None,
                Some(x) => match to_nodes(x) {
                    Some(t) => Some(t),
                    None => { return Err(SchemaError::WrongType("nodes")); },
                },
            };
            let creation_date = match find(es, "creation date".as_bytes()) {
                None => None,
                Some(x) => match to_int(x) {
                    Some(n) => Some(n),
                    None => { return Err(SchemaError::WrongType("creation date")); },
                },
            };
            let comment = match find(es, "comment".as_bytes()) {
                None => None,
                Some(x) => match to_text(x) {
                    Some(t) => Some(t),
                    None => { return Err(SchemaError::WrongType("comment")); },
                },
            };
            let created_by = match find(es, "created by".as_bytes()) {
                None => None,
                Some(x) => match to_text(x) {
                    Some(t) => Some(t),
                    None => { return Err(SchemaError::WrongType("created by")); },
                },
            };
            let encoding = match find(es, "encoding".as_bytes()) {
                None => None,
                Some(x) => match to_text(x) {
                    Some(t) => Some(t),
                    None => { return Err(SchemaError::WrongType("encoding")); },
                },
            };
            let httpseeds = match find(es, "httpseeds".as_bytes()) {
                None => None,
                Some(x) => match to_text_list(x) {
                    Some(t) => Some(t),
                    None => { return Err(SchemaError::WrongType("httpseeds")); },
                },
            };
            Ok(Metainfo { info, announce, announce_list, nodes, creation_date, comment, created_by, encoding, httpseeds })
        },
        _ => Err(SchemaError::NotAMapping("root")),
    }
}

} // verus!

