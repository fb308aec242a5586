//! The asar archive: its header tree and the files it holds.
use crate::error::{unexpected_eof, AppError};
use crate::pickle::{frame_error_matches, frame_spec, read_frame};
use crate::text::{concat_str, parse_u64, parse_u64_spec, split_slash};
use crate::tree::{
    entries_sorted, entries_view, find_model, find_node, strings_view, tree_sorted, walk, walk_entries,
    NodeModel,
};
use vstd::prelude::*;
use vstd::string::StringExecFns;

verus! {

/// An entry of an asar header: a directory of named entries, or a file
/// stored at `offset` (a decimal string, relative to the payload) with
/// `size` bytes.
#[derive(Debug)]
pub enum Node {
    Dir { files: Vec<(String, Node)> },
    File { offset: Option<String>, size: u64, executable: bool, unpacked: bool },
}

/// The header of an asar archive: the top-level entries. As in the
/// `BTreeMap` that its JSON text is read into, the names of every
/// directory are in increasing order.
#[derive(Debug)]
pub struct Header {
    pub(crate) files: Vec<(String, Node)>,
}

impl Header {
    /// The names at every level are in increasing order.
    #[verifier::type_invariant]
    spec fn names_in_order(self) -> bool {
        tree_sorted(entries_view(self.files@))
    }

    /// The model of the top-level entries.
    pub closed spec fn entries(self) -> Seq<(Seq<char>, NodeModel)> {
        entries_view(self.files@)
    }

    /// A header with the given top-level entries, refused when the names of
    /// some directory are not in increasing order.
    pub fn new(files: Vec<(String, Node)>) -> (r: Result<Header, AppError>)
        ensures
            r is Ok <==> tree_sorted(entries_view(files@)),
            r matches Ok(h) ==> h.entries() == entries_view(files@),
            r matches Err(e) ==> e is AsarMalformed,
    {
        if entries_sorted(&files) {
            Ok(Header { files })
        } else {
            Err(AppError::AsarMalformed(String::from_str("header 条目没有按名称排序")))
        }
    }

    /// A header from entries already known to be in order.
    pub(crate) fn from_sorted(files: Vec<(String, Node)>) -> (h: Header)
        requires
            tree_sorted(entries_view(files@)),
        ensures
            h.entries() == entries_view(files@),
    {
        Header { files }
    }

    /// The top-level entries.
    pub fn files(&self) -> (f: &Vec<(String, Node)>)
        ensures
            entries_view(f@) == self.entries(),
            tree_sorted(self.entries()),
    {
        proof {
            use_type_invariant(self);
        }
        &self.files
    }

    /// The top-level entries, taken out of the header.
    pub fn into_files(self) -> (f: Vec<(String, Node)>)
        ensures
            entries_view(f@) == self.entries(),
            tree_sorted(self.entries()),
    {
        proof {
            use_type_invariant(&self);
        }
        self.files
    }
}

/// An opened archive: its bytes, its parsed header and where the files'
/// contents start.
pub struct Asar {
    data: Vec<u8>,
    header: Header,
    payload_offset: u64,
}

/// What reading a file of an archive comes to.
pub enum ReadModel {
    /// The file's bytes.
    Found(Seq<u8>),
    /// No entry at the path.
    Missing,
    /// The entry is a directory, or a file stored outside the archive.
    NotAFile,
    /// The file's offset is not a decimal number.
    BadOffset(Seq<char>),
    /// The archive ends before the file does.
    Truncated,
}

/// Reading the file at `path` from an archive with the given header
/// entries, payload offset and bytes.
pub open spec fn read_model(
    e: Seq<(Seq<char>, NodeModel)>,
    payload_offset: nat,
    data: Seq<u8>,
    path: Seq<char>,
) -> ReadModel {
    match find_model(e, split_slash(path)) {
        None => ReadModel::Missing,
        Some(NodeModel::File { offset: Some(o), size, .. }) => match parse_u64_spec(o) {
            None => ReadModel::BadOffset(o),
            Some(off) => {
                let start = payload_offset + off;
                if start + size <= data.len() {
                    ReadModel::Found(data.subrange(start as int, start + size))
                } else {
                    ReadModel::Truncated
                }
            },
        },
        Some(_) => ReadModel::NotAFile,
    }
}

pub open spec fn missing_message(path: Seq<char>) -> Seq<char> {
    "找不到文件:"@ + path
}

pub open spec fn bad_offset_message(o: Seq<char>) -> Seq<char> {
    "非法 offset:"@ + o
}

pub open spec fn not_a_file_message(path: Seq<char>) -> Seq<char> {
    "不是文件:"@ + path
}

/// The result that `read_file` gives for each outcome.
pub open spec fn read_result_matches(r: Result<Vec<u8>, AppError>, m: ReadModel, path: Seq<char>) -> bool {
    match m {
        ReadModel::Found(bytes) => r matches Ok(v) && v@ == bytes,
        ReadModel::Missing => r matches Err(AppError::AsarMalformed(msg)) && msg@ == missing_message(path),
        ReadModel::NotAFile => r matches Err(AppError::AsarMalformed(msg)) && msg@ == not_a_file_message(path),
        ReadModel::BadOffset(o) => r matches Err(AppError::AsarMalformed(msg)) && msg@ == bad_offset_message(o),
        ReadModel::Truncated => r matches Err(AppError::Io(_)),
    }
}

fn copy_range(data: &Vec<u8>, start: usize, len: usize) -> (out: Vec<u8>)
    requires
        start + len <= data@.len(),
    ensures
        out@ == data@.subrange(start as int, start + len),
{
    let mut out: Vec<u8> = Vec::new();
    let n = data.len();
    for k in 0..len
        invariant
            n == data@.len(),
            start + len <= n,
            out@ == data@.subrange(start as int, start + k),
    {
        out.push(data[start + k]);
        proof {
            assert(out@ =~= data@.subrange(start as int, start + k + 1));
        }
    }
    out
}

impl Asar {
    /// The archive's bytes.
    pub closed spec fn spec_data(&self) -> Seq<u8> {
        self.data@
    }

    /// The model of the archive's header entries.
    pub closed spec fn spec_entries(&self) -> Seq<(Seq<char>, NodeModel)> {
        entries_view(self.header.files@)
    }

    /// Where the files' contents start.
    pub closed spec fn spec_payload_offset(&self) -> nat {
        self.payload_offset as nat
    }

    /// An archive from its bytes and the header that its JSON text was
    /// parsed into. Fails as `read_frame` does on the bytes.
    pub fn from_parts(data: Vec<u8>, header: Header) -> (r: Result<Asar, AppError>)
        ensures
            match frame_spec(data@) {
                Ok((n, off)) => r matches Ok(a) && a.spec_data() == data@ && a.spec_entries()
                    == header.entries() && a.spec_payload_offset() == off,
                Err(e) => r matches Err(err) && frame_error_matches(err, e),
            },
    {
        match read_frame(&data) {
            Ok(frame) => Ok(Asar { data, header, payload_offset: frame.payload_offset }),
            Err(e) => Err(e),
        }
    }

    pub fn header(&self) -> (h: &Header)
        ensures
            h.entries() == self.spec_entries(),
            tree_sorted(self.spec_entries()),
    {
        proof {
            use_type_invariant(&self.header);
        }
        &self.header
    }

    pub fn payload_offset(&self) -> (o: u64)
        ensures
            o as nat == self.spec_payload_offset(),
    {
        self.payload_offset
    }

    /// The path of every file in the archive, depth first.
    pub fn list_files(&self) -> (r: Vec<String>)
        ensures
            strings_view(r@) == walk_entries(self.spec_entries(), Seq::empty()),
    {
        let mut out: Vec<String> = Vec::new();
        let empty: Vec<char> = Vec::new();
        walk(&self.header.files, &empty, &mut out);
        proof {
            assert(strings_view(Seq::<String>::empty()) =~= Seq::<Seq<char>>::empty());
            assert(empty@ =~= Seq::<char>::empty());
        }
        out
    }

    /// The bytes of the file at a `/`-separated path such as
    /// `renderer/preload.js`.
    pub fn read_file(&self, virtual_path: &str) -> (r: Result<Vec<u8>, AppError>)
        ensures
            read_result_matches(
                r,
                read_model(self.spec_entries(), self.spec_payload_offset(), self.spec_data(), virtual_path@),
                virtual_path@,
            ),
    {
        let node = match find_node(&self.header.files, virtual_path) {
            Some(n) => n,
            None => {
                return Err(AppError::AsarMalformed(concat_str("找不到文件:", virtual_path)));
            },
        };
        match node {
            Node::File { offset: Some(o), size, .. } => {
                let off = match parse_u64(o.as_str()) {
                    Some(v) => v,
                    None => {
                        return Err(AppError::AsarMalformed(concat_str("非法 offset:", o.as_str())));
                    },
                };
                let len = self.data.len() as u64;
                if off > len || self.payload_offset > len - off || *size > len - off
                    - self.payload_offset {
                    return Err(AppError::Io(unexpected_eof()));
                }
                let start = (self.payload_offset + off) as usize;
                Ok(copy_range(&self.data, start, *size as usize))
            },
            _ => Err(AppError::AsarMalformed(concat_str("不是文件:", virtual_path))),
        }
    }
}

} // verus!
