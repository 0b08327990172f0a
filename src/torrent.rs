//! Torrent metadata read from a decoded value.
use vstd::prelude::*;
use crate::bytes::BEStr;
use crate::hash::{chunks20, Hashes};
use crate::value::{lookup, BEDict, BEncodedData, Value};

verus! {

broadcast use {vstd::std_specs::vec::group_vec_axioms, vstd::seq::group_seq_axioms};

/// A field of torrent metadata; `Torrent` is the whole decoded value.
#[derive(Debug, Clone, Copy, PartialEq, Eq, Structural)]
pub enum Field {
    Torrent,
    Announce,
    Info,
    Name,
    PieceLength,
    Pieces,
    Length,
    Files,
    Path,
}

/// The kind of value a field must hold.
#[derive(Debug, Clone, Copy, PartialEq, Eq, Structural)]
pub enum Kind {
    Dictionary,
    ByteString,
    Integer,
    Unsigned,
    List,
    NonEmptyList,
    /// An integer above zero.
    Positive,
}

/// Why a decoded value is not torrent metadata.
#[derive(Debug, Clone, Copy, PartialEq, Eq, Structural)]
pub enum TorrentError {
    MissingField(Field),
    WrongType(Field, Kind),
    AmbiguousLayout,
    MissingLayout,
    InvalidHashLength,
}

/// The dictionary key of each field.
pub open spec fn field_key(f: Field) -> Seq<u8> {
    match f {
        Field::Torrent => Seq::empty(),
        Field::Announce => seq![97u8, 110, 110, 111, 117, 110, 99, 101],
        Field::Info => seq![105u8, 110, 102, 111],
        Field::Name => seq![110u8, 97, 109, 101],
        Field::PieceLength => seq![112u8, 105, 101, 99, 101, 32, 108, 101, 110, 103, 116, 104],
        Field::Pieces => seq![112u8, 105, 101, 99, 101, 115],
        Field::Length => seq![108u8, 101, 110, 103, 116, 104],
        Field::Files => seq![102u8, 105, 108, 101, 115],
        Field::Path => seq![112u8, 97, 116, 104],
    }
}

impl Field {
    /// The dictionary key of the field.
    pub fn key(&self) -> (r: Vec<u8>)
        ensures
            r@ == field_key(*self),
    {
        let r: Vec<u8> = match self {
            Field::Torrent => Vec::new(),
            Field::Announce => vec![97u8, 110, 110, 111, 117, 110, 99, 101],
            Field::Info => vec![105u8, 110, 102, 111],
            Field::Name => vec![110u8, 97, 109, 101],
            Field::PieceLength => vec![112u8, 105, 101, 99, 101, 32, 108, 101, 110, 103, 116, 104],
            Field::Pieces => vec![112u8, 105, 101, 99, 101, 115],
            Field::Length => vec![108u8, 101, 110, 103, 116, 104],
            Field::Files => vec![102u8, 105, 108, 101, 115],
            Field::Path => vec![112u8, 97, 116, 104],
        };
        assert(r@ =~= field_key(*self));
        r
    }
}

pub struct FileModel {
    pub length: nat,
    pub path: Seq<Seq<u8>>,
}

pub enum LayoutModel {
    Single(nat),
    Multi(Seq<FileModel>),
}

/// The model of torrent metadata.
pub struct TorrentModel {
    pub announce: Seq<u8>,
    pub name: Seq<u8>,
    pub piece_len: nat,
    pub pieces: Seq<Seq<u8>>,
    pub layout: LayoutModel,
}

pub open spec fn get_field(es: Seq<(Seq<u8>, Value)>, f: Field) -> Option<Value> {
    lookup(es, field_key(f))
}

/// A field that must hold a byte string.
pub open spec fn text_field(es: Seq<(Seq<u8>, Value)>, f: Field) -> Result<Seq<u8>, TorrentError> {
    match get_field(es, f) {
        None => Err(TorrentError::MissingField(f)),
        Some(Value::Str(b)) => Ok(b),
        Some(_) => Err(TorrentError::WrongType(f, Kind::ByteString)),
    }
}

/// A field that must hold an integer that fits a `usize`.
pub open spec fn size_field(es: Seq<(Seq<u8>, Value)>, f: Field) -> Result<nat, TorrentError> {
    match get_field(es, f) {
        None => Err(TorrentError::MissingField(f)),
        Some(Value::Int(n)) => if 0 <= n <= usize::MAX {
            Ok(n as nat)
        } else {
            Err(TorrentError::WrongType(f, Kind::Unsigned))
        },
        Some(_) => Err(TorrentError::WrongType(f, Kind::Integer)),
    }
}

/// A file's path: a non-empty list of byte strings.
pub open spec fn path_spec(o: Option<Value>) -> Result<Seq<Seq<u8>>, TorrentError> {
    match o {
        None => Err(TorrentError::MissingField(Field::Path)),
        Some(Value::List(ps)) => if ps.len() == 0 {
            Err(TorrentError::WrongType(Field::Path, Kind::NonEmptyList))
        } else if forall|i: int| 0 <= i < ps.len() ==> (#[trigger] ps[i]) is Str {
            Ok(Seq::new(ps.len(), |i: int| ps[i]->Str_0))
        } else {
            Err(TorrentError::WrongType(Field::Path, Kind::ByteString))
        },
        Some(_) => Err(TorrentError::WrongType(Field::Path, Kind::List)),
    }
}

/// One entry of `files`: a dictionary with a non-zero length and a path.
pub open spec fn file_spec(v: Value) -> Result<FileModel, TorrentError> {
    match v {
        Value::Dict(es) => match size_field(es, Field::Length) {
            Err(e) => Err(e),
            Ok(n) => if n == 0 {
                Err(TorrentError::WrongType(Field::Length, Kind::Positive))
            } else {
                match path_spec(get_field(es, Field::Path)) {
                Err(e) => Err(e),
                    Ok(p) => Ok(FileModel { length: n, path: p }),
                }
            },
        },
        _ => Err(TorrentError::WrongType(Field::Files, Kind::Dictionary)),
    }
}

/// The entries of `files` in order; the first one at fault gives the error.
pub open spec fn files_spec(fs: Seq<Value>) -> Result<Seq<FileModel>, TorrentError>
    decreases fs.len(),
{
    if fs.len() == 0 {
        Ok(Seq::empty())
    } else {
        match files_spec(fs.drop_last()) {
            Err(e) => Err(e),
            Ok(ms) => match file_spec(fs.last()) {
                Err(e) => Err(e),
                Ok(m) => Ok(ms.push(m)),
            },
        }
    }
}

/// Exactly one of `length` and `files` gives the layout.
pub open spec fn layout_spec(es: Seq<(Seq<u8>, Value)>) -> Result<LayoutModel, TorrentError> {
    let has_length = get_field(es, Field::Length) is Some;
    let has_files = get_field(es, Field::Files) is Some;
    if has_length && has_files {
        Err(TorrentError::AmbiguousLayout)
    } else if !has_length && !has_files {
        Err(TorrentError::MissingLayout)
    } else if has_length {
        match size_field(es, Field::Length) {
            Err(e) => Err(e),
            Ok(n) => Ok(LayoutModel::Single(n)),
        }
    } else {
        match get_field(es, Field::Files) {
            Some(Value::List(fs)) => if fs.len() == 0 {
                Err(TorrentError::WrongType(Field::Files, Kind::NonEmptyList))
            } else {
                match files_spec(fs) {
                    Err(e) => Err(e),
                    Ok(ms) => Ok(LayoutModel::Multi(ms)),
                }
            },
            _ => Err(TorrentError::WrongType(Field::Files, Kind::List)),
        }
    }
}

/// The piece hashes: a byte string whose length is a multiple of 20.
pub open spec fn pieces_spec(es: Seq<(Seq<u8>, Value)>) -> Result<Seq<Seq<u8>>, TorrentError> {
    match get_field(es, Field::Pieces) {
        None => Err(TorrentError::MissingField(Field::Pieces)),
        Some(Value::Str(b)) => if b.len() % 20 != 0 {
            Err(TorrentError::InvalidHashLength)
        } else {
            Ok(chunks20(b))
        },
        Some(_) => Err(TorrentError::WrongType(Field::Pieces, Kind::ByteString)),
    }
}

/// Torrent metadata from a decoded value, fields checked in the order
/// announce, info, name, piece length, pieces, layout.
pub open spec fn torrent_spec(v: Value) -> Result<TorrentModel, TorrentError> {
    match v {
        Value::Dict(top) => match text_field(top, Field::Announce) {
            Err(e) => Err(e),
            Ok(announce) => match get_field(top, Field::Info) {
                None => Err(TorrentError::MissingField(Field::Info)),
                Some(Value::Dict(es)) => match text_field(es, Field::Name) {
                    Err(e) => Err(e),
                    Ok(name) => match size_field(es, Field::PieceLength) {
                        Err(e) => Err(e),
                        Ok(piece_len) => match pieces_spec(es) {
                            Err(e) => Err(e),
                            Ok(pieces) => match layout_spec(es) {
                                Err(e) => Err(e),
                                Ok(layout) => Ok(TorrentModel { announce, name, piece_len, pieces, layout }),
                            },
                        },
                    },
                },
                Some(_) => Err(TorrentError::WrongType(Field::Info, Kind::Dictionary)),
            },
        },
        _ => Err(TorrentError::WrongType(Field::Torrent, Kind::Dictionary)),
    }
}

/// An info dictionary that holds both `length` and `files` is refused as ambiguous,
/// once the fields read before the layout are in order.
pub proof fn lemma_layout_exclusive(top: Seq<(Seq<u8>, Value)>, es: Seq<(Seq<u8>, Value)>)
    requires
        text_field(top, Field::Announce) is Ok,
        get_field(top, Field::Info) == Some(Value::Dict(es)),
        text_field(es, Field::Name) is Ok,
        size_field(es, Field::PieceLength) is Ok,
        pieces_spec(es) is Ok,
        get_field(es, Field::Length) is Some,
        get_field(es, Field::Files) is Some,
    ensures
        layout_spec(es) == Err::<LayoutModel, TorrentError>(TorrentError::AmbiguousLayout),
        torrent_spec(Value::Dict(top)) == Err::<TorrentModel, TorrentError>(TorrentError::AmbiguousLayout),
{
}

/// A file of a multi-file torrent.
#[derive(Debug)]
pub struct File {
    /// Length of the file in bytes.
    pub length: usize,
    /// Directory names, then the file's own name.
    pub path: Vec<BEStr>,
}

/// Whether the torrent holds one file or several.
#[derive(Debug)]
pub enum Keys {
    SingleFile { length: usize },
    MultiFile { files: Vec<File> },
}

/// The `info` dictionary of a torrent.
#[derive(Debug)]
pub struct MetaInfo {
    /// Suggested name of the file or directory.
    pub name: BEStr,
    /// Bytes in each piece; the last piece may be shorter.
    pub piece_len: usize,
    pub pieces: Hashes,
    pub keys: Keys,
}

/// Torrent metadata.
#[derive(Debug)]
pub struct Torrent {
    pub announce: BEStr,
    pub info: MetaInfo,
}

impl File {
    pub open spec fn view(&self) -> FileModel {
        FileModel { length: self.length as nat, path: Seq::new(self.path@.len(), |i: int| self.path@[i]@) }
    }
}

pub open spec fn file_views(fs: Seq<File>) -> Seq<FileModel> {
    Seq::new(fs.len(), |i: int| fs[i].view())
}

impl Keys {
    pub open spec fn view(&self) -> LayoutModel {
        match self {
            Keys::SingleFile { length } => LayoutModel::Single(*length as nat),
            Keys::MultiFile { files } => LayoutModel::Multi(file_views(files@)),
        }
    }
}

impl Torrent {
    pub open spec fn view(&self) -> TorrentModel {
        TorrentModel {
            announce: self.announce@,
            name: self.info.name@,
            piece_len: self.info.piece_len as nat,
            pieces: self.info.pieces.view(),
            layout: self.info.keys.view(),
        }
    }
}

fn text_field_of(d: &BEDict, f: Field) -> (r: Result<BEStr, TorrentError>)
    ensures
        match r {
            Ok(b) => text_field(d.view_entries(), f) == Ok::<Seq<u8>, TorrentError>(b@),
            Err(e) => text_field(d.view_entries(), f) == Err::<Seq<u8>, TorrentError>(e),
        },
{
    let key = f.key();
    match d.get(key.as_slice()) {
        None => Err(TorrentError::MissingField(f)),
        Some(BEncodedData::ByteStr(b)) => Ok(BEStr::from_slice(b.as_bytes())),
        Some(_) => Err(TorrentError::WrongType(f, Kind::ByteString)),
    }
}

fn size_of(v: Option<&BEncodedData>, f: Field) -> (r: Result<usize, TorrentError>)
    ensures
        match v {
            None => r == Err::<usize, TorrentError>(TorrentError::MissingField(f)),
            Some(x) => match x.view() {
                Value::Int(n) => if 0 <= n <= usize::MAX {
                    r == Ok::<usize, TorrentError>(n as usize)
                } else {
                    r == Err::<usize, TorrentError>(TorrentError::WrongType(f, Kind::Unsigned))
                },
                _ => r == Err::<usize, TorrentError>(TorrentError::WrongType(f, Kind::Integer)),
            },
        },
{
    match v {
        None => Err(TorrentError::MissingField(f)),
        Some(BEncodedData::Num(n)) => {
            if *n >= 0 && (*n as u128) <= (usize::MAX as u128) {
                Ok(*n as usize)
            } else {
                Err(TorrentError::WrongType(f, Kind::Unsigned))
            }
        },
        Some(_) => Err(TorrentError::WrongType(f, Kind::Integer)),
    }
}

fn size_field_of(d: &BEDict, f: Field) -> (r: Result<usize, TorrentError>)
    ensures
        match r {
            Ok(n) => size_field(d.view_entries(), f) == Ok::<nat, TorrentError>(n as nat),
            Err(e) => size_field(d.view_entries(), f) == Err::<nat, TorrentError>(e),
        },
{
    let key = f.key();
    size_of(d.get(key.as_slice()), f)
}

fn path_of(o: Option<&BEncodedData>) -> (r: Result<Vec<BEStr>, TorrentError>)
    ensures
        match r {
            Ok(p) => path_spec(match o { Some(x) => Some(x.view()), None => None }) == Ok::<Seq<Seq<u8>>, TorrentError>(Seq::new(p@.len(), |i: int| p@[i]@)),
            Err(e) => path_spec(match o { Some(x) => Some(x.view()), None => None }) == Err::<Seq<Seq<u8>>, TorrentError>(e),
        },
{
    match o {
        None => Err(TorrentError::MissingField(Field::Path)),
        Some(BEncodedData::List(ps)) => {
            let ghost vs = crate::value::views(ps@);
            if ps.len() == 0 {
                return Err(TorrentError::WrongType(Field::Path, Kind::NonEmptyList));
            }
            let mut out: Vec<BEStr> = Vec::new();
            let mut i: usize = 0;
            assert(o.unwrap().view() == Value::List(vs));
            while i < ps.len()
                invariant
                    o is Some,
                    o.unwrap().view() == Value::List(vs),
                    i <= ps@.len() == vs.len(),
                    vs == crate::value::views(ps@),
                    out@.len() == i,
                    forall|j: int| 0 <= j < i ==> (#[trigger] vs[j]) is Str && out@[j]@ == vs[j]->Str_0,
                decreases ps.len() - i,
            {
                match &ps[i] {
                    BEncodedData::ByteStr(b) => {
                        out.push(BEStr::from_slice(b.as_bytes()));
                    },
                    _ => {
                        assert(!(vs[i as int] is Str));
                        assert(o.unwrap().view() == Value::List(vs));
                        return Err(TorrentError::WrongType(Field::Path, Kind::ByteString));
                    },
                }
                i = i + 1;
            }
            assert(Seq::new(out@.len(), |j: int| out@[j]@) =~= Seq::new(vs.len(), |j: int| vs[j]->Str_0));
            Ok(out)
        },
        Some(_) => Err(TorrentError::WrongType(Field::Path, Kind::List)),
    }
}

fn file_of(v: &BEncodedData) -> (r: Result<File, TorrentError>)
    ensures
        match r {
            Ok(f) => file_spec(v.view()) == Ok::<FileModel, TorrentError>(f.view()),
            Err(e) => file_spec(v.view()) == Err::<FileModel, TorrentError>(e),
        },
{
    match v {
        BEncodedData::Dict(d) => {
            let length = match size_field_of(d, Field::Length) {
                Ok(n) => n,
                Err(e) => {
                    return Err(e);
                },
            };
            if length == 0 {
                return Err(TorrentError::WrongType(Field::Length, Kind::Positive));
            }
            let key = Field::Path.key();
            let path = match path_of(d.get(key.as_slice())) {
                Ok(p) => p,
                Err(e) => {
                    return Err(e);
                },
            };
            let f = File { length, path };
            Ok(f)
        },
        _ => Err(TorrentError::WrongType(Field::Files, Kind::Dictionary)),
    }
}

/// An error among the first entries of `files` is the error of all of them.
proof fn lemma_files_error_prefix(fs: Seq<Value>, k: int, e: TorrentError)
    requires
        0 <= k <= fs.len(),
        files_spec(fs.take(k)) == Err::<Seq<FileModel>, TorrentError>(e),
    ensures
        files_spec(fs) == Err::<Seq<FileModel>, TorrentError>(e),
    decreases fs.len() - k,
{
    if k < fs.len() {
        assert(fs.take(k + 1).drop_last() =~= fs.take(k));
        lemma_files_error_prefix(fs, k + 1, e);
    } else {
        assert(fs.take(k) =~= fs);
    }
}

fn files_of(fs: &Vec<BEncodedData>) -> (r: Result<Vec<File>, TorrentError>)
    ensures
        match r {
            Ok(out) => files_spec(crate::value::views(fs@)) == Ok::<Seq<FileModel>, TorrentError>(file_views(out@)),
            Err(e) => files_spec(crate::value::views(fs@)) == Err::<Seq<FileModel>, TorrentError>(e),
        },
{
    let ghost vs = crate::value::views(fs@);
    let mut out: Vec<File> = Vec::new();
    let mut i: usize = 0;
    assert(vs.take(0) =~= Seq::<Value>::empty());
    assert(file_views(out@) =~= Seq::<FileModel>::empty());
    while i < fs.len()
        invariant
            i <= fs@.len() == vs.len(),
            vs == crate::value::views(fs@),
            files_spec(vs.take(i as int)) == Ok::<Seq<FileModel>, TorrentError>(file_views(out@)),
        decreases fs.len() - i,
    {
        assert(vs.take(i + 1).drop_last() =~= vs.take(i as int));
        assert(vs.take(i + 1).last() == fs@[i as int].view());
        match file_of(&fs[i]) {
            Ok(f) => {
                let ghost before = file_views(out@);
                let ghost fv = f.view();
                out.push(f);
                assert(file_views(out@) =~= before.push(fv));
            },
            Err(e) => {
                proof {
                    lemma_files_error_prefix(vs, i + 1, e);
                }
                return Err(e);
            },
        }
        i = i + 1;
    }
    assert(vs.take(fs.len() as int) =~= vs);
    Ok(out)
}

fn layout_of(d: &BEDict) -> (r: Result<Keys, TorrentError>)
    ensures
        match r {
            Ok(k) => layout_spec(d.view_entries()) == Ok::<LayoutModel, TorrentError>(k.view()),
            Err(e) => layout_spec(d.view_entries()) == Err::<LayoutModel, TorrentError>(e),
        },
{
    let lkey = Field::Length.key();
    let fkey = Field::Files.key();
    let length = d.get(lkey.as_slice());
    let files = d.get(fkey.as_slice());
    match (length, files) {
        (Some(_), Some(_)) => Err(TorrentError::AmbiguousLayout),
        (None, None) => Err(TorrentError::MissingLayout),
        (Some(_), None) => match size_of(length, Field::Length) {
            Ok(n) => Ok(Keys::SingleFile { length: n }),
            Err(e) => Err(e),
        },
        (None, Some(BEncodedData::List(fs))) => {
            if fs.len() == 0 {
                Err(TorrentError::WrongType(Field::Files, Kind::NonEmptyList))
            } else {
                match files_of(fs) {
                    Ok(out) => Ok(Keys::MultiFile { files: out }),
                    Err(e) => Err(e),
                }
            }
        },
        (None, Some(_)) => Err(TorrentError::WrongType(Field::Files, Kind::List)),
    }
}

fn pieces_of(d: &BEDict) -> (r: Result<Hashes, TorrentError>)
    ensures
        match r {
            Ok(h) => pieces_spec(d.view_entries()) == Ok::<Seq<Seq<u8>>, TorrentError>(h.view()),
            Err(e) => pieces_spec(d.view_entries()) == Err::<Seq<Seq<u8>>, TorrentError>(e),
        },
{
    let key = Field::Pieces.key();
    match d.get(key.as_slice()) {
        None => Err(TorrentError::MissingField(Field::Pieces)),
        Some(BEncodedData::ByteStr(b)) => match Hashes::from_bytes(b.as_bytes()) {
            Some(h) => Ok(h),
            None => Err(TorrentError::InvalidHashLength),
        },
        Some(_) => Err(TorrentError::WrongType(Field::Pieces, Kind::ByteString)),
    }
}

/// Reads torrent metadata out of a decoded value.
pub fn parse_torrent(v: &BEncodedData) -> (r: Result<Torrent, TorrentError>)
    ensures
        match r {
            Ok(t) => torrent_spec(v.view()) == Ok::<TorrentModel, TorrentError>(t.view()),
            Err(e) => torrent_spec(v.view()) == Err::<TorrentModel, TorrentError>(e),
        },
{
    let top = match v {
        BEncodedData::Dict(d) => d,
        _ => {
            return Err(TorrentError::WrongType(Field::Torrent, Kind::Dictionary));
        },
    };
    let announce = match text_field_of(top, Field::Announce) {
        Ok(a) => a,
        Err(e) => {
            return Err(e);
        },
    };
    let ikey = Field::Info.key();
    let info = match top.get(ikey.as_slice()) {
        None => {
            return Err(TorrentError::MissingField(Field::Info));
        },
        Some(BEncodedData::Dict(d)) => d,
        Some(_) => {
            return Err(TorrentError::WrongType(Field::Info, Kind::Dictionary));
        },
    };
    let name = match text_field_of(info, Field::Name) {
        Ok(n) => n,
        Err(e) => {
            return Err(e);
        },
    };
    let piece_len = match size_field_of(info, Field::PieceLength) {
        Ok(n) => n,
        Err(e) => {
            return Err(e);
        },
    };
    let pieces = match pieces_of(info) {
        Ok(h) => h,
        Err(e) => {
            return Err(e);
        },
    };
    let keys = match layout_of(info) {
        Ok(k) => k,
        Err(e) => {
            return Err(e);
        },
    };
    Ok(Torrent { announce, info: MetaInfo { name, piece_len, pieces, keys } })
}

} // verus!
