use vstd::prelude::*;
use vstd::string::StringSliceAdditionalSpecFns;
use sha1::{Digest, Sha1};
use crate::error::{BencodeDecodableError, DecodeFailure, ReadFailure, ReadTorrentError};
use crate::canonical::{encode, parsed_bytes_are_canonical, well_formed};
use crate::value::{
    bytes_of, dict_of, field, find_key, get_struct_value, list_of, list_view, parse, parse_spec,
    u64_of, text_of, BValue, BEntry, BencodeDecodable, Value,
};

verus! {

/// The SHA-1 digest of a byte string.
pub uninterp spec fn sha1_of(b: Seq<u8>) -> Seq<u8>;

/// Relies on `sha1::Sha1::digest`: the 20-byte SHA-1 digest of the input.
#[verifier::external_body]
fn sha1_digest(b: &[u8]) -> (r: [u8; 20])
    ensures
        r@ == sha1_of(b@),
{
    Sha1::digest(b).into()
}

/// The model of a file of a multi-file torrent.
pub struct FileEntryView {
    pub length: int,
    pub path: Seq<Seq<u8>>,
}

/// The model of a torrent's file layout.
pub enum FileDetailsView {
    SingleFile(int),
    MultiFile(Seq<FileEntryView>),
}

/// The model of an info dictionary.
pub struct InfoView {
    pub name: Seq<char>,
    pub piece_length: int,
    pub raw_pieces: Seq<u8>,
    pub file_details: FileDetailsView,
}

/// The model of a torrent's metadata.
pub struct TorrentView {
    pub announce: Seq<u8>,
    pub info: InfoView,
    pub info_hash: Seq<u8>,
}

/// Torrent metadata, borrowing its byte strings from the source buffer.
#[derive(Debug)]
pub struct Torrent<'a> {
    /// The tracker URL.
    pub announce: &'a [u8],
    pub info: Info<'a>,
    /// SHA-1 of the exact bytes that encoded the info dictionary.
    pub info_hash: [u8; 20],
}

/// The info dictionary of a torrent.
#[derive(Debug)]
pub struct Info<'a> {
    pub name: String,
    /// The size of each piece in bytes; never zero.
    pub piece_length: u64,
    /// The concatenated 20-byte SHA-1 hashes of the pieces.
    pub raw_pieces: &'a [u8],
    pub file_details: FileDetails<'a>,
}

/// Single-file or multi-file layout.
#[derive(Debug)]
pub enum FileDetails<'a> {
    SingleFile { length: u64 },
    MultiFile { files: Vec<FileEntry<'a>> },
}

/// One file of a multi-file torrent.
#[derive(Debug)]
pub struct FileEntry<'a> {
    pub length: u64,
    /// Path components, root to leaf.
    pub path: Vec<&'a [u8]>,
}

impl<'a> View for FileEntry<'a> {
    type V = FileEntryView;

    open spec fn view(&self) -> FileEntryView {
        FileEntryView { length: self.length as int, path: self.path@.map_values(|s: &[u8]| s@) }
    }
}

impl<'a> View for FileDetails<'a> {
    type V = FileDetailsView;

    open spec fn view(&self) -> FileDetailsView {
        match self {
            FileDetails::SingleFile { length } => FileDetailsView::SingleFile(*length as int),
            FileDetails::MultiFile { files } => FileDetailsView::MultiFile(
                files@.map_values(|f: FileEntry<'a>| f@),
            ),
        }
    }
}

impl<'a> View for Info<'a> {
    type V = InfoView;

    open spec fn view(&self) -> InfoView {
        InfoView {
            name: self.name@,
            piece_length: self.piece_length as int,
            raw_pieces: self.raw_pieces@,
            file_details: self.file_details@,
        }
    }
}

impl<'a> View for Torrent<'a> {
    type V = TorrentView;

    open spec fn view(&self) -> TorrentView {
        TorrentView { announce: self.announce@, info: self.info@, info_hash: self.info_hash@ }
    }
}

/// The path components of a file, from a list of byte strings.
pub open spec fn path_of(items: Seq<BValue>) -> Result<Seq<Seq<u8>>, DecodeFailure>
    decreases items.len(),
{
    if items.len() == 0 {
        Ok(Seq::empty())
    } else {
        match path_of(items.drop_last()) {
            Err(e) => Err(e),
            Ok(p) => match bytes_of(items.last()) {
                Ok(b) => Ok(p.push(b)),
                Err(e) => Err(e),
            },
        }
    }
}

/// A file entry decoded from a dictionary with `length` and `path`.
pub open spec fn file_entry_spec(v: BValue) -> Result<FileEntryView, DecodeFailure> {
    match dict_of(v) {
        Err(e) => Err(e),
        Ok(d) => match field(d, "length") {
            Err(e) => Err(e),
            Ok(le) => match u64_of(le.value) {
                Err(e) => Err(e),
                Ok(n) => match field(d, "path") {
                    Err(e) => Err(e),
                    Ok(pe) => match list_of(pe.value) {
                        Err(e) => Err(e),
                        Ok(items) => match path_of(items) {
                            Err(e) => Err(e),
                            Ok(p) => Ok(FileEntryView { length: n, path: p }),
                        },
                    },
                },
            },
        },
    }
}

/// The files of a multi-file torrent, in their original order.
pub open spec fn files_of(items: Seq<BValue>) -> Result<Seq<FileEntryView>, DecodeFailure>
    decreases items.len(),
{
    if items.len() == 0 {
        Ok(Seq::empty())
    } else {
        match files_of(items.drop_last()) {
            Err(e) => Err(e),
            Ok(f) => match file_entry_spec(items.last()) {
                Ok(x) => Ok(f.push(x)),
                Err(e) => Err(e),
            },
        }
    }
}

/// The layout of an info dictionary: a well-typed `length` selects a single
/// file; otherwise `files` is required.
pub open spec fn layout_spec(d: Seq<BEntry>) -> Result<FileDetailsView, DecodeFailure> {
    if field(d, "length") is Ok && u64_of(field(d, "length")->Ok_0.value) is Ok {
        Ok(FileDetailsView::SingleFile(u64_of(field(d, "length")->Ok_0.value)->Ok_0))
    } else {
        match field(d, "files") {
            Err(e) => Err(e),
            Ok(fe) => match list_of(fe.value) {
                Err(e) => Err(e),
                Ok(items) => match files_of(items) {
                    Err(e) => Err(e),
                    Ok(f) => Ok(FileDetailsView::MultiFile(f)),
                },
            },
        }
    }
}

/// An info dictionary decoded from a value.
pub open spec fn info_spec(v: BValue) -> Result<InfoView, DecodeFailure> {
    match dict_of(v) {
        Err(e) => Err(e),
        Ok(d) => match field(d, "name") {
            Err(e) => Err(e),
            Ok(ne) => match bytes_of(ne.value) {
                Err(e) => Err(e),
                Ok(name) => match field(d, "piece length") {
                    Err(e) => Err(e),
                    Ok(ple) => match u64_of(ple.value) {
                        Err(e) => Err(e),
                        Ok(pl) => match field(d, "pieces") {
                            Err(e) => Err(e),
                            Ok(pe) => match bytes_of(pe.value) {
                                Err(e) => Err(e),
                                Ok(rp) => if rp.len() % 20 != 0 {
                                    Err(
                                        DecodeFailure::StructuralValidation(
                                            "pieces"@,
                                            rp.len() as int,
                                        ),
                                    )
                                } else if pl == 0 {
                                    Err(DecodeFailure::StructuralValidation("piece length"@, 0))
                                } else {
                                    match layout_spec(d) {
                                        Err(e) => Err(e),
                                        Ok(fd) => Ok(
                                            InfoView {
                                                name: text_of(name),
                                                piece_length: pl,
                                                raw_pieces: rp,
                                                file_details: fd,
                                            },
                                        ),
                                    }
                                },
                            },
                        },
                    },
                },
            },
        },
    }
}

/// Torrent metadata decoded from a value; the info hash is the digest of
/// the bytes that encoded the `info` entry.
pub open spec fn torrent_spec(v: BValue) -> Result<TorrentView, DecodeFailure> {
    match dict_of(v) {
        Err(e) => Err(e),
        Ok(d) => match field(d, "announce") {
            Err(e) => Err(e),
            Ok(ae) => match bytes_of(ae.value) {
                Err(e) => Err(e),
                Ok(a) => match field(d, "info") {
                    Err(e) => Err(e),
                    Ok(ie) => match info_spec(ie.value) {
                        Err(e) => Err(e),
                        Ok(info) => Ok(
                            TorrentView { announce: a, info, info_hash: sha1_of(ie.raw) },
                        ),
                    },
                },
            },
        },
    }
}


proof fn lemma_path_err(items: Seq<BValue>, i: int, j: int)
    requires
        0 <= i <= j <= items.len(),
        path_of(items.subrange(0, i)) is Err,
    ensures
        path_of(items.subrange(0, j)) == path_of(items.subrange(0, i)),
    decreases j - i,
{
    if j > i {
        lemma_path_err(items, i, j - 1);
        assert(items.subrange(0, j).drop_last() =~= items.subrange(0, j - 1));
    }
}

proof fn lemma_files_err(items: Seq<BValue>, i: int, j: int)
    requires
        0 <= i <= j <= items.len(),
        files_of(items.subrange(0, i)) is Err,
    ensures
        files_of(items.subrange(0, j)) == files_of(items.subrange(0, i)),
    decreases j - i,
{
    if j > i {
        lemma_files_err(items, i, j - 1);
        assert(items.subrange(0, j).drop_last() =~= items.subrange(0, j - 1));
    }
}

/// Decodes the files of a multi-file torrent, in their original order.
fn decode_files<'a>(list: &Vec<Value<'a>>) -> (r: Result<Vec<FileEntry<'a>>, BencodeDecodableError>)
    ensures
        match r {
            Ok(f) => files_of(list_view(list@)) == Ok::<Seq<FileEntryView>, DecodeFailure>(
                f@.map_values(|x: FileEntry<'a>| x@),
            ),
            Err(e) => files_of(list_view(list@)) == Err::<Seq<FileEntryView>, DecodeFailure>(e@),
        },
{
    let ghost items = list_view(list@);
    let mut files: Vec<FileEntry<'a>> = Vec::new();
    let mut i: usize = 0;
    assert(items.subrange(0, 0) =~= Seq::<BValue>::empty());
    assert(files@.map_values(|x: FileEntry<'a>| x@) =~= Seq::<FileEntryView>::empty());
    while i < list.len()
        invariant
            i <= list@.len(),
            items == list_view(list@),
            files_of(items.subrange(0, i as int)) == Ok::<Seq<FileEntryView>, DecodeFailure>(
                files@.map_values(|x: FileEntry<'a>| x@),
            ),
        decreases list@.len() - i,
    {
        assert(items.subrange(0, i + 1).drop_last() =~= items.subrange(0, i as int));
        match FileEntry::decode(&list[i]) {
            Ok(f) => {
                let ghost before = files@;
                let ghost fv = f@;
                files.push(f);
                assert(files@.map_values(|x: FileEntry<'a>| x@) =~= before.map_values(
                    |x: FileEntry<'a>| x@,
                ).push(fv));
            },
            Err(e) => {
                proof {
                    lemma_files_err(items, i + 1, items.len() as int);
                    assert(items.subrange(0, items.len() as int) =~= items);
                }
                return Err(e);
            },
        }
        i = i + 1;
    }
    assert(items.subrange(0, items.len() as int) =~= items);
    Ok(files)
}

impl<'a> Info<'a> {
    /// The number of pieces.
    pub fn piece_count(&self) -> (r: usize)
        ensures
            r == self.raw_pieces@.len() / 20,
    {
        self.raw_pieces.len() / 20
    }

    /// The 20-byte hash of piece `index`, if there is such a piece.
    pub fn piece_hash(&self, index: usize) -> (r: Option<&'a [u8]>)
        ensures
            match r {
                Some(h) => index < self.raw_pieces@.len() / 20 && h@ == self.raw_pieces@.subrange(
                    20 * index as int,
                    20 * index as int + 20,
                ),
                None => index >= self.raw_pieces@.len() / 20,
            },
    {
        if index < self.raw_pieces.len() / 20 {
            let start = index * 20;
            Some(vstd::slice::slice_subrange(self.raw_pieces, start, start + 20))
        } else {
            None
        }
    }
}

impl<'a> BencodeDecodable<'a> for FileEntry<'a> {
    open spec fn decoded(v: BValue) -> Result<FileEntryView, DecodeFailure> {
        file_entry_spec(v)
    }

    /// Decodes a file entry from a dictionary with `length` and `path`.
    fn decode(b: &Value<'a>) -> (r: Result<FileEntry<'a>, BencodeDecodableError>)
    {
        let dict = b.get_struct()?;
        let length = get_struct_value("length", dict)?.value.get_u64()?;
        let path_list = get_struct_value("path", dict)?.value.get_list()?;
        let ghost items = list_view(path_list@);
        let mut path: Vec<&'a [u8]> = Vec::new();
        let mut i: usize = 0;
        assert(items.subrange(0, 0) =~= Seq::<BValue>::empty());
        assert(path@.map_values(|s: &[u8]| s@) =~= Seq::<Seq<u8>>::empty());
        let ghost whole = match path_of(items) {
            Err(e) => Err(e),
            Ok(p) => Ok(FileEntryView { length: length as int, path: p }),
        };
        assert(file_entry_spec(b@) == whole);
        while i < path_list.len()
            invariant
                i <= path_list@.len(),
                items == list_view(path_list@),
                file_entry_spec(b@) == whole,
                whole == match path_of(items) {
                    Err(e) => Err(e),
                    Ok(p) => Ok(FileEntryView { length: length as int, path: p }),
                },
                path_of(items.subrange(0, i as int)) == Ok::<Seq<Seq<u8>>, DecodeFailure>(
                    path@.map_values(|s: &[u8]| s@),
                ),
            decreases path_list@.len() - i,
        {
            assert(items.subrange(0, i + 1).drop_last() =~= items.subrange(0, i as int));
            match path_list[i].get_str() {
                Ok(s) => {
                    let ghost before = path@;
                    path.push(s);
                    assert(path@.map_values(|s: &[u8]| s@) =~= before.map_values(
                        |s: &[u8]| s@,
                    ).push(s@));
                },
                Err(e) => {
                    proof {
                        assert(items.subrange(0, i + 1).last() == items[i as int]);
                        assert(path_of(items.subrange(0, i + 1)) == Err::<Seq<Seq<u8>>, DecodeFailure>(e@));
                        lemma_path_err(items, i + 1, items.len() as int);
                        assert(items.subrange(0, items.len() as int) =~= items);
                    }
                    return Err(e);
                },
            }
            i = i + 1;
        }
        assert(items.subrange(0, items.len() as int) =~= items);
        Ok(FileEntry { length, path })
    }
}

impl<'a> BencodeDecodable<'a> for Info<'a> {
    open spec fn decoded(v: BValue) -> Result<InfoView, DecodeFailure> {
        info_spec(v)
    }

    /// Decodes an info dictionary.
    fn decode(b: &Value<'a>) -> (r: Result<Info<'a>, BencodeDecodableError>)
    {
        let dict = b.get_struct()?;
        let name = get_struct_value("name", dict)?.value.get_string()?;
        let piece_length = get_struct_value("piece length", dict)?.value.get_u64()?;
        let raw_pieces = get_struct_value("pieces", dict)?.value.get_str()?;
        if raw_pieces.len() % 20 != 0 {
            return Err(
                BencodeDecodableError::StructuralValidation(
                    "pieces".to_owned(),
                    raw_pieces.len() as u64,
                ),
            );
        }
        if piece_length == 0 {
            return Err(BencodeDecodableError::StructuralValidation("piece length".to_owned(), 0));
        }
        let single = match get_struct_value("length", dict) {
            Ok(le) => match le.value.get_u64() {
                Ok(n) => Some(n),
                Err(_) => None,
            },
            Err(_) => None,
        };
        let file_details = match single {
            Some(length) => FileDetails::SingleFile { length },
            None => {
                let list = get_struct_value("files", dict)?.value.get_list()?;
                let files = decode_files(list)?;
                FileDetails::MultiFile { files }
            },
        };
        Ok(Info { name, piece_length, raw_pieces, file_details })
    }
}

impl<'a> BencodeDecodable<'a> for Torrent<'a> {
    open spec fn decoded(v: BValue) -> Result<TorrentView, DecodeFailure> {
        torrent_spec(v)
    }

    /// Decodes torrent metadata; the info hash is the SHA-1 digest of the
    /// exact bytes that encoded the `info` entry.
    fn decode(b: &Value<'a>) -> (r: Result<Torrent<'a>, BencodeDecodableError>)
    {
        let dict = b.get_struct()?;
        let announce = get_struct_value("announce", dict)?.value.get_str()?;
        let info_entry = get_struct_value("info", dict)?;
        let info = Info::decode(&info_entry.value)?;
        let info_hash = sha1_digest(info_entry.raw);
        Ok(Torrent { announce, info, info_hash })
    }
}

/// What reading a whole torrent buffer gives.
pub open spec fn read_torrent_spec(b: Seq<u8>) -> Result<TorrentView, ReadFailure> {
    match parse_spec(b) {
        None => Err(ReadFailure::Syntax),
        Some(v) => match torrent_spec(v) {
            Ok(t) => Ok(t),
            Err(e) => Err(ReadFailure::Decode(e)),
        },
    }
}

/// Owns a torrent buffer that is known to decode; the metadata it hands
/// out borrows from it.
pub struct TorrentFile {
    data: Vec<u8>,
}

impl View for TorrentFile {
    type V = Seq<u8>;

    closed spec fn view(&self) -> Seq<u8> {
        self.data@
    }
}

impl TorrentFile {
    #[verifier::type_invariant]
    closed spec fn decodes(&self) -> bool {
        read_torrent_spec(self.data@) is Ok
    }

    /// Takes ownership of a buffer, provided it holds valid torrent metadata.
    pub fn from_bytes(bytes: Vec<u8>) -> (r: Result<TorrentFile, ReadTorrentError>)
        ensures
            match r {
                Ok(f) => f@ == bytes@ && read_torrent_spec(bytes@) is Ok,
                Err(e) => read_torrent_spec(bytes@) == Err::<TorrentView, ReadFailure>(e@),
            },
    {
        let checked = match parse(bytes.as_slice()) {
            Err(e) => Err(ReadTorrentError::StreamingError(e)),
            Ok(root) => match Torrent::decode(&root) {
                Ok(_) => Ok(()),
                Err(e) => Err(ReadTorrentError::BencodeDecodableError(e)),
            },
        };
        match checked {
            Ok(()) => Ok(TorrentFile { data: bytes }),
            Err(e) => Err(e),
        }
    }

    /// The owned buffer.
    pub fn bytes(&self) -> (r: &[u8])
        ensures
            r@ == self@,
    {
        self.data.as_slice()
    }

    /// The metadata, borrowing from this owner.
    pub fn torrent(&self) -> (r: Torrent<'_>)
        ensures
            read_torrent_spec(self@) == Ok::<TorrentView, ReadFailure>(r@),
    {
        proof {
            use_type_invariant(self);
        }
        match parse(self.data.as_slice()) {
            Ok(root) => match Torrent::decode(&root) {
                Ok(t) => t,
                Err(_) => vstd::pervasive::unreached(),
            },
            Err(_) => vstd::pervasive::unreached(),
        }
    }
}


proof fn lemma_files_in_order(items: Seq<BValue>, fs: Seq<FileEntryView>)
    requires
        files_of(items) == Ok::<Seq<FileEntryView>, DecodeFailure>(fs),
    ensures
        fs.len() == items.len(),
        forall|i: int|
            0 <= i < items.len() ==> file_entry_spec(#[trigger] items[i]) == Ok::<
                FileEntryView,
                DecodeFailure,
            >(fs[i]),
    decreases items.len(),
{
    if items.len() > 0 {
        let prev = files_of(items.drop_last())->Ok_0;
        lemma_files_in_order(items.drop_last(), prev);
        assert(fs == prev.push(file_entry_spec(items.last())->Ok_0));
        assert forall|i: int| 0 <= i < items.len() implies file_entry_spec(
            #[trigger] items[i],
        ) == Ok::<FileEntryView, DecodeFailure>(fs[i]) by {
            if i < items.len() - 1 {
                assert(items.drop_last()[i] == items[i]);
            }
        }
    }
}

/// A torrent whose info dictionary holds an unsigned 64-bit `length` decodes
/// to a single-file layout of that length.
pub proof fn single_file_layout(root: BValue, n: int)
    requires
        torrent_spec(root) is Ok,
        field(dict_of(field(dict_of(root)->Ok_0, "info")->Ok_0.value)->Ok_0, "length")
            matches Ok(le) && le.value == BValue::Int(n),
        0 <= n <= u64::MAX,
    ensures
        torrent_spec(root)->Ok_0.info.file_details == FileDetailsView::SingleFile(n),
{
}

/// A torrent whose info dictionary has no unsigned 64-bit `length` decodes
/// to a multi-file layout with one entry per item of `files`, in the
/// original order.
pub proof fn multi_file_layout(root: BValue)
    requires
        torrent_spec(root) is Ok,
        !(field(dict_of(field(dict_of(root)->Ok_0, "info")->Ok_0.value)->Ok_0, "length")
            matches Ok(le) && u64_of(le.value) is Ok),
    ensures
        ({
            let info = dict_of(field(dict_of(root)->Ok_0, "info")->Ok_0.value)->Ok_0;
            let items = list_of(field(info, "files")->Ok_0.value)->Ok_0;
            torrent_spec(root)->Ok_0.info.file_details matches FileDetailsView::MultiFile(fs) && fs.len()
                == items.len() && forall|i: int|
                0 <= i < items.len() ==> file_entry_spec(#[trigger] items[i]) == Ok::<
                    FileEntryView,
                    DecodeFailure,
                >(fs[i])
        }),
{
    let info = dict_of(field(dict_of(root)->Ok_0, "info")->Ok_0.value)->Ok_0;
    let items = list_of(field(info, "files")->Ok_0.value)->Ok_0;
    lemma_files_in_order(items, files_of(items)->Ok_0);
}

/// Decoding is deterministic: the same bytes give the same metadata, and so
/// the same info hash.
pub proof fn decode_deterministic(b1: Seq<u8>, b2: Seq<u8>)
    requires
        b1 == b2,
        read_torrent_spec(b1) is Ok,
    ensures
        read_torrent_spec(b2) == read_torrent_spec(b1),
        read_torrent_spec(b2)->Ok_0.info_hash == read_torrent_spec(b1)->Ok_0.info_hash,
{
}

/// The info hash depends on the bytes of the info dictionary alone: two
/// torrents whose `info` entries were encoded by the same bytes have the
/// same info hash, whatever their announce URLs.
pub proof fn info_hash_from_info_bytes(root1: BValue, root2: BValue)
    requires
        torrent_spec(root1) is Ok,
        torrent_spec(root2) is Ok,
        field(dict_of(root1)->Ok_0, "info")->Ok_0.raw == field(
            dict_of(root2)->Ok_0,
            "info",
        )->Ok_0.raw,
    ensures
        torrent_spec(root1)->Ok_0.info_hash == torrent_spec(root2)->Ok_0.info_hash,
{
}


/// For a well-formed value, and so for every value that `parse` returns,
/// the info hash is the SHA-1 digest of the canonical encoding of the info
/// dictionary; keys outside `info` do not enter it.
pub proof fn info_hash_is_digest_of_canonical_info(root: BValue)
    requires
        well_formed(root, 0),
        torrent_spec(root) is Ok,
    ensures
        torrent_spec(root)->Ok_0.info_hash == sha1_of(
            encode(field(dict_of(root)->Ok_0, "info")->Ok_0.value),
        ),
{
    let d = dict_of(root)->Ok_0;
    lemma_find_key_in_range(d, "info".spec_bytes(), 0);
    let i = find_key(d, "info".spec_bytes(), 0)->Some_0;
    assert(d[i].raw == encode(d[i].value));
}

/// The info hash of a torrent read from bytes is the SHA-1 digest of the
/// canonical encoding of its info dictionary, which is exactly the span of
/// the buffer that held it.
pub proof fn info_hash_of_read_bytes(b: Seq<u8>)
    requires
        read_torrent_spec(b) is Ok,
    ensures
        read_torrent_spec(b)->Ok_0.info_hash == sha1_of(
            encode(field(dict_of(parse_spec(b)->Some_0)->Ok_0, "info")->Ok_0.value),
        ),
{
    parsed_bytes_are_canonical(b);
    info_hash_is_digest_of_canonical_info(parse_spec(b)->Some_0);
}

proof fn lemma_find_key_in_range(d: Seq<BEntry>, k: Seq<u8>, from: int)
    requires
        find_key(d, k, from) is Some,
    ensures
        0 <= from <= find_key(d, k, from)->Some_0 < d.len(),
        d[find_key(d, k, from)->Some_0].key == k,
    decreases d.len() - from,
{
    if d[from].key != k {
        lemma_find_key_in_range(d, k, from + 1);
    }
}


proof fn lemma_find_key_same_keys(d1: Seq<BEntry>, d2: Seq<BEntry>, k: Seq<u8>, from: int)
    requires
        d1.len() == d2.len(),
        forall|i: int| 0 <= i < d1.len() ==> (#[trigger] d1[i]).key == d2[i].key,
    ensures
        find_key(d1, k, from) == find_key(d2, k, from),
    decreases d1.len() - from,
{
    if 0 <= from < d1.len() && d1[from].key != k {
        lemma_find_key_same_keys(d1, d2, k, from + 1);
    }
}

/// Two torrent dictionaries that differ only in their announce URL decode
/// to the same info dictionary and the same info hash.
pub proof fn info_hash_ignores_announce(root1: BValue, root2: BValue)
    requires
        root1 matches BValue::Dict(d1) && root2 matches BValue::Dict(d2) && d1.len() == d2.len()
            && (forall|i: int| 0 <= i < d1.len() ==> (#[trigger] d1[i]).key == d2[i].key) && (
        forall|i: int|
            0 <= i < d1.len() && (#[trigger] d1[i]).key != "announce".spec_bytes() ==> d1[i]
                == d2[i]) && (forall|i: int|
            0 <= i < d2.len() && (#[trigger] d2[i]).key == "announce".spec_bytes()
                ==> d2[i].value is Bytes),
        torrent_spec(root1) is Ok,
    ensures
        torrent_spec(root2) is Ok,
        torrent_spec(root2)->Ok_0.info == torrent_spec(root1)->Ok_0.info,
        torrent_spec(root2)->Ok_0.info_hash == torrent_spec(root1)->Ok_0.info_hash,
{
    let d1 = root1->Dict_0;
    let d2 = root2->Dict_0;
    reveal_strlit("info");
    reveal_strlit("announce");
    vstd::string::is_ascii_spec_bytes("info");
    vstd::string::is_ascii_spec_bytes("announce");
    lemma_find_key_same_keys(d1, d2, "announce".spec_bytes(), 0);
    lemma_find_key_same_keys(d1, d2, "info".spec_bytes(), 0);
    lemma_find_key_in_range(d1, "announce".spec_bytes(), 0);
    lemma_find_key_in_range(d1, "info".spec_bytes(), 0);
    let a = find_key(d2, "announce".spec_bytes(), 0)->Some_0;
    let i = find_key(d1, "info".spec_bytes(), 0)->Some_0;
    assert(d2[a].key == "announce".spec_bytes());
    assert(d1[i].key == "info".spec_bytes());
    assert(d1[i].key.len() != "announce".spec_bytes().len());
    assert(d1[i] == d2[i]);
}


proof fn lemma_path_in_order(items: Seq<BValue>, p: Seq<Seq<u8>>)
    requires
        path_of(items) == Ok::<Seq<Seq<u8>>, DecodeFailure>(p),
    ensures
        p.len() == items.len(),
        forall|j: int| 0 <= j < items.len() ==> #[trigger] items[j] == BValue::Bytes(p[j]),
    decreases items.len(),
{
    if items.len() > 0 {
        let prev = path_of(items.drop_last())->Ok_0;
        lemma_path_in_order(items.drop_last(), prev);
        assert forall|j: int| 0 <= j < items.len() implies #[trigger] items[j] == BValue::Bytes(
            p[j],
        ) by {
            if j < items.len() - 1 {
                assert(items.drop_last()[j] == items[j]);
            }
        }
    }
}

/// A decoded file keeps the encoded length and the path components in their
/// original order.
pub proof fn file_entry_in_order(v: BValue)
    requires
        file_entry_spec(v) is Ok,
    ensures
        ({
            let d = dict_of(v)->Ok_0;
            let f = file_entry_spec(v)->Ok_0;
            let items = list_of(field(d, "path")->Ok_0.value)->Ok_0;
            &&& field(d, "length")->Ok_0.value == BValue::Int(f.length)
            &&& f.path.len() == items.len()
            &&& forall|j: int| 0 <= j < items.len() ==> #[trigger] items[j] == BValue::Bytes(f.path[j])
        }),
{
    let d = dict_of(v)->Ok_0;
    let items = list_of(field(d, "path")->Ok_0.value)->Ok_0;
    lemma_path_in_order(items, path_of(items)->Ok_0);
}

} // verus!
