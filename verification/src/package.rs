//! The archive transformer: package model, the zip container boundary, role
//! classification, and the two-phase conversion pass.
//!
//! A package is a sequence of named entries. The pass walks them once:
//! the content-types member is patched immediately, relationship members are
//! buffered, media members are recoded and renamed (or copied verbatim when
//! recoding fails or is skipped), everything else is copied verbatim. Once
//! all renames are known, the buffered relationship members are patched and
//! appended.

use vstd::prelude::*;
use vstd::string::*;

use crate::content_types::{ct_injects, patch_content_types, spec_patch_ct};
use crate::img::{
    ext_bytes, has_format, is_format_bytes, new_img_name, new_name_spec, recode_of, recode_ok,
    AcceptedFormat,
};
use crate::img::convert_image;
use crate::rels::{replace_rels, spec_patch_rels};
use crate::xml::{attrs_view, bytes_eq, concat_raws, xml_tokens_of};
use crate::Error;

verus! {

/// The mathematical model of an archive entry: its path, bytes, compression
/// method code, and optional MS-DOS timestamp (date part, time part).
pub ghost struct EntryModel {
    pub name: Seq<u8>,
    pub data: Seq<u8>,
    pub compression: u16,
    pub mtime: Option<(u16, u16)>,
}

/// One archive entry: path, raw bytes, compression method code, and the
/// optional MS-DOS timestamp (date part, time part).
pub struct Entry {
    pub name: Vec<u8>,
    pub data: Vec<u8>,
    pub compression: u16,
    pub mtime: Option<(u16, u16)>,
}

impl View for Entry {
    type V = EntryModel;

    open spec fn view(&self) -> EntryModel {
        EntryModel {
            name: self.name@,
            data: self.data@,
            compression: self.compression,
            mtime: self.mtime,
        }
    }
}

/// The models of an entry vector's elements.
pub open spec fn entries_view(s: Seq<Entry>) -> Seq<EntryModel> {
    s.map_values(|e: Entry| e@)
}

#[verifier::external_type_specification]
#[verifier::external_body]
#[verifier::reject_recursive_types(R)]
pub struct ExZipArchive<R>(zip::read::ZipArchive<R>);


/// Whether the bytes open as a zip container (a readable central
/// directory). The result depends on the bytes alone.
pub uninterp spec fn zip_open_ok(b: Seq<u8>) -> bool;

/// How many members the container's central directory lists. The result
/// depends on the bytes alone.
pub uninterp spec fn zip_count(b: Seq<u8>) -> int;

/// What reading member `i` of the container yields: its name, inflated
/// bytes, compression method, and timestamp, or `None` when the member is
/// unreadable. The result depends on the bytes and the index alone.
pub uninterp spec fn zip_member(b: Seq<u8>, i: int) -> Option<EntryModel>;

/// The entries the zip container holds for the given bytes, in archive
/// order, or `None` when the container or any member is unreadable.
pub open spec fn zip_parse(b: Seq<u8>) -> Option<Seq<EntryModel>> {
    if zip_open_ok(b) && 0 <= zip_count(b) && (forall|i: int|
        0 <= i < zip_count(b) ==> (#[trigger] zip_member(b, i)) is Some) {
        Some(Seq::new(zip_count(b) as nat, |i: int| zip_member(b, i).unwrap()))
    } else {
        None
    }
}

/// Whether appending this entry to a container already holding `prev`
/// succeeds: its name is valid UTF-8 and not yet taken, and its compression
/// method can be written. The sink is in-memory, so nothing else can fail;
/// the result depends on the entries alone.
pub uninterp spec fn zip_addable(prev: Seq<EntryModel>, e: EntryModel) -> bool;

/// Whether closing a container holding exactly these members succeeds. The
/// result depends on the entries alone.
pub uninterp spec fn zip_finishable(s: Seq<EntryModel>) -> bool;

/// Whether the date and time parts form a valid MS-DOS timestamp, the ones
/// `zip::DateTime::try_from_msdos` accepts. The result depends on the parts
/// alone.
pub uninterp spec fn dos_datetime_valid(m: (u16, u16)) -> bool;

/// How a written member comes back when the container is re-read: name,
/// bytes, and compression method survive exactly; a valid requested
/// timestamp survives exactly, while an absent or invalid one is replaced
/// by the container's default stamp.
pub open spec fn persisted(a: EntryModel, b: EntryModel) -> bool {
    b.name == a.name && b.data == a.data && b.compression == a.compression && (a.mtime is Some
        && dos_datetime_valid(a.mtime.unwrap()) ==> b.mtime == a.mtime)
}

/// Pointwise `persisted` over whole member lists.
pub open spec fn persisted_seq(a: Seq<EntryModel>, b: Seq<EntryModel>) -> bool {
    a.len() == b.len() && forall|j: int| 0 <= j < a.len() ==> persisted(a[j], #[trigger] b[j])
}

/// Whether a container holding exactly these members can be written member
/// by member.
pub open spec fn zip_writable(s: Seq<EntryModel>) -> bool
    decreases s.len(),
{
    if s.len() == 0 {
        true
    } else {
        zip_writable(s.drop_last()) && zip_addable(s.drop_last(), s.last())
    }
}

/// Every prefix of a writable member list is writable, and each member can
/// be appended to the prefix before it.
proof fn lemma_writable_at(s: Seq<EntryModel>, i: int)
    requires
        zip_writable(s),
        0 <= i < s.len(),
    ensures
        zip_addable(s.take(i), s[i]),
    decreases s.len(),
{
    if i == s.len() - 1 {
        assert(s.drop_last() =~= s.take(i));
    } else {
        lemma_writable_at(s.drop_last(), i);
        assert(s.drop_last().take(i) =~= s.take(i));
        assert(s.drop_last()[i] == s[i]);
    }
}

/// The bytes an open archive was opened over.
pub uninterp spec fn ar_doc(ar: zip::read::ZipArchive<std::io::Cursor<Vec<u8>>>) -> Seq<u8>;

/// Opens a zip archive over a copy of the given bytes.
///
/// Relies on zip's `ZipArchive::new`: it reads the central directory and
/// fails exactly when the bytes are not a readable container.
#[verifier::external_body]
fn zip_open(bytes: &Vec<u8>) -> (r: Result<
    zip::read::ZipArchive<std::io::Cursor<Vec<u8>>>,
    Error,
>)
    ensures
        r matches Ok(ar) ==> zip_open_ok(bytes@) && ar_doc(ar) == bytes@,
        r matches Err(e) ==> !zip_open_ok(bytes@) && e == Error::Archive,
{
    zip::read::ZipArchive::new(std::io::Cursor::new(bytes.clone())).map_err(|_| Error::Archive)
}

/// The number of members of an open archive.
///
/// Relies on zip's `ZipArchive::len`: it reports the central directory's
/// member count.
#[verifier::external_body]
fn zip_len(ar: &zip::read::ZipArchive<std::io::Cursor<Vec<u8>>>) -> (r: usize)
    ensures
        r as int == zip_count(ar_doc(*ar)),
{
    ar.len()
}

/// Reads one member of an open archive.
///
/// Relies on zip's `ZipArchive::by_index` and `ZipFile`: reading a member
/// yields its name, inflated bytes, compression method, and timestamp, in a
/// way that depends on the archive bytes and index alone, and fails exactly
/// when the member is unreadable.
#[verifier::external_body]
#[allow(deprecated)]
fn zip_entry(ar: &mut zip::read::ZipArchive<std::io::Cursor<Vec<u8>>>, i: usize) -> (r: Result<
    Entry,
    Error,
>)
    requires
        (i as int) < zip_count(ar_doc(*old(ar))),
    ensures
        ar_doc(*final(ar)) == ar_doc(*old(ar)),
        r matches Ok(e) ==> zip_member(ar_doc(*final(ar)), i as int) == Some(e@),
        r matches Err(e) ==> zip_member(ar_doc(*final(ar)), i as int) is None && e
            == Error::Archive,
{
    let mut f = match ar.by_index(i) { Ok(f) => f, Err(_) => return Err(Error::Archive) };
    let mut data: Vec<u8> = Vec::new();
    if std::io::Read::read_to_end(&mut f, &mut data).is_err() {
        return Err(Error::Archive);
    }
    let mtime = f.last_modified().map(|t| (t.datepart(), t.timepart()));
    let name = f.name().as_bytes().to_vec();
    Ok(Entry { name, data, compression: f.compression().to_u16(), mtime })
}

/// Reads every member of a zip archive, in archive order.
pub(crate) fn read_archive(bytes: &Vec<u8>) -> (r: Result<Vec<Entry>, Error>)
    ensures
        r matches Ok(es) ==> zip_parse(bytes@) == Some(entries_view(es@)),
        r matches Err(e) ==> zip_parse(bytes@) is None && e == Error::Archive,
{
    let mut ar = match zip_open(bytes) {
        Ok(a) => a,
        Err(e) => {
            return Err(e);
        },
    };
    let n = zip_len(&ar);
    let mut out: Vec<Entry> = Vec::new();
    let mut i: usize = 0;
    while i < n
        invariant
            i <= n,
            n as int == zip_count(bytes@),
            ar_doc(ar) == bytes@,
            zip_open_ok(bytes@),
            out@.len() == i,
            forall|j: int|
                0 <= j < i ==> zip_member(bytes@, j) == Some(#[trigger] entries_view(out@)[j]),
        decreases n - i,
    {
        let ghost prev = out@;
        match zip_entry(&mut ar, i) {
            Ok(e) => {
                out.push(e);
            },
            Err(e) => {
                return Err(e);
            },
        }
        proof {
            assert forall|j: int| 0 <= j < i + 1 implies zip_member(bytes@, j) == Some(
                #[trigger] entries_view(out@)[j],
            ) by {
                assert(entries_view(out@)[j] == out@[j]@);
                if j < i {
                    assert(out@[j] == prev[j]);
                    assert(entries_view(prev)[j] == prev[j]@);
                }
            }
        }
        i = i + 1;
    }
    proof {
        assert forall|j: int| 0 <= j < zip_count(bytes@) implies (#[trigger] zip_member(
            bytes@,
            j,
        )) is Some by {
            assert(zip_member(bytes@, j) == Some(entries_view(out@)[j]));
        }
        let parsed = Seq::new(zip_count(bytes@) as nat, |j: int| zip_member(bytes@, j).unwrap());
        assert forall|j: int| 0 <= j < parsed.len() implies parsed[j] == #[trigger] entries_view(
            out@,
        )[j] by {
            assert(zip_member(bytes@, j) == Some(entries_view(out@)[j]));
        }
        assert(entries_view(out@) =~= parsed);
    }
    Ok(out)
}

/// An output container being assembled in memory. The writer type's trait
/// bounds keep it from being declared to the verifier directly, so it is
/// held opaquely.
#[verifier::external_body]
pub struct ArchiveSink {
    inner: zip::write::ZipWriter<std::io::Cursor<Vec<u8>>>,
}

/// The entries written into an output container so far.
pub uninterp spec fn zw_entries(w: ArchiveSink) -> Seq<EntryModel>;

/// Opens a zip writer over a fresh in-memory buffer.
///
/// Relies on zip's `ZipWriter::new`: a fresh writer holds no members.
#[verifier::external_body]
fn zw_new() -> (w: ArchiveSink)
    ensures
        zw_entries(w) == Seq::<EntryModel>::empty(),
{
    ArchiveSink { inner: zip::write::ZipWriter::new(std::io::Cursor::new(Vec::new())) }
}

/// Appends one member to an open zip writer.
///
/// Relies on zip's `ZipWriter::start_file` and `write_all`: on success the
/// writer holds one more member, with this entry's name, bytes, compression
/// method, and timestamp; failure (a duplicate or invalid name, a
/// compression method that cannot be written) depends on the members alone,
/// since the sink is in-memory.
#[verifier::external_body]
#[allow(deprecated)]
fn zw_add(w: &mut ArchiveSink, e: &Entry) -> (r: Result<(), Error>)
    ensures
        r matches Ok(u) ==> zip_addable(zw_entries(*old(w)), e@) && zw_entries(*final(w))
            == zw_entries(*old(w)).push(e@),
        r matches Err(err) ==> !zip_addable(zw_entries(*old(w)), e@) && (err == Error::Archive
            || err == Error::Io),
{
    let mut opts = zip::write::SimpleFileOptions::default().compression_method(
        zip::CompressionMethod::from_u16(e.compression),
    );
    if let Some((d, t)) = e.mtime {
        if let Ok(dt) = zip::DateTime::try_from_msdos(d, t) { opts = opts.last_modified_time(dt); }
    }
    let name = match core::str::from_utf8(e.name.as_slice()) { Ok(s) => s, Err(_) => return Err(Error::Archive) };
    if w.inner.start_file(name, opts).is_err() { return Err(Error::Archive); }
    if std::io::Write::write_all(&mut w.inner, e.data.as_slice()).is_err() { return Err(Error::Io); }
    Ok(())
}

/// Closes a zip writer and returns the container bytes.
///
/// Relies on zip's `ZipWriter::finish`: the produced container opens, and
/// reading it back yields exactly the written members, with their names,
/// bytes, compression methods, and valid requested timestamps; failure
/// depends on the members alone, since the sink is in-memory.
#[verifier::external_body]
fn zw_finish(w: ArchiveSink) -> (r: Result<Vec<u8>, Error>)
    ensures
        r matches Ok(b) ==> zip_parse(b@) matches Some(s) && persisted_seq(zw_entries(w), s),
        r matches Ok(b) ==> forall|j: int|
            0 <= j < zw_entries(w).len() && zw_entries(w)[j].mtime is Some && dos_datetime_valid(
                zw_entries(w)[j].mtime.unwrap(),
            ) ==> #[trigger] zip_parse(b@).unwrap()[j].mtime == zw_entries(w)[j].mtime,
        r matches Err(e) ==> !zip_finishable(zw_entries(w)) && (e == Error::Archive
            || e == Error::Io),
{
    match w.inner.finish() {
        Ok(c) => Ok(c.into_inner()),
        Err(_) => Err(Error::Archive),
    }
}

/// Writes entries into a fresh zip archive; reading the result back yields
/// exactly these entries.
pub(crate) fn write_archive(entries: &Vec<Entry>) -> (r: Result<Vec<u8>, Error>)
    ensures
        r matches Ok(b) ==> zip_parse(b@) matches Some(s) && persisted_seq(
            entries_view(entries@),
            s,
        ),
        r matches Err(e) ==> (e == Error::Archive || e == Error::Io) && !(zip_writable(
            entries_view(entries@),
        ) && zip_finishable(entries_view(entries@))),
{
    let ghost full = entries_view(entries@);
    let mut w = zw_new();
    let mut i: usize = 0;
    proof {
        assert(zw_entries(w) =~= entries_view(entries@.take(0)));
    }
    while i < entries.len()
        invariant
            i <= entries@.len(),
            full == entries_view(entries@),
            zw_entries(w) == entries_view(entries@.take(i as int)),
        decreases entries@.len() - i,
    {
        proof {
            assert forall|j: int| 0 <= j < i implies #[trigger] entries_view(
                entries@.take(i as int),
            )[j] == full.take(i as int)[j] by {
                assert(entries_view(entries@.take(i as int))[j] == entries@.take(i as int)[j]@);
                assert(full[j] == entries@[j]@);
            }
            assert(entries_view(entries@.take(i as int)) =~= full.take(i as int));
        }
        match zw_add(&mut w, &entries[i]) {
            Ok(_) => {},
            Err(e) => {
                proof {
                    if zip_writable(full) {
                        lemma_writable_at(full, i as int);
                        assert(full[i as int] == entries@[i as int]@);
                        assert(false);
                    }
                }
                return Err(e);
            },
        }
        proof {
            assert(entries_view(entries@.take(i + 1)) =~= entries_view(
                entries@.take(i as int),
            ).push(entries@[i as int]@));
        }
        i = i + 1;
    }
    proof {
        assert(entries@.take(entries@.len() as int) =~= entries@);
    }
    zw_finish(w)
}

/// Whether `nd` occurs in `h` starting at position `i`.
pub open spec fn matches_at(h: Seq<u8>, nd: Seq<u8>, i: int) -> bool {
    h.subrange(i, i + nd.len()) == nd
}

/// Whether `nd` occurs anywhere in `h`.
pub open spec fn contains_seq(h: Seq<u8>, nd: Seq<u8>) -> bool {
    exists|i: int| 0 <= i && i + nd.len() <= h.len() && #[trigger] matches_at(h, nd, i)
}

/// Whether the bytes `nd` occur anywhere in `h`.
pub fn contains_sub(h: &Vec<u8>, nd: &[u8]) -> (b: bool)
    ensures
        b == contains_seq(h@, nd@),
{
    if nd.len() == 0 {
        proof {
            assert(h@.subrange(0, 0) =~= nd@);
            assert(matches_at(h@, nd@, 0));
        }
        return true;
    }
    if nd.len() > h.len() {
        return false;
    }
    let bound = h.len() - nd.len();
    let mut i: usize = 0;
    while i <= bound
        invariant
            nd@.len() <= h@.len(),
            nd@.len() > 0,
            h@.len() <= usize::MAX,
            bound == h@.len() - nd@.len(),
            i <= bound + 1,
            forall|ii: int| 0 <= ii < i ==> !matches_at(h@, nd@, ii),
        decreases bound + 1 - i,
    {
        let piece = vstd::slice::slice_subrange(h.as_slice(), i, i + nd.len());
        if bytes_eq(piece, nd) {
            assert(matches_at(h@, nd@, i as int));
            return true;
        }
        i = i + 1;
    }
    false
}

/// Whether the bytes end with the given suffix.
pub fn ends_with(h: &Vec<u8>, suffix: &[u8]) -> (b: bool)
    ensures
        b == (h@.len() >= suffix@.len() && matches_at(h@, suffix@, h@.len() - suffix@.len())),
{
    if h.len() < suffix.len() {
        return false;
    }
    let piece = vstd::slice::slice_subrange(h.as_slice(), h.len() - suffix.len(), h.len());
    bytes_eq(piece, suffix)
}

/// Whether the bytes start with the given prefix.
pub fn starts_with(h: &Vec<u8>, prefix: &[u8]) -> (b: bool)
    ensures
        b == (h@.len() >= prefix@.len() && matches_at(h@, prefix@, 0)),
{
    if h.len() < prefix.len() {
        return false;
    }
    let piece = vstd::slice::slice_subrange(h.as_slice(), 0, prefix.len());
    bytes_eq(piece, prefix)
}

/// The role an entry plays in the package, derived from its path.
#[derive(Clone, Copy, Debug, PartialEq, Eq, Structural)]
pub enum Role {
    ContentTypes,
    Relationships,
    Media,
    Other,
}

/// Whether the path is the package-wide content-types member.
pub open spec fn is_content_types_name(n: Seq<u8>) -> bool {
    n == "[Content_Types].xml".spec_bytes()
}

/// Whether the path names a relationship member.
pub open spec fn is_rels_name(n: Seq<u8>) -> bool {
    n.len() >= ".xml.rels".spec_bytes().len() && matches_at(
        n,
        ".xml.rels".spec_bytes(),
        n.len() - ".xml.rels".spec_bytes().len(),
    )
}

/// Whether the path lies in a media directory.
pub open spec fn is_media_name(n: Seq<u8>) -> bool {
    contains_seq(n, "/media/".spec_bytes())
}

/// The role of a path: the first matching class wins, so the classes are
/// mutually exclusive.
pub open spec fn role_of(n: Seq<u8>) -> Role {
    if is_content_types_name(n) {
        Role::ContentTypes
    } else if is_rels_name(n) {
        Role::Relationships
    } else if is_media_name(n) {
        Role::Media
    } else {
        Role::Other
    }
}

/// The document-relative form of a path: a leading `word/` or `ppt/`
/// document-root component is stripped.
pub open spec fn strip_spec(n: Seq<u8>) -> Seq<u8> {
    if n.len() >= "word/".spec_bytes().len() && matches_at(n, "word/".spec_bytes(), 0) {
        n.skip("word/".spec_bytes().len() as int)
    } else if n.len() >= "ppt/".spec_bytes().len() && matches_at(n, "ppt/".spec_bytes(), 0) {
        n.skip("ppt/".spec_bytes().len() as int)
    } else {
        n
    }
}

/// Strips the well-known document-root directory component, yielding the
/// relative form relationship targets use.
pub fn strip_document_dir(path: &Vec<u8>) -> (r: Vec<u8>)
    ensures
        r@ == strip_spec(path@),
{
    let word = ("word/").as_bytes();
    let ppt = ("ppt/").as_bytes();
    let from: usize = if starts_with(path, word) {
        word.len()
    } else if starts_with(path, ppt) {
        ppt.len()
    } else {
        0
    };
    let r = vstd::slice::slice_to_vec(
        vstd::slice::slice_subrange(path.as_slice(), from, path.len()),
    );
    proof {
        if from == 0 {
            assert(path@.subrange(0, path@.len() as int) =~= path@);
            assert(r@ =~= strip_spec(path@));
        } else {
            assert(r@ =~= strip_spec(path@));
        }
    }
    r
}

/// The conversion options: encoder quality (`0..=100`, affecting lossy
/// formats) and whether a media entry already in the target format is
/// re-encoded anyway.
#[derive(Clone, Copy, Debug, PartialEq, Eq, Structural)]
pub struct Config {
    pub quality: u8,
    pub reencode_if_already_target_format: bool,
}

impl Default for Config {
    /// Quality 90, and entries already in the target format are left alone.
    fn default() -> (c: Config)
        ensures
            c == (Config { quality: 90u8, reencode_if_already_target_format: false }),
    {
        Config { quality: 90, reencode_if_already_target_format: false }
    }
}

/// Whether a media entry is left untouched: it already carries the target
/// format's signature and re-encoding was not requested.
pub open spec fn skip_media(e: EntryModel, fmt: AcceptedFormat, cfg: Config) -> bool {
    !cfg.reencode_if_already_target_format && is_format_bytes(e.data, fmt)
}

/// The recoded form of a media entry: renamed path, re-encoded bytes, same
/// compression method, and no timestamp (recoded content is new).
pub open spec fn recoded_entry(e: EntryModel, fmt: AcceptedFormat, cfg: Config) -> EntryModel {
    EntryModel {
        name: new_name_spec(e.name, ext_bytes(fmt)),
        data: recode_of(e.data, ext_bytes(fmt), cfg.quality),
        compression: e.compression,
        mtime: None,
    }
}

/// The rename pair a recoded media entry contributes, in document-relative
/// form.
pub open spec fn rename_pair(e: EntryModel, fmt: AcceptedFormat) -> (Seq<u8>, Seq<u8>) {
    (strip_spec(e.name), strip_spec(new_name_spec(e.name, ext_bytes(fmt))))
}

/// The bytes of the content-types member after patching.
pub open spec fn ct_patched_bytes(b: Seq<u8>, fmt: AcceptedFormat) -> Seq<u8> {
    match xml_tokens_of(b) {
        Some(t) => concat_raws(spec_patch_ct(t, fmt, false)),
        None => b,
    }
}

/// Whether patching the content-types member would change nothing.
pub open spec fn ct_no_injection(b: Seq<u8>, fmt: AcceptedFormat) -> bool {
    xml_tokens_of(b) matches Some(t) && !ct_injects(t, fmt)
}

/// The bytes of a relationship member after patching against the renames.
pub open spec fn rels_patched_bytes(b: Seq<u8>, m: Seq<(Seq<u8>, Seq<u8>)>) -> Seq<u8> {
    match xml_tokens_of(b) {
        Some(t) => concat_raws(spec_patch_rels(t, m)),
        None => b,
    }
}

/// Whether an entry makes the whole conversion fail: a content-types or
/// relationship member whose XML is malformed.
pub open spec fn entry_fatal(e: EntryModel) -> bool {
    (role_of(e.name) == Role::ContentTypes || role_of(e.name) == Role::Relationships)
        && xml_tokens_of(e.data) is None
}

/// Whether some entry makes the conversion fail.
pub open spec fn any_fatal(s: Seq<EntryModel>) -> bool {
    exists|i: int| 0 <= i < s.len() && entry_fatal(#[trigger] s[i])
}

/// Whether an entry stays in the first output phase (everything that is not
/// a relationship member).
pub open spec fn not_rels(e: EntryModel) -> bool {
    role_of(e.name) != Role::Relationships
}

/// The non-relationship entries, in order.
pub open spec fn head_entries(s: Seq<EntryModel>) -> Seq<EntryModel>
    decreases s.len(),
{
    if s.len() == 0 {
        Seq::empty()
    } else {
        head_entries(s.drop_last()) + if not_rels(s.last()) {
            seq![s.last()]
        } else {
            Seq::empty()
        }
    }
}

/// The relationship entries, in order.
pub open spec fn rels_entries(s: Seq<EntryModel>) -> Seq<EntryModel>
    decreases s.len(),
{
    if s.len() == 0 {
        Seq::empty()
    } else {
        rels_entries(s.drop_last()) + if !not_rels(s.last()) {
            seq![s.last()]
        } else {
            Seq::empty()
        }
    }
}

/// The raw bytes of every media entry (any entry whose path crosses a media
/// directory), in archive order.
pub open spec fn media_datas(s: Seq<EntryModel>) -> Seq<Seq<u8>>
    decreases s.len(),
{
    if s.len() == 0 {
        Seq::empty()
    } else {
        media_datas(s.drop_last()) + if is_media_name(s.last().name) {
            seq![s.last().data]
        } else {
            Seq::empty()
        }
    }
}

/// The views of a vector of byte buffers.
pub open spec fn datas_view(s: Seq<Vec<u8>>) -> Seq<Seq<u8>> {
    s.map_values(|d: Vec<u8>| d@)
}

/// How one first-phase output entry relates to its input entry.
pub open spec fn head_corr(
    a: EntryModel,
    b: EntryModel,
    fmt: AcceptedFormat,
    cfg: Config,
    rn: Seq<(Seq<u8>, Seq<u8>)>,
) -> bool {
    match role_of(a.name) {
        Role::ContentTypes => xml_tokens_of(a.data) is Some && b == (EntryModel {
            name: a.name,
            data: ct_patched_bytes(a.data, fmt),
            compression: a.compression,
            mtime: a.mtime,
        }) && (ct_no_injection(a.data, fmt) ==> b == a),
        Role::Media => if skip_media(a, fmt, cfg) {
            b == a
        } else if recode_ok(a.data, ext_bytes(fmt), cfg.quality) {
            b == recoded_entry(a, fmt, cfg) && rn.contains(rename_pair(a, fmt))
        } else {
            b == a
        },
        Role::Other => b == a,
        Role::Relationships => false,
    }
}

/// How one second-phase output entry relates to its (relationship) input
/// entry.
pub open spec fn tail_corr(a: EntryModel, b: EntryModel, rn: Seq<(Seq<u8>, Seq<u8>)>) -> bool {
    xml_tokens_of(a.data) is Some && b == (EntryModel {
        name: a.name,
        data: rels_patched_bytes(a.data, rn),
        compression: a.compression,
        mtime: a.mtime,
    })
}

/// Whether the conversion has no media work to do: re-encoding is not forced
/// and every media entry already carries the target format's signature.
pub open spec fn no_media_work(ins: Seq<EntryModel>, fmt: AcceptedFormat, cfg: Config) -> bool {
    !cfg.reencode_if_already_target_format && forall|k: int|
        0 <= k < ins.len() && role_of(#[trigger] ins[k].name) == Role::Media ==> is_format_bytes(
            ins[k].data,
            fmt,
        )
}

/// The full relation between a package and its converted form: the output is
/// the non-relationship entries in order, each copied, patched, or recoded
/// as its role and the codec's verdict demand (copies keep bytes,
/// compression method and timestamp; recoded media drop the timestamp),
/// followed by the patched relationship entries in order; every rename pair
/// comes from a recoded media entry; a package with no media work produces
/// no renames and keeps every non-content-types entry byte-identical; and
/// with no renames the relationship entries pass through byte-identically.
pub open spec fn converted(
    ins: Seq<EntryModel>,
    outs: Seq<EntryModel>,
    rn: Seq<(Seq<u8>, Seq<u8>)>,
    fmt: AcceptedFormat,
    cfg: Config,
) -> bool {
    let hd = head_entries(ins);
    let tl = rels_entries(ins);
    &&& !any_fatal(ins)
    &&& outs.len() == hd.len() + tl.len()
    &&& outs.len() == ins.len()
    &&& forall|j: int| 0 <= j < hd.len() ==> head_corr(hd[j], #[trigger] outs[j], fmt, cfg, rn)
    &&& forall|j: int| 0 <= j < tl.len() ==> tail_corr(tl[j], #[trigger] outs[hd.len() + j], rn)
    &&& forall|p: (Seq<u8>, Seq<u8>)|
        rn.contains(p) ==> exists|j: int|
            0 <= j < hd.len() && role_of(#[trigger] hd[j].name) == Role::Media && !skip_media(
                hd[j],
                fmt,
                cfg,
            ) && p == rename_pair(hd[j], fmt) && outs[j] == recoded_entry(hd[j], fmt, cfg)
    &&& (no_media_work(ins, fmt, cfg) ==> rn.len() == 0 && forall|j: int|
        0 <= j < hd.len() && role_of(#[trigger] hd[j].name) != Role::ContentTypes ==> outs[j]
            == hd[j])
    &&& (rn.len() == 0 ==> forall|j: int| 0 <= j < tl.len() ==> #[trigger] outs[hd.len() + j] == tl[j])
}

/// The two phases partition the package.
proof fn lemma_partition_len(s: Seq<EntryModel>)
    ensures
        head_entries(s).len() + rels_entries(s).len() == s.len(),
    decreases s.len(),
{
    if s.len() > 0 {
        lemma_partition_len(s.drop_last());
    }
}

/// Every relationship entry of `s` appears in `rels_entries(s)`, and every
/// element of `rels_entries(s)` is a relationship entry of `s`.
proof fn lemma_rels_member(s: Seq<EntryModel>, k: int)
    requires
        0 <= k < rels_entries(s).len(),
    ensures
        !not_rels(rels_entries(s)[k]),
        exists|idx: int| 0 <= idx < s.len() && s[idx] == rels_entries(s)[k],
    decreases s.len(),
{
    let r = rels_entries(s);
    let rp = rels_entries(s.drop_last());
    if k < rp.len() {
        lemma_rels_member(s.drop_last(), k);
        let idx = choose|idx: int|
            0 <= idx < s.drop_last().len() && s.drop_last()[idx] == rels_entries(s.drop_last())[k];
        assert(s[idx] == r[k]);
    } else {
        assert(r[k] == s.last());
        assert(s[s.len() - 1] == r[k]);
    }
}

/// An element of `head_entries(s)` is an element of `s`.
proof fn lemma_head_member(s: Seq<EntryModel>, k: int)
    requires
        0 <= k < head_entries(s).len(),
    ensures
        not_rels(head_entries(s)[k]),
        exists|idx: int| 0 <= idx < s.len() && s[idx] == head_entries(s)[k],
    decreases s.len(),
{
    let r = head_entries(s);
    let rp = head_entries(s.drop_last());
    if k < rp.len() {
        lemma_head_member(s.drop_last(), k);
        let idx = choose|idx: int|
            0 <= idx < s.drop_last().len() && s.drop_last()[idx] == head_entries(s.drop_last())[k];
        assert(s[idx] == r[k]);
    } else {
        assert(r[k] == s.last());
        assert(s[s.len() - 1] == r[k]);
    }
}

/// A non-relationship entry of `s` appears in `head_entries(s)`, and a
/// relationship entry appears in `rels_entries(s)`.
proof fn lemma_entry_classified(s: Seq<EntryModel>, idx: int)
    requires
        0 <= idx < s.len(),
    ensures
        not_rels(s[idx]) ==> exists|k: int|
            0 <= k < head_entries(s).len() && #[trigger] head_entries(s)[k] == s[idx],
        !not_rels(s[idx]) ==> exists|k: int|
            0 <= k < rels_entries(s).len() && #[trigger] rels_entries(s)[k] == s[idx],
    decreases s.len(),
{
    if idx == s.len() - 1 {
        if not_rels(s[idx]) {
            let h = head_entries(s);
            assert(h[h.len() - 1] == s.last());
        } else {
            let r = rels_entries(s);
            assert(r[r.len() - 1] == s.last());
        }
    } else {
        lemma_entry_classified(s.drop_last(), idx);
        assert(s.drop_last()[idx] == s[idx]);
        if not_rels(s[idx]) {
            let k = choose|k: int|
                0 <= k < head_entries(s.drop_last()).len() && #[trigger] head_entries(
                    s.drop_last(),
                )[k] == s.drop_last()[idx];
            assert(head_entries(s)[k] == s[idx]);
        } else {
            let k = choose|k: int|
                0 <= k < rels_entries(s.drop_last()).len() && #[trigger] rels_entries(
                    s.drop_last(),
                )[k] == s.drop_last()[idx];
            assert(rels_entries(s)[k] == s[idx]);
        }
    }
}

/// Copies an entry.
fn copy_entry(e: &Entry) -> (r: Entry)
    ensures
        r@ == e@,
        r.mtime == e.mtime,
{
    Entry {
        name: vstd::slice::slice_to_vec(e.name.as_slice()),
        data: vstd::slice::slice_to_vec(e.data.as_slice()),
        compression: e.compression,
        mtime: e.mtime,
    }
}

/// Converts a package entry by entry: the single pass over the input,
/// followed by the deferred relationship patching. Returns the output
/// entries and the rename pairs that were produced. Fails, with a markup
/// error, exactly when a content-types or relationship member holds
/// malformed XML; whether a media entry is recoded or copied verbatim is
/// decided by the codec, as the named success predicate on its bytes.
pub fn transform_package(entries: &Vec<Entry>, format: AcceptedFormat, config: Config) -> (r:
    Result<(Vec<Entry>, Vec<(Vec<u8>, Vec<u8>)>), Error>)
    requires
        config.quality <= 100,
    ensures
        r matches Ok(p) ==> converted(
            entries_view(entries@),
            entries_view(p.0@),
            attrs_view(p.1@),
            format,
            config,
        ),
        r matches Err(e) ==> e == Error::Markup && any_fatal(entries_view(entries@)),
{
    let ghost ins = entries_view(entries@);
    let mut out: Vec<Entry> = Vec::new();
    let mut rels_buf: Vec<Entry> = Vec::new();
    let mut renames: Vec<(Vec<u8>, Vec<u8>)> = Vec::new();
    let mut i: usize = 0;
    proof {
        assert(ins.take(0) =~= Seq::<EntryModel>::empty());
        assert(entries_view(rels_buf@) =~= rels_entries(ins.take(0)));
    }
    while i < entries.len()
        invariant
            i <= entries@.len(),
            ins == entries_view(entries@),
            config.quality <= 100,
            out@.len() == head_entries(ins.take(i as int)).len(),
            entries_view(rels_buf@) == rels_entries(ins.take(i as int)),
            forall|j: int|
                0 <= j < out@.len() ==> head_corr(
                    head_entries(ins.take(i as int))[j],
                    #[trigger] entries_view(out@)[j],
                    format,
                    config,
                    attrs_view(renames@),
                ),
            forall|p: (Seq<u8>, Seq<u8>)|
                attrs_view(renames@).contains(p) ==> exists|j: int|
                    0 <= j < out@.len() && role_of(
                        #[trigger] head_entries(ins.take(i as int))[j].name,
                    ) == Role::Media && !skip_media(head_entries(ins.take(i as int))[j], format, config)
                        && p == rename_pair(head_entries(ins.take(i as int))[j], format)
                        && entries_view(out@)[j] == recoded_entry(
                        head_entries(ins.take(i as int))[j],
                        format,
                        config,
                    ),
            no_media_work(ins, format, config) ==> renames@.len() == 0 && forall|j: int|
                0 <= j < out@.len() && role_of(#[trigger] head_entries(ins.take(i as int))[j].name)
                    != Role::ContentTypes ==> entries_view(out@)[j] == head_entries(
                    ins.take(i as int),
                )[j],
            forall|j: int|
                0 <= j < i ==> !(entry_fatal(#[trigger] ins[j]) && not_rels(ins[j])),
        decreases entries@.len() - i,
    {
        let e = &entries[i];
        let ghost prefix = ins.take(i as int);
        let ghost prefix2 = ins.take(i + 1);
        let ghost rn_old = attrs_view(renames@);
        let ghost out_old = out@;
        proof {
            assert(prefix2.drop_last() =~= prefix);
            assert(prefix2.last() == ins[i as int]);
            assert(ins[i as int] == entries@[i as int]@);
        }
        if bytes_eq(e.name.as_slice(), ("[Content_Types].xml").as_bytes()) {
            let patched = match patch_content_types(&e.data, format) {
                Ok(p) => p,
                Err(err) => {
                    proof {
                        assert(role_of(ins[i as int].name) == Role::ContentTypes);
                        assert(entry_fatal(ins[i as int]));
                    }
                    return Err(err);
                },
            };
            let ne = Entry {
                name: vstd::slice::slice_to_vec(e.name.as_slice()),
                data: patched,
                compression: e.compression,
                mtime: e.mtime,
            };
            out.push(ne);
            proof {
                assert(head_entries(prefix2) =~= head_entries(prefix) + seq![ins[i as int]]);
                assert(entries_view(out@)[out@.len() - 1] == out@[out@.len() - 1]@);
                assert(head_corr(
                    ins[i as int],
                    out@[out@.len() - 1]@,
                    format,
                    config,
                    attrs_view(renames@),
                ));
            }
        } else if ends_with(&e.name, (".xml.rels").as_bytes()) {
            rels_buf.push(copy_entry(e));
            proof {
                assert(role_of(ins[i as int].name) == Role::Relationships);
                assert(head_entries(prefix2) =~= head_entries(prefix));
                assert(rels_entries(prefix2) =~= rels_entries(prefix) + seq![ins[i as int]]);
                assert(entries_view(rels_buf@) =~= rels_entries(prefix2));
            }
        } else if contains_sub(&e.name, ("/media/").as_bytes()) {
            proof {
                assert(role_of(ins[i as int].name) == Role::Media);
                assert(head_entries(prefix2) =~= head_entries(prefix) + seq![ins[i as int]]);
            }
            let skip = !config.reencode_if_already_target_format && has_format(&e.data, format);
            if skip {
                out.push(copy_entry(e));
                proof {
                    assert(entries_view(out@)[out@.len() - 1] == out@[out@.len() - 1]@);
                }
            } else {
                match convert_image(&e.data, format, config.quality) {
                    Ok(new_data) => {
                        let new_name = new_img_name(&e.name, format);
                        let old_rel = strip_document_dir(&e.name);
                        let new_rel = strip_document_dir(&new_name);
                        let ne = Entry {
                            name: new_name,
                            data: new_data,
                            compression: e.compression,
                            mtime: None,
                        };
                        out.push(ne);
                        renames.push((old_rel, new_rel));
                        proof {
                            assert(no_media_work(ins, format, config) ==> is_format_bytes(
                                ins[i as int].data,
                                format,
                            ));
                            assert(!no_media_work(ins, format, config));
                            assert(attrs_view(renames@) =~= rn_old.push(
                                rename_pair(ins[i as int], format),
                            ));
                            assert(entries_view(out@)[out@.len() - 1] == out@[out@.len() - 1]@);
                            assert(entries_view(out@)[out@.len() - 1] == recoded_entry(
                                ins[i as int],
                                format,
                                config,
                            ));
                            assert(attrs_view(renames@).contains(rename_pair(ins[i as int], format)))
                                by {
                                assert(attrs_view(renames@)[rn_old.len() as int] == rename_pair(
                                    ins[i as int],
                                    format,
                                ));
                            }
                        }
                    },
                    Err(_) => {
                        out.push(copy_entry(e));
                        proof {
                            assert(entries_view(out@)[out@.len() - 1] == out@[out@.len() - 1]@);
                        }
                    },
                }
            }
        } else {
            proof {
                assert(role_of(ins[i as int].name) == Role::Other);
                assert(head_entries(prefix2) =~= head_entries(prefix) + seq![ins[i as int]]);
            }
            out.push(copy_entry(e));
            proof {
                assert(entries_view(out@)[out@.len() - 1] == out@[out@.len() - 1]@);
            }
        }
        proof {
            let rn_new = attrs_view(renames@);
            assert forall|j: int| 0 <= j < out@.len() implies head_corr(
                head_entries(prefix2)[j],
                #[trigger] entries_view(out@)[j],
                format,
                config,
                rn_new,
            ) by {
                if j < out_old.len() {
                    assert(entries_view(out@)[j] == out@[j]@);
                    assert(out@[j] == out_old[j]);
                    assert(entries_view(out_old)[j] == out_old[j]@);
                    assert(head_entries(prefix2)[j] == head_entries(prefix)[j]);
                    if rn_new != rn_old {
                        let a = head_entries(prefix)[j];
                        if role_of(a.name) == Role::Media && !skip_media(a, format, config)
                            && recode_ok(a.data, ext_bytes(format), config.quality) {
                            let p = rename_pair(a, format);
                            assert(rn_old.contains(p));
                            let idx = choose|idx: int|
                                0 <= idx < rn_old.len() && rn_old[idx] == p;
                            assert(rn_new[idx] == p);
                            assert(rn_new.contains(p));
                        }
                    }
                }
            }
            assert forall|p: (Seq<u8>, Seq<u8>)| rn_new.contains(p) implies exists|j: int|
                0 <= j < out@.len() && role_of(#[trigger] head_entries(prefix2)[j].name)
                    == Role::Media && !skip_media(head_entries(prefix2)[j], format, config) && p
                == rename_pair(head_entries(prefix2)[j], format) && entries_view(out@)[j]
                == recoded_entry(head_entries(prefix2)[j], format, config) by {
                if rn_old.contains(p) {
                    let j = choose|j: int|
                        0 <= j < out_old.len() && role_of(
                            #[trigger] head_entries(prefix)[j].name,
                        ) == Role::Media && !skip_media(head_entries(prefix)[j], format, config)
                            && p == rename_pair(head_entries(prefix)[j], format) && entries_view(
                            out_old,
                        )[j] == recoded_entry(head_entries(prefix)[j], format, config);
                    assert(head_entries(prefix2)[j] == head_entries(prefix)[j]);
                    assert(out@[j] == out_old[j]);
                    assert(entries_view(out@)[j] == out@[j]@);
                    assert(entries_view(out_old)[j] == out_old[j]@);
                } else {
                    if rn_new != rn_old {
                        let idx = choose|idx: int| 0 <= idx < rn_new.len() && rn_new[idx] == p;
                        assert(idx == rn_old.len());
                        assert(p == rename_pair(ins[i as int], format));
                        assert(head_entries(prefix2)[out@.len() - 1] == ins[i as int]);
                    }
                }
            }
        }
        i = i + 1;
    }
    proof {
        assert(ins.take(ins.len() as int) =~= ins);
    }
    let ghost hd = head_entries(ins);
    let ghost tl = rels_entries(ins);
    let ghost rn = attrs_view(renames@);
    let mut k: usize = 0;
    while k < rels_buf.len()
        invariant
            k <= rels_buf@.len(),
            ins == entries_view(entries@),
            hd == head_entries(ins),
            tl == rels_entries(ins),
            rn == attrs_view(renames@),
            entries_view(rels_buf@) == tl,
            out@.len() == hd.len() + k,
            forall|j: int|
                0 <= j < hd.len() ==> head_corr(
                    hd[j],
                    #[trigger] entries_view(out@)[j],
                    format,
                    config,
                    rn,
                ),
            forall|j: int|
                0 <= j < k ==> tail_corr(tl[j], #[trigger] entries_view(out@)[hd.len() + j], rn),
            rn.len() == 0 ==> forall|j: int|
                0 <= j < k ==> #[trigger] entries_view(out@)[hd.len() + j] == tl[j],
            forall|p: (Seq<u8>, Seq<u8>)|
                rn.contains(p) ==> exists|j: int|
                    0 <= j < hd.len() && role_of(#[trigger] hd[j].name) == Role::Media
                        && !skip_media(hd[j], format, config) && p == rename_pair(hd[j], format)
                        && entries_view(out@)[j] == recoded_entry(hd[j], format, config),
            no_media_work(ins, format, config) ==> rn.len() == 0 && forall|j: int|
                0 <= j < hd.len() && role_of(#[trigger] hd[j].name) != Role::ContentTypes
                    ==> entries_view(out@)[j] == hd[j],
            forall|j: int| 0 <= j < ins.len() ==> !entry_fatal(#[trigger] ins[j]) || !not_rels(
                ins[j],
            ),
        decreases rels_buf@.len() - k,
    {
        let ghost out_old = out@;
        let e = &rels_buf[k];
        proof {
            assert(entries_view(rels_buf@)[k as int] == rels_buf@[k as int]@);
        }
        let patched = match replace_rels(&e.data, &renames) {
            Ok(p) => p,
            Err(err) => {
                proof {
                    lemma_rels_member(ins, k as int);
                    let idx = choose|idx: int| 0 <= idx < ins.len() && ins[idx] == tl[k as int];
                    assert(entry_fatal(ins[idx]));
                }
                return Err(err);
            },
        };
        let ne = Entry {
            name: vstd::slice::slice_to_vec(e.name.as_slice()),
            data: patched,
            compression: e.compression,
            mtime: e.mtime,
        };
        out.push(ne);
        proof {
            assert forall|j: int| 0 <= j < out@.len() implies #[trigger] entries_view(out@)[j]
                == (if j < out_old.len() {
                entries_view(out_old)[j]
            } else {
                out@[j]@
            }) by {
                assert(entries_view(out@)[j] == out@[j]@);
                if j < out_old.len() {
                    assert(out@[j] == out_old[j]);
                    assert(entries_view(out_old)[j] == out_old[j]@);
                }
            }
            assert(tail_corr(tl[k as int], entries_view(out@)[hd.len() + k], rn));
        }
        k = k + 1;
    }
    proof {
        lemma_partition_len(ins);
        assert forall|idx: int| 0 <= idx < ins.len() implies !entry_fatal(#[trigger] ins[idx]) by {
            lemma_entry_classified(ins, idx);
            if !not_rels(ins[idx]) {
                let kk = choose|kk: int|
                    0 <= kk < rels_entries(ins).len() && #[trigger] rels_entries(ins)[kk]
                        == ins[idx];
                assert(tail_corr(tl[kk], entries_view(out@)[hd.len() + kk], rn));
            } else {
                if role_of(ins[idx].name) == Role::ContentTypes {
                    let kk = choose|kk: int|
                        0 <= kk < head_entries(ins).len() && #[trigger] head_entries(ins)[kk]
                            == ins[idx];
                    assert(head_corr(hd[kk], entries_view(out@)[kk], format, config, rn));
                }
            }
        }
    }
    Ok((out, renames))
}

} // verus!
