//! Archives: how one is recognised, what is unpacked from it, and what the user is told about it
//! before anything is installed.
use crate::resolver;
use crate::resolver::{Layout, MappedFile, MappedView};
use crate::text;
use vstd::prelude::*;

verus! {

/// The first bytes of a 7z archive.
pub open spec fn seven_zip_magic() -> Seq<u8> {
    seq![0x37u8, 0x7A, 0xBC, 0xAF, 0x27, 0x1C]
}

/// The first bytes of a zip archive that holds something.
pub open spec fn zip_magic() -> Seq<u8> {
    seq![0x50u8, 0x4B, 0x03, 0x04]
}

/// The first bytes of an empty zip archive.
pub open spec fn empty_zip_magic() -> Seq<u8> {
    seq![0x50u8, 0x4B, 0x05, 0x06]
}

/// The first bytes of a rar archive.
pub open spec fn rar_magic() -> Seq<u8> {
    seq![0x52u8, 0x61, 0x72, 0x21]
}

/// The format of an archive, by its first bytes.
pub open spec fn format_of(bytes: Seq<u8>) -> Seq<char> {
    if seven_zip_magic().is_prefix_of(bytes) {
        "7z"@
    } else if zip_magic().is_prefix_of(bytes) || empty_zip_magic().is_prefix_of(bytes) {
        "zip"@
    } else if rar_magic().is_prefix_of(bytes) {
        "rar"@
    } else {
        "unknown"@
    }
}

fn begins_with(bytes: &[u8], magic: &[u8]) -> (r: bool)
    ensures
        r == magic@.is_prefix_of(bytes@),
{
    if bytes.len() < magic.len() {
        return false;
    }
    for i in 0..magic.len()
        invariant
            magic@.len() <= bytes@.len(),
            forall|j: int| 0 <= j < i ==> bytes@[j] == magic@[j],
    {
        if bytes[i] != magic[i] {
            assert(bytes@.subrange(0, magic@.len() as int)[i as int] != magic@[i as int]);
            return false;
        }
    }
    assert(magic@ =~= bytes@.subrange(0, magic@.len() as int));
    true
}

pub fn detect_format(bytes: &[u8]) -> (r: &'static str)
    ensures
        r@ == format_of(bytes@),
{
    let seven_zip: [u8; 6] = [0x37, 0x7A, 0xBC, 0xAF, 0x27, 0x1C];
    let zip: [u8; 4] = [0x50, 0x4B, 0x03, 0x04];
    let empty_zip: [u8; 4] = [0x50, 0x4B, 0x05, 0x06];
    let rar: [u8; 4] = [0x52, 0x61, 0x72, 0x21];
    assert(seven_zip@ =~= seven_zip_magic());
    assert(zip@ =~= zip_magic());
    assert(empty_zip@ =~= empty_zip_magic());
    assert(rar@ =~= rar_magic());
    if begins_with(bytes, seven_zip.as_slice()) {
        "7z"
    } else if begins_with(bytes, zip.as_slice()) {
        "zip"
    } else if begins_with(bytes, empty_zip.as_slice()) {
        "zip"
    } else if begins_with(bytes, rar.as_slice()) {
        "rar"
    } else {
        "unknown"
    }
}

/// The decoder that an archive is unpacked with.
#[derive(Clone, Copy, PartialEq, Eq, Structural)]
pub enum Decoder {
    Zip,
    SevenZip,
    Rar,
}

pub open spec fn decoder_of(format: Seq<char>) -> Option<Decoder> {
    if format == "zip"@ {
        Some(Decoder::Zip)
    } else if format == "7z"@ {
        Some(Decoder::SevenZip)
    } else if format == "rar"@ {
        Some(Decoder::Rar)
    } else {
        None
    }
}

/// `r` is the decoder for an archive that starts with these bytes, or says that there is none.
pub open spec fn decodes(r: Result<Decoder, String>, header: Seq<u8>) -> bool {
    match r {
        Ok(d) => decoder_of(format_of(header)) == Some(d),
        Err(e) => decoder_of(format_of(header)) is None && e@
            == "Unrecognized archive format (expected .zip or .7z)."@,
    }
}

/// The decoder for an archive that starts with the given bytes, or the message that says that
/// there is none.
pub fn choose_decoder(header: &[u8]) -> (r: Result<Decoder, String>)
    ensures
        decodes(r, header@),
{
    let format = detect_format(header);
    if text::same(format, "zip") {
        Ok(Decoder::Zip)
    } else if text::same(format, "7z") {
        Ok(Decoder::SevenZip)
    } else if text::same(format, "rar") {
        Ok(Decoder::Rar)
    } else {
        Err(text::owned("Unrecognized archive format (expected .zip or .7z)."))
    }
}

/// The file that an archive in memory is written to first, for the decoders that read files only.
pub fn spool_name(d: Decoder) -> (r: Option<&'static str>)
    ensures
        match d {
            Decoder::Zip => r is None,
            Decoder::SevenZip => r matches Some(n) && n@ == "__src.7z"@,
            Decoder::Rar => r matches Some(n) && n@ == "__src.rar"@,
        },
{
    match d {
        Decoder::Zip => None,
        Decoder::SevenZip => Some("__src.7z"),
        Decoder::Rar => Some("__src.rar"),
    }
}

/// The first six bytes of a file, filled up with zeros.
pub open spec fn header_of(bytes: Seq<u8>) -> Seq<u8> {
    Seq::new(
        6,
        |i: int|
            if i < bytes.len() {
                bytes[i]
            } else {
                0
            },
    )
}

proof fn lemma_header_prefix(bytes: Seq<u8>, magic: Seq<u8>)
    requires
        0 < magic.len() <= 6,
        forall|i: int| 0 <= i < magic.len() ==> #[trigger] magic[i] != 0,
    ensures
        magic.is_prefix_of(header_of(bytes)) == magic.is_prefix_of(bytes),
{
    let h = header_of(bytes);
    if magic.is_prefix_of(h) {
        assert forall|i: int| 0 <= i < magic.len() implies i < bytes.len() && #[trigger] magic[i]
            == bytes[i] by {
            assert(magic[i] == h.subrange(0, magic.len() as int)[i]);
        }
        assert(magic[magic.len() - 1] == bytes[magic.len() - 1]);
        assert(magic =~= bytes.subrange(0, magic.len() as int));
    }
    if magic.is_prefix_of(bytes) {
        assert forall|i: int| 0 <= i < magic.len() implies #[trigger] magic[i] == h[i] by {
            assert(magic[i] == bytes.subrange(0, magic.len() as int)[i]);
        }
        assert(magic =~= h.subrange(0, magic.len() as int));
    }
}

/// The first six bytes decide: an archive on disk, of which only these are read, is taken for the
/// same format as the whole archive in memory.
pub proof fn law_header_decides_format(bytes: Seq<u8>)
    ensures
        format_of(header_of(bytes)) == format_of(bytes),
{
    lemma_header_prefix(bytes, seven_zip_magic());
    lemma_header_prefix(bytes, zip_magic());
    lemma_header_prefix(bytes, empty_zip_magic());
    lemma_header_prefix(bytes, rar_magic());
}

/// The path of an archive entry may be unpacked: nowhere in it stand two dots.
pub open spec fn entry_allowed(name: Seq<char>) -> bool {
    !text::occurs(text::slashed(name), ".."@)
}

/// The path that an archive entry is unpacked to, relative to the extraction folder; nothing
/// where the entry is left out.
pub fn entry_path(name: &str) -> (r: Option<String>)
    ensures
        match r {
            Some(p) => entry_allowed(name@) && p@ == text::slashed(name@),
            None => !entry_allowed(name@),
        },
{
    let norm = text::slashes(name);
    if text::contains(norm.as_str(), "..") {
        None
    } else {
        Some(norm)
    }
}

/// What becomes of an entry of a zip archive.
#[derive(Clone, Copy, PartialEq, Eq, Structural)]
pub enum Unpack {
    Skip,
    Folder,
    File,
}

/// What becomes of an entry of a zip archive.
pub open spec fn unpacking(name: Seq<char>, is_dir: bool, inside: bool) -> Unpack {
    if !entry_allowed(name) || !inside {
        Unpack::Skip
    } else if is_dir {
        Unpack::Folder
    } else {
        Unpack::File
    }
}

/// What becomes of an entry of a zip archive, where `inside` tells whether its path, joined to
/// the extraction folder, stays in that folder.
pub fn unpack_zip_entry(name: &str, is_dir: bool, inside: bool) -> (r: Unpack)
    ensures
        r == unpacking(name@, is_dir, inside),
{
    if entry_path(name).is_none() || !inside {
        Unpack::Skip
    } else if is_dir {
        Unpack::Folder
    } else {
        Unpack::File
    }
}

/// An entry of a rar archive is unpacked.
pub open spec fn rar_unpacked(name: Seq<char>, is_file: bool) -> bool {
    is_file && entry_allowed(name)
}

/// Whether an entry of a rar archive is unpacked.
pub fn unpack_rar_entry(name: &str, is_file: bool) -> (r: bool)
    ensures
        r == rar_unpacked(name@, is_file),
{
    is_file && entry_path(name).is_some()
}

/// What an archive holds, as the user is shown before installing it.
pub struct ZipReport {
    pub mod_name: String,
    /// "client" | "server" | "mixed" | "unknown"
    pub classification: String,
    /// "anchored" | "bare-server" | "bare-client" | "empty"
    pub mode: String,
    /// True when targets were guessed from a non-standard layout (verify these!).
    pub heuristic: bool,
    pub client: Vec<MappedFile>,
    pub server: Vec<MappedFile>,
    pub unrecognized: Vec<String>,
    pub total_files: usize,
}

/// The mapped files of one category, in order.
pub open spec fn of_category(ms: Seq<MappedView>, category: Seq<char>) -> Seq<MappedView> {
    ms.filter(|m: MappedView| m.category == category)
}

fn pick_category(mapped: &[MappedFile], category: &str) -> (r: Vec<MappedFile>)
    ensures
        resolver::mapped_views(r@) == of_category(resolver::mapped_views(mapped@), category@),
{
    let ghost ms = resolver::mapped_views(mapped@);
    let ghost keep = |m: MappedView| m.category == category@;
    let mut r: Vec<MappedFile> = Vec::new();
    proof {
        text::lemma_filter_none(ms, keep);
        assert(resolver::mapped_views(r@) =~= Seq::empty());
    }
    for i in 0..mapped.len()
        invariant
            ms == resolver::mapped_views(mapped@),
            keep == (|m: MappedView| m.category == category@),
            resolver::mapped_views(r@) == ms.take(i as int).filter(keep),
    {
        let ghost before = resolver::mapped_views(r@);
        proof {
            text::lemma_filter_next(ms, keep, i as int);
        }
        if text::same(mapped[i].category.as_str(), category) {
            let m = mapped[i].clone();
            r.push(m);
            assert(resolver::mapped_views(r@) =~= before.push(ms[i as int]));
        }
    }
    assert(ms.take(ms.len() as int) =~= ms);
    r
}

/// The places of files in an archive of this layout are guessed.
pub open spec fn is_guess(l: Layout) -> bool {
    l != Layout::Anchored && l != Layout::Empty
}

/// How a layout is called in a report: standalone executables are client files at guessed places.
pub open spec fn shown_mode(l: Layout) -> Seq<char> {
    if l == Layout::BareRoot {
        "bare-client"@
    } else {
        resolver::mode_name(l)
    }
}

fn mode_shown(mode: &str) -> (r: String)
    ensures
        forall|l: Layout| mode@ == #[trigger] resolver::mode_name(l) ==> r@ == shown_mode(l),
{
    proof {
        lemma_mode_names();
    }
    if text::same(mode, "bare-root") {
        text::owned("bare-client")
    } else {
        text::owned(mode)
    }
}

/// The name of the layout of standalone executables is that of no other layout.
proof fn lemma_mode_names()
    ensures
        "anchored"@ != "bare-root"@,
        "bare-server"@ != "bare-root"@,
        "bare-client"@ != "bare-root"@,
        "empty"@ != "bare-root"@,
{
    reveal_strlit("anchored");
    reveal_strlit("bare-server");
    reveal_strlit("bare-client");
    reveal_strlit("bare-root");
    reveal_strlit("empty");
    assert("bare-root"@.len() == 9 && "anchored"@.len() == 8 && "bare-server"@.len() == 11
        && "bare-client"@.len() == 11 && "empty"@.len() == 5);
}

/// The report says what the resolver decides about files with these names.
pub open spec fn reports(r: ZipReport, names: Seq<Seq<char>>, mod_name: Seq<char>) -> bool {
    let files = resolver::files_of(names);
    let l = resolver::layout_of(files);
    let mapped = resolver::placed(l, mod_name, files);
    &&& r.mod_name@ == mod_name
    &&& r.classification@ == resolver::classification(mapped)
    &&& r.mode@ == shown_mode(l)
    &&& r.heuristic == is_guess(l)
    &&& resolver::mapped_views(r.client@) == of_category(mapped, "client"@)
    &&& resolver::mapped_views(r.server@) == of_category(mapped, "server"@)
    &&& text::texts(r.unrecognized@) == resolver::unplaced(l, mod_name, files)
    &&& r.total_files == names.len()
}

/// The names of the guessed layouts, and no others, start with "bare".
proof fn lemma_bare_modes()
    ensures
        forall|l: Layout| "bare"@.is_prefix_of(#[trigger] resolver::mode_name(l)) == is_guess(l),
        forall|l: Layout| "bare"@.is_prefix_of(#[trigger] shown_mode(l)) == is_guess(l),
{
    reveal_strlit("anchored");
    reveal_strlit("bare-server");
    reveal_strlit("bare-client");
    reveal_strlit("bare-root");
    reveal_strlit("empty");
    reveal_strlit("bare");
    assert("anchored"@[0] == 'a' && "empty"@[0] == 'e' && "bare"@[0] == 'b');
    assert("bare-server"@.subrange(0, 4) =~= "bare"@);
    assert("bare-client"@.subrange(0, 4) =~= "bare"@);
    assert("bare-root"@.subrange(0, 4) =~= "bare"@);
    assert("bare"@.is_prefix_of("bare-server"@));
    assert("bare"@.is_prefix_of("bare-client"@));
    assert("bare"@.is_prefix_of("bare-root"@));
    assert(!"bare"@.is_prefix_of("anchored"@)) by {
        if "bare"@.is_prefix_of("anchored"@) {
            assert("anchored"@.subrange(0, 4)[0] == 'a');
        }
    }
    assert(!"bare"@.is_prefix_of("empty"@)) by {
        if "bare"@.is_prefix_of("empty"@) {
            assert("empty"@.subrange(0, 4)[0] == 'e');
        }
    }
}

/// The mode of a report is one of four, and the report is marked as guessed exactly where its mode
/// starts with "bare".
pub proof fn law_report_modes(r: ZipReport, names: Seq<Seq<char>>, mod_name: Seq<char>)
    requires
        reports(r, names, mod_name),
    ensures
        r.mode@ == "anchored"@ || r.mode@ == "bare-server"@ || r.mode@ == "bare-client"@ || r.mode@
            == "empty"@,
        r.heuristic == "bare"@.is_prefix_of(r.mode@),
{
    lemma_bare_modes();
}

/// The report on an unpacked archive with these files.
pub fn report_from_extracted(names: &[String], mod_name: &str) -> (r: ZipReport)
    ensures
        reports(r, text::texts(names@), mod_name@),
{
    let res = resolver::resolve_all(names, mod_name);
    let classification = resolver::classify(res.mapped.as_slice());
    let client = pick_category(res.mapped.as_slice(), "client");
    let server = pick_category(res.mapped.as_slice(), "server");
    proof {
        lemma_bare_modes();
    }
    ZipReport {
        mod_name: text::owned(mod_name),
        classification,
        heuristic: text::starts_with(res.mode, "bare"),
        mode: mode_shown(res.mode),
        client,
        server,
        unrecognized: res.unrecognized,
        total_files: names.len(),
    }
}

/// The report on an archive, given what unpacking it gave: the names of its files, or an error.
pub fn build_report(extracted: Result<Vec<String>, String>, mod_name: &str) -> (r: Result<
    ZipReport,
    String,
>)
    ensures
        match extracted {
            Ok(names) => r matches Ok(report) && reports(report, text::texts(names@), mod_name@),
            Err(e) => r matches Err(told) && told@ == e@,
        },
{
    match extracted {
        Ok(names) => Ok(report_from_extracted(names.as_slice(), mod_name)),
        Err(e) => Err(e),
    }
}

/// The client and the server files of a report are all the recognised files: together with the
/// unrecognised ones they make up the files of the archive. Where no name is that of a folder, these
/// are all names.
pub proof fn law_report_counts_every_file(r: ZipReport, names: Seq<Seq<char>>, mod_name: Seq<char>)
    requires
        reports(r, names, mod_name),
    ensures
        r.client@.len() + r.server@.len() + r.unrecognized@.len() == resolver::files_of(
            names,
        ).len(),
        r.total_files == names.len(),
        (forall|i: int| 0 <= i < names.len() ==> resolver::is_file_name(#[trigger] names[i]))
            ==> resolver::files_of(names) == names,
{
    let files = resolver::files_of(names);
    let l = resolver::layout_of(files);
    let mapped = resolver::placed(l, mod_name, files);
    crate::resolver_laws::law_every_file_is_accounted_for(l, mod_name, files);
    assert forall|k: int| 0 <= k < mapped.len() implies (#[trigger] mapped[k]).category == "client"@
        || mapped[k].category == "server"@ by {
        crate::resolver_laws::law_targets_are_canonical(l, mod_name, mapped[k].original);
    }
    lemma_two_categories(mapped);
    if forall|i: int| 0 <= i < names.len() ==> resolver::is_file_name(#[trigger] names[i]) {
        lemma_all_are_files(names);
    }
}

proof fn lemma_all_are_files(names: Seq<Seq<char>>)
    requires
        forall|i: int| 0 <= i < names.len() ==> resolver::is_file_name(#[trigger] names[i]),
    ensures
        resolver::files_of(names) == names,
    decreases names.len(),
{
    reveal(Seq::filter);
    if names.len() > 0 {
        let before = names.drop_last();
        assert forall|i: int| 0 <= i < before.len() implies resolver::is_file_name(
            #[trigger] before[i],
        ) by {
            assert(before[i] == names[i]);
        }
        lemma_all_are_files(before);
        assert(resolver::is_file_name(names[names.len() - 1]));
        assert(before.push(names.last()) =~= names);
    } else {
        assert(names =~= Seq::empty());
    }
}

pub proof fn lemma_two_categories(ms: Seq<MappedView>)
    requires
        forall|k: int|
            0 <= k < ms.len() ==> (#[trigger] ms[k]).category == "client"@ || ms[k].category
                == "server"@,
    ensures
        of_category(ms, "client"@).len() + of_category(ms, "server"@).len() == ms.len(),
    decreases ms.len(),
{
    reveal(Seq::filter);
    reveal_strlit("client");
    reveal_strlit("server");
    if ms.len() > 0 {
        assert("client"@[0] == 'c' && "server"@[0] == 's');
        let before = ms.drop_last();
        assert forall|k: int| 0 <= k < before.len() implies (#[trigger] before[k]).category
            == "client"@ || before[k].category == "server"@ by {
            assert(before[k] == ms[k]);
        }
        assert(ms[ms.len() - 1] == ms.last());
        lemma_two_categories(before);
    }
}

} // verus!
