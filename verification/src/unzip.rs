//! Unpacking a zip archive that is in memory.
use crate::archive;
use crate::archive::Unpack;
use crate::text;
use std::io::Read;
use vstd::prelude::*;

verus! {

#[verifier::external_type_specification]
#[verifier::external_body]
#[verifier::reject_recursive_types(R)]
pub struct ExZipArchive<R>(zip::ZipArchive<R>);

#[verifier::external_type_specification]
#[verifier::external_body]
#[verifier::reject_recursive_types(T)]
pub struct ExCursor<T>(std::io::Cursor<T>);

/// What can be learnt of one entry of an archive.
#[verifier::ext_equal]
pub struct EntryView {
    /// Its name, whether it is a folder and the number of its compression method, or the text of
    /// the error.
    pub head: Result<(Seq<char>, bool, u16), Seq<char>>,
    /// What it holds, or the text of the error.
    pub data: Result<Seq<u8>, Seq<char>>,
}

/// The entries that an opened archive holds.
pub uninterp spec fn zip_entries(a: zip::ZipArchive<std::io::Cursor<Vec<u8>>>) -> Seq<EntryView>;

/// What `zip::ZipArchive::new` makes of the bytes of an archive: its entries, or the text of the
/// error.
pub uninterp spec fn zip_opened(bytes: Seq<u8>) -> Result<Seq<EntryView>, Seq<char>>;

/// The bytes open as an archive with these entries.
pub open spec fn opens_as(bytes: Seq<u8>, entries: Seq<EntryView>) -> bool {
    zip_opened(bytes) == Ok::<Seq<EntryView>, Seq<char>>(entries)
}

/// `zip::ZipArchive::new` over a `Cursor`: a function of the bytes.
#[verifier::external_body]
fn open_zip(bytes: Vec<u8>) -> (r: Result<zip::ZipArchive<std::io::Cursor<Vec<u8>>>, String>)
    ensures
        match r {
            Ok(a) => opens_as(bytes@, zip_entries(a)),
            Err(e) => zip_opened(bytes@) == Err::<Seq<EntryView>, Seq<char>>(e@),
        },
{
    zip::ZipArchive::new(std::io::Cursor::new(bytes)).map_err(|e| e.to_string())
}

/// `zip::ZipArchive::len`: how many entries there are.
#[verifier::external_body]
fn zip_len(a: &zip::ZipArchive<std::io::Cursor<Vec<u8>>>) -> (r: usize)
    ensures
        r == zip_entries(*a).len(),
{
    a.len()
}

/// The number of the compression method LZMA.
pub const LZMA: u16 = 14;

/// What was learnt of an entry without reading it.
pub open spec fn head_view(r: Result<(String, bool, u16), String>) -> Result<
    (Seq<char>, bool, u16),
    Seq<char>,
> {
    match r {
        Ok(h) => Ok((h.0@, h.1, h.2)),
        Err(e) => Err(e@),
    }
}

/// The entry can be read: it is there, and not compressed with LZMA.
pub open spec fn is_readable(e: EntryView) -> bool {
    e.head matches Ok(h) && h.2 != LZMA
}

/// What was learnt of the content of an entry.
pub open spec fn data_view(r: Result<Vec<u8>, String>) -> Result<Seq<u8>, Seq<char>> {
    match r {
        Ok(d) => Ok(d@),
        Err(e) => Err(e@),
    }
}

/// The name is that of a folder: it ends in a slash or a backslash.
pub open spec fn names_folder(name: Seq<char>) -> bool {
    name.len() > 0 && (name.last() == '/' || name.last() == '\\')
}

/// `zip::ZipArchive::by_index`, then `ZipFile::name`, `ZipFile::is_dir` and `ZipFile::compression`:
/// name, kind and compression method of an entry. The archive holds the same entries afterwards.
#[allow(deprecated)]
#[verifier::external_body]
fn zip_head(a: &mut zip::ZipArchive<std::io::Cursor<Vec<u8>>>, i: usize) -> (r: Result<
    (String, bool, u16),
    String,
>)
    requires
        i < zip_entries(*old(a)).len(),
    ensures
        zip_entries(*final(a)) == zip_entries(*old(a)),
        head_view(r) == zip_entries(*old(a))[i as int].head,
        r matches Ok(h) ==> h.1 == names_folder(h.0@),
{
    a.by_index(i)
        .map(|e| (e.name().to_string(), e.is_dir(), e.compression().to_u16()))
        .map_err(|e| e.to_string())
}

/// `ZipFile::read_to_end` on the entry that `zip::ZipArchive::by_index` gives: what the entry
/// holds. The archive holds the same entries afterwards. Reading an entry that is compressed with
/// LZMA may not come to an end, so that such an entry is not read.
#[verifier::external_body]
fn zip_data(a: &mut zip::ZipArchive<std::io::Cursor<Vec<u8>>>, i: usize) -> (r: Result<
    Vec<u8>,
    String,
>)
    requires
        i < zip_entries(*old(a)).len(),
        is_readable(zip_entries(*old(a))[i as int]),
    ensures
        zip_entries(*final(a)) == zip_entries(*old(a)),
        data_view(r) == zip_entries(*old(a))[i as int].data,
{
    let mut entry = a.by_index(i).map_err(|e| e.to_string())?;
    let mut buf = Vec::new();
    entry.read_to_end(&mut buf).map_err(|e| e.to_string())?;
    Ok(buf)
}

/// An opened zip archive.
pub struct ZipInMemory {
    archive: zip::ZipArchive<std::io::Cursor<Vec<u8>>>,
}

impl View for ZipInMemory {
    type V = Seq<EntryView>;

    closed spec fn view(&self) -> Seq<EntryView> {
        zip_entries(self.archive)
    }
}

/// Opens a zip archive.
pub fn open(bytes: Vec<u8>) -> (r: Result<ZipInMemory, String>)
    ensures
        match zip_opened(bytes@) {
            Ok(entries) => r matches Ok(z) && z@ == entries,
            Err(e) => r matches Err(told) && told@ == "Invalid zip: "@ + e,
        },
{
    match open_zip(bytes) {
        Ok(archive) => Ok(ZipInMemory { archive }),
        Err(e) => Err(text::concat("Invalid zip: ", e.as_str())),
    }
}

/// The path that an entry would be unpacked to; empty where its name cannot be learnt.
pub open spec fn path_of(e: EntryView) -> Seq<char> {
    match e.head {
        Ok(h) => text::slashed(h.0),
        Err(_) => Seq::empty(),
    }
}

/// Something to be put into the extraction folder, at a path relative to it.
pub enum Unpacked {
    Folder(String),
    File(String, Vec<u8>),
}

#[verifier::ext_equal]
pub enum UnpackedView {
    Folder(Seq<char>),
    File(Seq<char>, Seq<u8>),
}

impl View for Unpacked {
    type V = UnpackedView;

    open spec fn view(&self) -> UnpackedView {
        match self {
            Unpacked::Folder(p) => UnpackedView::Folder(p@),
            Unpacked::File(p, d) => UnpackedView::File(p@, d@),
        }
    }
}

pub open spec fn unpacked_views(v: Seq<Unpacked>) -> Seq<UnpackedView> {
    v.map_values(|u: Unpacked| u@)
}

/// What came of unpacking an archive.
pub enum Extraction {
    Done(Vec<Unpacked>),
    Failed(String),
    /// A file of the archive is compressed with LZMA, so that the archive is not unpacked.
    Lzma,
}

#[verifier::ext_equal]
pub enum ExtractionView {
    Done(Seq<UnpackedView>),
    Failed(Seq<char>),
    Lzma,
}

impl View for Extraction {
    type V = ExtractionView;

    open spec fn view(&self) -> ExtractionView {
        match self {
            Extraction::Done(v) => ExtractionView::Done(unpacked_views(v@)),
            Extraction::Failed(e) => ExtractionView::Failed(e@),
            Extraction::Lzma => ExtractionView::Lzma,
        }
    }
}

/// What an entry adds to what was unpacked before it, where `inside` tells whether its path, joined
/// to the extraction folder, stays in that folder.
pub open spec fn unpack_entry(before: Seq<UnpackedView>, e: EntryView, inside: bool) -> ExtractionView {
    match e.head {
        Err(told) => ExtractionView::Failed("zip entry: "@ + told),
        Ok(h) => if !archive::entry_allowed(h.0) || !inside {
            ExtractionView::Done(before)
        } else if h.1 {
            ExtractionView::Done(before.push(UnpackedView::Folder(text::slashed(h.0))))
        } else if h.2 == LZMA {
            ExtractionView::Lzma
        } else {
            match e.data {
                Ok(d) => ExtractionView::Done(
                    before.push(UnpackedView::File(text::slashed(h.0), d)),
                ),
                Err(told) => ExtractionView::Failed("read zip entry: "@ + told),
            }
        },
    }
}

/// What is to be done with an entry.
pub enum Planned {
    Skip,
    Folder(String),
    /// Put what the entry holds at the path.
    File(String),
}

/// What is to be done with an entry of which the name was learnt or could not be.
pub fn plan_entry(head: Result<(String, bool), String>, inside: bool) -> (r: Result<Planned, String>)
    ensures
        match head {
            Ok(h) => if !archive::entry_allowed(h.0@) || !inside {
                r matches Ok(Planned::Skip)
            } else if h.1 {
                r matches Ok(Planned::Folder(p)) && p@ == text::slashed(h.0@)
            } else {
                r matches Ok(Planned::File(p)) && p@ == text::slashed(h.0@)
            },
            Err(told) => r matches Err(e) && e@ == "zip entry: "@ + told@,
        },
{
    match head {
        Ok(h) => match archive::unpack_zip_entry(h.0.as_str(), h.1, inside) {
            Unpack::Skip => Ok(Planned::Skip),
            Unpack::Folder => Ok(Planned::Folder(text::slashes(h.0.as_str()))),
            Unpack::File => Ok(Planned::File(text::slashes(h.0.as_str()))),
        },
        Err(e) => Err(text::concat("zip entry: ", e.as_str())),
    }
}

/// The file at a path, where its content was learnt.
pub fn plan_file(path: String, data: Result<Vec<u8>, String>) -> (r: Result<Unpacked, String>)
    ensures
        match data_view(data) {
            Ok(d) => r matches Ok(u) && u@ == UnpackedView::File(path@, d),
            Err(told) => r matches Err(e) && e@ == "read zip entry: "@ + told,
        },
{
    match data {
        Ok(d) => Ok(Unpacked::File(path, d)),
        Err(e) => Err(text::concat("read zip entry: ", e.as_str())),
    }
}

/// What is unpacked from the entries, in order; the first error ends the unpacking, and so does the
/// first file that is compressed with LZMA.
pub open spec fn unpack(entries: Seq<EntryView>, inside: Seq<bool>) -> ExtractionView
    decreases entries.len(),
{
    if entries.len() == 0 {
        ExtractionView::Done(Seq::empty())
    } else {
        match unpack(entries.drop_last(), inside) {
            ExtractionView::Done(before) => unpack_entry(
                before,
                entries.last(),
                inside[entries.len() - 1],
            ),
            other => other,
        }
    }
}

proof fn lemma_end_stays(entries: Seq<EntryView>, inside: Seq<bool>, n: int)
    requires
        0 <= n <= entries.len(),
        !(unpack(entries.take(n), inside) is Done),
    ensures
        unpack(entries, inside) == unpack(entries.take(n), inside),
    decreases entries.len(),
{
    if n < entries.len() {
        assert(entries.drop_last().take(n) =~= entries.take(n));
        lemma_end_stays(entries.drop_last(), inside, n);
    } else {
        assert(entries.take(n) =~= entries);
    }
}

impl ZipInMemory {
    /// The paths that the entries would be unpacked to.
    pub fn paths(&mut self) -> (r: Vec<String>)
        ensures
            final(self)@ == old(self)@,
            text::texts(r@) == old(self)@.map_values(|e: EntryView| path_of(e)),
    {
        let ghost entries = self@;
        let ghost want = entries.map_values(|e: EntryView| path_of(e));
        let mut r: Vec<String> = Vec::new();
        let n: usize = zip_len(&self.archive);
        for i in 0..n
            invariant
                n == entries.len(),
                self@ == entries,
                want == entries.map_values(|e: EntryView| path_of(e)),
                text::texts(r@) =~= want.take(i as int),
        {
            let ghost was = text::texts(r@);
            let path = match zip_head(&mut self.archive, i) {
                Ok(h) => text::slashes(h.0.as_str()),
                Err(_) => String::new(),
            };
            assert(path@ =~= want[i as int]);
            r.push(path);
            assert(text::texts(r@) =~= was.push(want[i as int]));
        }
        assert(text::texts(r@) =~= want);
        r
    }

    /// What is unpacked from the archive, where `inside` tells of each entry whether its path,
    /// joined to the extraction folder, stays in that folder.
    pub fn extract_zip(&mut self, inside: &[bool]) -> (r: Extraction)
        requires
            inside@.len() == old(self)@.len(),
        ensures
            final(self)@ == old(self)@,
            r@ == unpack(old(self)@, inside@),
    {
        let ghost entries = self@;
        let mut r: Vec<Unpacked> = Vec::new();
        let n: usize = zip_len(&self.archive);
        assert(entries.take(0) =~= Seq::empty());
        assert(unpacked_views(r@) =~= Seq::empty());
        for i in 0..n
            invariant
                n == entries.len(),
                inside@.len() == n,
                self@ == entries,
                entries == old(self)@,
                unpack(entries.take(i as int), inside@) == ExtractionView::Done(unpacked_views(r@)),
        {
            let ghost was = unpacked_views(r@);
            let ghost now = entries.take(i + 1);
            proof {
                assert(now.drop_last() =~= entries.take(i as int));
                assert(now.last() == entries[i as int]);
                if !(unpack(now, inside@) is Done) {
                    lemma_end_stays(entries, inside@, i + 1);
                }
            }
            let (head, method): (Result<(String, bool), String>, u16) = match zip_head(
                &mut self.archive,
                i,
            ) {
                Ok(h) => (Ok((h.0, h.1)), h.2),
                Err(e) => (Err(e), 0),
            };
            match plan_entry(head, inside[i]) {
                Ok(Planned::Skip) => {},
                Ok(Planned::Folder(path)) => {
                    let ghost p = path@;
                    r.push(Unpacked::Folder(path));
                    assert(unpacked_views(r@) =~= was.push(UnpackedView::Folder(p)));
                },
                Ok(Planned::File(path)) => {
                    if method == LZMA {
                        return Extraction::Lzma;
                    }
                    let data = zip_data(&mut self.archive, i);
                    match plan_file(path, data) {
                        Ok(u) => {
                            let ghost view = u@;
                            r.push(u);
                            assert(unpacked_views(r@) =~= was.push(view));
                        },
                        Err(e) => return Extraction::Failed(e),
                    }
                },
                Err(e) => return Extraction::Failed(e),
            }
        }
        assert(entries.take(n as int) =~= entries);
        Extraction::Done(r)
    }
}

/// Where an unpacked thing is put.
pub open spec fn place_of(u: UnpackedView) -> Seq<char> {
    match u {
        UnpackedView::Folder(p) => p,
        UnpackedView::File(p, _) => p,
    }
}

/// Nothing is unpacked to a path in which two dots stand, and nothing that would leave the
/// extraction folder.
pub proof fn law_unpacking_stays_inside(entries: Seq<EntryView>, inside: Seq<bool>)
    requires
        unpack(entries, inside) is Done,
    ensures
        forall|k: int|
            0 <= k < unpack(entries, inside)->Done_0.len() ==> {
                let place = place_of(#[trigger] unpack(entries, inside)->Done_0[k]);
                &&& !text::occurs(place, ".."@)
                &&& exists|i: int|
                    0 <= i < entries.len() && path_of(#[trigger] entries[i]) == place && inside[i]
            },
    decreases entries.len(),
{
    if entries.len() > 0 {
        let before = entries.drop_last();
        law_unpacking_stays_inside(before, inside);
        let all = unpack(entries, inside)->Done_0;
        let had = unpack(before, inside)->Done_0;
        assert forall|k: int| 0 <= k < all.len() implies {
            let place = place_of(#[trigger] all[k]);
            &&& !text::occurs(place, ".."@)
            &&& exists|i: int|
                0 <= i < entries.len() && path_of(#[trigger] entries[i]) == place && inside[i]
        } by {
            if k < had.len() {
                assert(all[k] == had[k]);
                let i = choose|i: int|
                    0 <= i < before.len() && path_of(#[trigger] before[i]) == place_of(had[k])
                        && inside[i];
                assert(path_of(entries[i]) == place_of(all[k]));
            } else {
                assert(path_of(entries[entries.len() - 1]) == place_of(all[k]));
            }
        }
    }
}

} // verus!
