//! Assembly of the release archive in memory.
use vstd::prelude::*;

verus! {

/// An entry as written to an archive: path, whether it is a directory,
/// content and permission bits.
pub type EntryParts = (Seq<char>, bool, Seq<u8>, u32);

/// A zip writer over an in-memory buffer. Verus cannot declare
/// `zip::ZipWriter` itself (its parameter is bound by std's I/O traits), so
/// the writer is held here, out of Verus's sight.
#[verifier::external_body]
pub struct ZipBuffer {
    w: zip::ZipWriter<std::io::Cursor<Vec<u8>>>,
}

#[verifier::external_type_specification]
#[verifier::external_body]
pub struct ExZipError(zip::result::ZipError);

/// The entries a zip writer over an in-memory buffer holds so far.
pub uninterp spec fn zip_entries(w: ZipBuffer) -> Seq<EntryParts>;

/// The bytes of a finished archive with the given entries, in order.
pub uninterp spec fn zip_bytes(entries: Seq<EntryParts>) -> Seq<u8>;

/// Relies on `zip::ZipWriter::new`: a new writer holds no entry.
#[verifier::external_body]
fn zip_new() -> (w: ZipBuffer)
    ensures
        zip_entries(w) == Seq::<EntryParts>::empty(),
{
    ZipBuffer { w: zip::ZipWriter::new(std::io::Cursor::new(Vec::new())) }
}


/// The name a directory entry is stored under: a slash is appended unless
/// the name already ends with a path separator.
pub open spec fn dir_name(n: Seq<char>) -> Seq<char> {
    if n.len() > 0 && (n.last() == '/' || n.last() == '\\') {
        n
    } else {
        n.push('/')
    }
}

/// Largest content, in bytes, of an entry that the archive takes without its
/// large-file option; deflate may add a little, and zip's own limit is
/// `u32::MAX` bytes for both the content and its compressed form.
pub const MAX_ENTRY_BYTES: u64 = 0x8000_0000;

/// Every entry's content is below `MAX_ENTRY_BYTES`.
pub open spec fn all_small(es: Seq<EntryParts>) -> bool {
    forall|k: int| 0 <= k < es.len() ==> (#[trigger] es[k]).2.len() < MAX_ENTRY_BYTES
}

/// Relies on `zip::ZipWriter::add_directory`: one directory entry is
/// appended, named as `dir_name` says. Adding it first finishes the previous
/// file, which fails only when that file reached zip's large-file limit; the
/// buffer is in memory, so no other I/O error arises. The writer is taken by
/// value, so none is used again after a failure.
#[verifier::external_body]
fn zip_add_directory(w: ZipBuffer, name: &str, mode: u32) -> (r: Result<ZipBuffer, zip::result::ZipError>)
    ensures
        r matches Ok(w2) ==> zip_entries(w2) == zip_entries(w).push(
            (dir_name(name@), true, Seq::<u8>::empty(), mode),
        ),
        all_small(zip_entries(w)) ==> r is Ok,
{
    let mut w = w;
    w.w.add_directory(name, zip::write::FileOptions::default().unix_permissions(mode))?;
    Ok(w)
}

/// Relies on `zip::ZipWriter::start_file` followed by one `write_all` of the
/// whole content: a file entry with that content is appended. This fails
/// only at zip's large-file limit (on the previous file or this one); the
/// buffer is in memory, so no other I/O error arises.
#[verifier::external_body]
fn zip_add_file(w: ZipBuffer, name: &str, mode: u32, data: &[u8]) -> (r: Result<
    ZipBuffer,
    zip::result::ZipError,
>)
    ensures
        r matches Ok(w2) ==> zip_entries(w2) == zip_entries(w).push((name@, false, data@, mode)),
        all_small(zip_entries(w)) && data@.len() < MAX_ENTRY_BYTES ==> r is Ok,
{
    let mut w = w;
    w.w.start_file(name, zip::write::FileOptions::default().unix_permissions(mode))?;
    std::io::Write::write_all(&mut w.w, data)?;
    Ok(w)
}

/// Relies on `zip::ZipWriter::finish`: the archive bytes for the entries
/// written, which with fixed options and the fixed default timestamp depend
/// on those entries alone. Finishing fails only when the last file reached
/// zip's large-file limit.
#[verifier::external_body]
fn zip_finish(w: ZipBuffer) -> (r: Result<Vec<u8>, zip::result::ZipError>)
    ensures
        r matches Ok(b) ==> b@ == zip_bytes(zip_entries(w)),
        all_small(zip_entries(w)) ==> r is Ok,
{
    let mut w = w;
    w.w.finish().map(|c| c.into_inner())
}

/// Permission bits of every entry: readable by all, writable by the owner.
pub const ENTRY_MODE: u32 = 0o644;

/// One entry of a release archive.
#[derive(Debug, Clone, PartialEq, Eq)]
pub struct ArchiveEntry {
    /// Path inside the archive, with forward slashes.
    pub path: String,
    pub is_dir: bool,
    /// Content; empty for a directory.
    pub data: Vec<u8>,
    pub mode: u32,
}

impl View for ArchiveEntry {
    type V = EntryParts;

    open spec fn view(&self) -> EntryParts {
        (self.path@, self.is_dir, self.data@, self.mode)
    }
}

/// The entry as the archive stores it.
pub open spec fn written(e: EntryParts) -> EntryParts {
    if e.1 {
        (dir_name(e.0), true, Seq::<u8>::empty(), e.3)
    } else {
        e
    }
}

/// What the archive of a list of entries stores, entry by entry.
pub open spec fn written_all(es: Seq<ArchiveEntry>) -> Seq<EntryParts> {
    es.map_values(|e: ArchiveEntry| written(e@))
}

/// Writes the entries, in order, into a compressed archive held in memory;
/// this succeeds whenever every entry's content is below `MAX_ENTRY_BYTES`.
pub fn build_archive(entries: &Vec<ArchiveEntry>) -> (r: Result<Vec<u8>, zip::result::ZipError>)
    ensures
        r matches Ok(b) ==> b@ == zip_bytes(written_all(entries@)),
        (forall|k: int| 0 <= k < entries@.len() ==> (#[trigger] entries@[k]).data@.len()
            < MAX_ENTRY_BYTES) ==> r is Ok,
{
    let mut w = zip_new();
    let mut i: usize = 0;
    while i < entries.len()
        invariant
            i <= entries@.len(),
            zip_entries(w) == written_all(entries@.subrange(0, i as int)),
            (forall|k: int| 0 <= k < entries@.len() ==> (#[trigger] entries@[k]).data@.len()
                < MAX_ENTRY_BYTES) ==> all_small(zip_entries(w)),
        decreases entries@.len() - i,
    {
        let e = &entries[i];
        let ghost prev = zip_entries(w);
        let res = if e.is_dir {
            zip_add_directory(w, e.path.as_str(), e.mode)
        } else {
            zip_add_file(w, e.path.as_str(), e.mode, e.data.as_slice())
        };
        w = match res {
            Ok(w2) => w2,
            Err(err) => {
                return Err(err);
            },
        };
        proof {
            assert(written_all(entries@.subrange(0, i + 1)) =~= written_all(
                entries@.subrange(0, i as int),
            ).push(written(e@)));
            if e.is_dir {
            } else {
                assert(zip_entries(w) =~= prev.push(e@));
            }
            if forall|k: int| 0 <= k < entries@.len() ==> (#[trigger] entries@[k]).data@.len()
                < MAX_ENTRY_BYTES {
                assert forall|k: int| 0 <= k < zip_entries(w).len() implies (#[trigger] zip_entries(
                    w,
                )[k]).2.len() < MAX_ENTRY_BYTES by {
                    if k < prev.len() {
                        assert(zip_entries(w)[k] == prev[k]);
                    } else {
                        assert(entries@[i as int].data@.len() < MAX_ENTRY_BYTES);
                    }
                }
            }
        }
        i = i + 1;
    }
    proof {
        assert(entries@.subrange(0, i as int) =~= entries@);
    }
    zip_finish(w)
}

} // verus!
