//! What a release consists of: the bumped manifest, the files packed and the
//! archive's layout and name.
use vstd::prelude::*;
use vstd::string::*;
use vstd::utf8::encode_utf8;
use crate::archive::{ArchiveEntry, EntryParts, ENTRY_MODE, written};
use crate::collect::{select_scripts, texts, is_script, strictly_sorted};
use crate::manifest::{Manifest, ManifestError, present};
use crate::patch::{PatchError, patch_manifest, patched};
use crate::version::{BumpError, bump_version, bumped_text};

verus! {

/// Where files stand inside the archive.
#[derive(Debug, Clone, Copy, PartialEq, Eq)]
pub enum Layout {
    /// Every file at the archive's root.
    Flat,
    /// Every file under one directory named as the archive itself.
    Wrapped,
}

pub open spec fn archive_ext() -> Seq<char> {
    seq!['.', 'x', 'r', 'n', 'x']
}

pub open spec fn readme_lower() -> Seq<char> {
    seq!['r', 'e', 'a', 'd', 'm', 'e', '.', 'm', 'd']
}

pub open spec fn readme_upper() -> Seq<char> {
    seq!['R', 'E', 'A', 'D', 'M', 'E', '.', 'm', 'd']
}

pub open spec fn manifest_file_name() -> Seq<char> {
    seq!['m', 'a', 'n', 'i', 'f', 'e', 's', 't', '.', 'x', 'm', 'l']
}

/// File name of the archive for a project identifier.
pub fn archive_name(id: &str) -> (r: String)
    ensures
        r@ == id@ + archive_ext(),
{
    let mut r = String::new();
    r.append(id);
    proof {
        reveal_strlit(".xrnx");
    }
    r.append(".xrnx");
    proof {
        assert(r@ =~= id@ + archive_ext());
    }
    r
}

fn contains_name(names: &Vec<String>, n: &str) -> (r: bool)
    ensures
        r == texts(names@).contains(n@),
{
    let mut i: usize = 0;
    while i < names.len()
        invariant
            i <= names@.len(),
            forall|k: int| 0 <= k < i ==> names@[k]@ != n@,
        decreases names@.len() - i,
    {
        if names[i] == n.to_owned() {
            proof {
                assert(texts(names@)[i as int] == n@);
            }
            return true;
        }
        i = i + 1;
    }
    proof {
        if texts(names@).contains(n@) {
            let k = choose|k: int| 0 <= k < texts(names@).len() && texts(names@)[k] == n@;
            assert(names@[k]@ == n@);
        }
    }
    false
}

/// The readme a release takes: the lower-case name when there is one,
/// else the upper-case one, else none.
pub open spec fn readme_of(names: Seq<Seq<char>>) -> Option<Seq<char>> {
    if names.contains(readme_lower()) {
        Some(readme_lower())
    } else if names.contains(readme_upper()) {
        Some(readme_upper())
    } else {
        None
    }
}

/// Picks the readme among a directory's entry names.
pub fn readme_source(names: &Vec<String>) -> (r: Option<String>)
    ensures
        match r {
            Some(s) => readme_of(texts(names@)) == Some(s@),
            None => readme_of(texts(names@)) is None,
        },
{
    proof {
        reveal_strlit("readme.md");
        reveal_strlit("README.md");
        assert("readme.md"@ =~= readme_lower());
        assert("README.md"@ =~= readme_upper());
    }
    if contains_name(names, "readme.md") {
        Some("readme.md".to_owned())
    } else if contains_name(names, "README.md") {
        Some("README.md".to_owned())
    } else {
        None
    }
}

/// A file to pack: where it comes from in the working directory and the
/// path it takes in the release.
#[derive(Debug, Clone, PartialEq, Eq)]
pub struct ReleaseFile {
    pub source: String,
    pub name: String,
}

/// The paths a list of release files takes.
pub open spec fn file_names(s: Seq<ReleaseFile>) -> Seq<Seq<char>> {
    s.map_values(|f: ReleaseFile| f.name@)
}

/// The files of a release, given the names in the working directory: the
/// scripts in name order, then the readme if any (always named `README.md`),
/// then the manifest.
pub fn release_files(names: &Vec<String>) -> (r: Vec<ReleaseFile>)
    ensures
        ({
            let scripts = r@.subrange(0, r@.len() - 1 - if readme_of(texts(names@)) is Some {
                1int
            } else {
                0int
            });
            &&& r@.len() >= 1
            &&& strictly_sorted(file_names(scripts))
            &&& forall|k: int| 0 <= k < scripts.len() ==> (#[trigger] scripts[k]).source@
                == scripts[k].name@
            &&& forall|e: Seq<char>| #[trigger]
                file_names(scripts).contains(e) <==> (texts(
                    names@,
                ).contains(e) && is_script(e))
            &&& readme_of(texts(names@)) matches Some(s) ==> r@[r@.len() - 2].source@ == s
                && r@[r@.len() - 2].name@ == readme_upper()
            &&& r@.last().source@ == manifest_file_name()
            &&& r@.last().name@ == manifest_file_name()
        }),
{
    let scripts = select_scripts(names);
    let mut r: Vec<ReleaseFile> = Vec::new();
    let mut i: usize = 0;
    while i < scripts.len()
        invariant
            i <= scripts@.len(),
            r@.len() == i,
            forall|k: int| 0 <= k < i ==> (#[trigger] r@[k]).source@ == scripts@[k]@ && r@[k].name@
                == scripts@[k]@,
        decreases scripts@.len() - i,
    {
        r.push(ReleaseFile { source: scripts[i].clone(), name: scripts[i].clone() });
        i = i + 1;
    }
    proof {
        assert(file_names(r@) =~= texts(scripts@));
    }
    let ghost n_scripts = r@.len();
    proof {
        reveal_strlit("README.md");
        reveal_strlit("manifest.xml");
    }
    match readme_source(names) {
        Some(s) => {
            r.push(ReleaseFile { source: s, name: "README.md".to_owned() });
        },
        None => {},
    }
    r.push(ReleaseFile { source: "manifest.xml".to_owned(), name: "manifest.xml".to_owned() });
    proof {
        let scripts_part = r@.subrange(0, n_scripts as int);
        assert(file_names(scripts_part) =~= texts(scripts@));
        assert("README.md"@ =~= readme_upper());
        assert("manifest.xml"@ =~= manifest_file_name());
    }
    r
}


/// A file's bytes and the path it takes in the release.
#[derive(Debug, Clone, PartialEq, Eq)]
pub struct SourceFile {
    pub name: String,
    pub data: Vec<u8>,
}

/// The archive path of the wrapping directory.
pub open spec fn wrap_dir(id: Seq<char>) -> Seq<char> {
    id + archive_ext() + seq!['/']
}

/// What stands before each file's path inside the archive.
pub open spec fn path_prefix(id: Seq<char>, layout: Layout) -> Seq<char> {
    match layout {
        Layout::Flat => Seq::<char>::empty(),
        Layout::Wrapped => wrap_dir(id),
    }
}

/// How many entries come before the first file.
pub open spec fn lead_entries(layout: Layout) -> int {
    match layout {
        Layout::Flat => 0,
        Layout::Wrapped => 1,
    }
}

/// The entries of a release archive: the wrapping directory first when
/// there is one, then each file in order, all with the same permissions.
pub open spec fn planned_entries(id: Seq<char>, layout: Layout, files: Seq<SourceFile>) -> Seq<
    EntryParts,
> {
    let fs = files.map_values(
        |f: SourceFile| (path_prefix(id, layout) + f.name@, false, f.data@, ENTRY_MODE),
    );
    match layout {
        Layout::Flat => fs,
        Layout::Wrapped => seq![(wrap_dir(id), true, Seq::<u8>::empty(), ENTRY_MODE)] + fs,
    }
}

pub open spec fn entry_views(es: Seq<ArchiveEntry>) -> Seq<EntryParts> {
    es.map_values(|e: ArchiveEntry| e@)
}

/// Lays the files out as archive entries.
pub fn release_entries(id: &str, layout: Layout, files: &Vec<SourceFile>) -> (r: Vec<ArchiveEntry>)
    ensures
        entry_views(r@) == planned_entries(id@, layout, files@),
{
    let mut r: Vec<ArchiveEntry> = Vec::new();
    let mut prefix = String::new();
    match layout {
        Layout::Flat => {},
        Layout::Wrapped => {
            prefix.append(archive_name(id).as_str());
            proof {
                reveal_strlit("/");
            }
            prefix.append("/");
            r.push(
                ArchiveEntry {
                    path: prefix.clone(),
                    is_dir: true,
                    data: Vec::new(),
                    mode: ENTRY_MODE,
                },
            );
        },
    }
    proof {
        assert(prefix@ =~= path_prefix(id@, layout));
    }
    let ghost lead = r@;
    let mut i: usize = 0;
    while i < files.len()
        invariant
            i <= files@.len(),
            prefix@ == path_prefix(id@, layout),
            r@.len() == lead.len() + i,
            lead.len() == lead_entries(layout),
            forall|k: int| 0 <= k < lead.len() ==> r@[k] == lead[k],
            layout is Wrapped ==> lead[0]@ == (wrap_dir(id@), true, Seq::<u8>::empty(), ENTRY_MODE),
            forall|k: int|
                0 <= k < i ==> (#[trigger] r@[lead.len() + k])@ == (
                    path_prefix(id@, layout) + files@[k].name@,
                    false,
                    files@[k].data@,
                    ENTRY_MODE,
                ),
        decreases files@.len() - i,
    {
        let f = &files[i];
        let mut path = prefix.clone();
        path.append(f.name.as_str());
        let data = f.data.clone();
        proof {
            assert(data@ =~= f.data@);
        }
        r.push(ArchiveEntry { path, is_dir: false, data, mode: ENTRY_MODE });
        i = i + 1;
    }
    proof {
        let p = planned_entries(id@, layout, files@);
        assert(entry_views(r@) =~= p) by {
            assert forall|k: int| 0 <= k < p.len() implies entry_views(r@)[k] == p[k] by {
                if k >= lead.len() {
                    assert(r@[lead.len() + (k - lead.len())] == r@[k]);
                }
            }
        }
    }
    r
}

/// Every file handed to the layout is stored in the archive under its path,
/// with its bytes unchanged.
pub proof fn lemma_archive_keeps_files(id: Seq<char>, layout: Layout, files: Seq<SourceFile>, k: int)
    requires
        0 <= k < files.len(),
    ensures
        ({
            let stored = planned_entries(id, layout, files).map_values(|e: EntryParts| written(e));
            &&& stored.len() == files.len() + lead_entries(layout)
            &&& stored[lead_entries(layout) + k] == (
                path_prefix(id, layout) + files[k].name@,
                false,
                files[k].data@,
                ENTRY_MODE,
            )
        }),
{
}


/// Why a release could not be prepared. Nothing has been written when one
/// of these comes back.
#[derive(Debug)]
pub enum ReleaseError {
    Manifest(ManifestError),
    Version(BumpError),
    Patch(PatchError),
}

/// The outcome of the release's decisions, before anything is written.
#[derive(Debug, Clone, PartialEq, Eq)]
pub struct PreparedRelease {
    pub id: String,
    pub old_version: String,
    pub new_version: String,
    /// The manifest text with its version field bumped.
    pub manifest_text: String,
    /// File name of the archive.
    pub archive_name: String,
}

/// Reads the required fields, bumps the version and patches the manifest
/// text; fails on a missing field, a version that cannot be bumped, or a
/// text whose version field is not literally `<Version>old</Version>`.
pub fn prepare_release(text: &str, manifest: &Manifest) -> (r: Result<PreparedRelease, ReleaseError>)
    ensures
        !present(manifest.id) || !present(manifest.version) ==> r matches Err(
            ReleaseError::Manifest(_),
        ),
        present(manifest.id) && present(manifest.version) ==> ({
            let id = manifest.id.unwrap()@;
            let old_v = manifest.version.unwrap()@;
            match bumped_text(old_v) {
                None => r matches Err(ReleaseError::Version(BumpError::InvalidVersion(_))),
                Some(None) => r matches Err(ReleaseError::Version(BumpError::MinorOverflow)),
                Some(Some(new_v)) => match patched(text@, old_v, new_v) {
                    None => r matches Err(ReleaseError::Patch(_)),
                    Some(t) => r matches Ok(p) && p.id@ == id && p.old_version@ == old_v
                        && p.new_version@ == new_v && p.manifest_text@ == t && p.archive_name@
                        == id + archive_ext(),
                },
            }
        }),
{
    let (id, old_version) = match manifest.required_fields() {
        Ok(f) => f,
        Err(e) => {
            return Err(ReleaseError::Manifest(e));
        },
    };
    let new_version = match bump_version(old_version.as_str()) {
        Ok(v) => v,
        Err(e) => {
            return Err(ReleaseError::Version(e));
        },
    };
    let manifest_text = match patch_manifest(text, old_version.as_str(), new_version.as_str()) {
        Ok(t) => t,
        Err(e) => {
            return Err(ReleaseError::Patch(e));
        },
    };
    let archive_name = archive_name(id.as_str());
    Ok(PreparedRelease { id, old_version, new_version, manifest_text, archive_name })
}

/// The manifest as packed: the patched text's bytes under `manifest.xml`.
pub fn manifest_source(p: &PreparedRelease) -> (r: SourceFile)
    ensures
        r.name@ == manifest_file_name(),
        r.data@ == encode_utf8(p.manifest_text@),
{
    proof {
        reveal_strlit("manifest.xml");
        assert("manifest.xml"@ =~= manifest_file_name());
    }
    SourceFile { name: "manifest.xml".to_owned(), data: p.manifest_text.as_str().as_bytes_vec() }
}

} // verus!
