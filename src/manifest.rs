//! The manifest's fields and the check of those a release needs.
use vstd::prelude::*;
use vstd::string::*;

verus! {

#[verifier::external_type_specification]
#[verifier::external_body]
pub struct ExDeError(quick_xml::DeError);

/// The fields of a manifest document; unknown fields are not kept.
#[derive(Debug, Clone, PartialEq, Eq, Default)]
pub struct Manifest {
    pub doc_version: Option<String>,
    pub api_version: Option<String>,
    pub author: Option<String>,
    pub id: Option<String>,
    pub name: Option<String>,
    pub version: Option<String>,
    pub description: Option<String>,
}

/// A field that a release cannot do without.
#[derive(Debug, Clone, Copy, PartialEq, Eq)]
pub enum RequiredField {
    Id,
    Version,
}

impl RequiredField {
    /// The field's element name in the manifest.
    pub fn name(&self) -> (r: &'static str)
        ensures
            r@ == field_name(*self),
    {
        proof {
            reveal_strlit("Id");
            reveal_strlit("Version");
        }
        match self {
            RequiredField::Id => "Id",
            RequiredField::Version => "Version",
        }
    }
}

pub open spec fn field_name(f: RequiredField) -> Seq<char> {
    match f {
        RequiredField::Id => seq!['I', 'd'],
        RequiredField::Version => seq!['V', 'e', 'r', 's', 'i', 'o', 'n'],
    }
}

/// Why a manifest could not be read.
#[derive(Debug)]
pub enum ManifestError {
    /// The text is not a well-formed manifest document.
    Xml(quick_xml::DeError),
    /// A required field is absent, empty or only whitespace.
    MissingField(RequiredField),
}

/// Unicode `White_Space`, the characters that `str::trim` removes.
pub open spec fn is_blank_char(c: char) -> bool {
    let u = c as u32;
    (0x09 <= u <= 0x0d) || u == 0x20 || u == 0x85 || u == 0xa0 || u == 0x1680 || (0x2000 <= u
        <= 0x200a) || u == 0x2028 || u == 0x2029 || u == 0x202f || u == 0x205f || u == 0x3000
}

fn blank_char(c: char) -> (r: bool)
    ensures
        r == is_blank_char(c),
{
    let u = c as u32;
    (0x09 <= u && u <= 0x0d) || u == 0x20 || u == 0x85 || u == 0xa0 || u == 0x1680 || (0x2000 <= u
        && u <= 0x200a) || u == 0x2028 || u == 0x2029 || u == 0x202f || u == 0x205f || u == 0x3000
}

/// A text with no character other than whitespace.
pub open spec fn is_blank(s: Seq<char>) -> bool {
    forall|i: int| 0 <= i < s.len() ==> is_blank_char(#[trigger] s[i])
}

/// Whether a field holds a usable value.
pub open spec fn present(f: Option<String>) -> bool {
    f matches Some(s) && !is_blank(s@)
}

fn blank(s: &str) -> (r: bool)
    ensures
        r == is_blank(s@),
{
    let n = s.unicode_len();
    let mut i: usize = 0;
    while i < n
        invariant
            n == s@.len(),
            i <= n,
            forall|k: int| 0 <= k < i ==> is_blank_char(#[trigger] s@[k]),
        decreases n - i,
    {
        let c = s.get_char(i);
        if !blank_char(c) {
            return false;
        }
        i = i + 1;
    }
    true
}

fn field_value(f: &Option<String>) -> (r: Option<String>)
    ensures
        present(*f) ==> r == *f,
        !present(*f) ==> r is None,
{
    match f {
        Some(s) => if blank(s.as_str()) {
            None
        } else {
            Some(s.clone())
        },
        None => None,
    }
}

impl Manifest {
    /// The identifier and the version text; the identifier is checked first.
    pub fn required_fields(&self) -> (r: Result<(String, String), ManifestError>)
        ensures
            !present(self.id) ==> r matches Err(ManifestError::MissingField(RequiredField::Id)),
            present(self.id) && !present(self.version) ==> r matches Err(
                ManifestError::MissingField(RequiredField::Version),
            ),
            present(self.id) && present(self.version) ==> (r matches Ok(p) && Some(p.0)
                == self.id && Some(p.1) == self.version),
    {
        let id = match field_value(&self.id) {
            Some(v) => v,
            None => {
                return Err(ManifestError::MissingField(RequiredField::Id));
            },
        };
        let version = match field_value(&self.version) {
            Some(v) => v,
            None => {
                return Err(ManifestError::MissingField(RequiredField::Version));
            },
        };
        Ok((id, version))
    }
}

} // verus!
