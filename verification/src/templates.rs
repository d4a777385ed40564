//! The registry-facing data of a stored template: its kind tag and the
//! path of its backing data, plus the rules the registry checks before it
//! touches the filesystem.

use vstd::prelude::*;

use crate::text::contains_char;
use crate::text::find_char;
use crate::text::to_owned_str;

verus! {

/// Errors of the template registry.
#[derive(Debug)]
pub enum TemplateError {
    IoError,
    InvalidTemplate,
    ErrorExecutingGit,
    ErrorConvertingDir2Txml,
    InvalidPath,
}

impl TemplateError {
    /// A human-readable description, as the registry reports it.
    pub fn describe(&self) -> (r: &'static str)
        ensures
            (*self is IoError) ==> r@ == "IO Error"@,
            (*self is InvalidTemplate) ==> r@ == "Invalid Template"@,
            (*self is ErrorExecutingGit) ==> r@
                == "Error executing git. Check if it is installed."@,
            (*self is InvalidPath) ==> r@ == "Invalid path."@,
            (*self is ErrorConvertingDir2Txml) ==> r@ == "Error converting directory to txml."@,
    {
        match self {
            TemplateError::IoError => "IO Error",
            TemplateError::InvalidTemplate => "Invalid Template",
            TemplateError::ErrorExecutingGit => "Error executing git. Check if it is installed.",
            TemplateError::InvalidPath => "Invalid path.",
            TemplateError::ErrorConvertingDir2Txml => "Error converting directory to txml.",
        }
    }
}

/// Spec view of `TemplateData`.
pub ghost struct TemplateDataV {
    pub class: Seq<char>,
    pub data_path: Seq<char>,
}

/// What the registry stores about one template: its kind tag (`dir`,
/// `git` or `txml`) and the path of the data it was saved under.
pub struct TemplateData {
    class: String,
    data_path: String,
}

impl View for TemplateData {
    type V = TemplateDataV;

    closed spec fn view(&self) -> TemplateDataV {
        TemplateDataV { class: self.class@, data_path: self.data_path@ }
    }
}

impl TemplateData {
    /// A record with the given kind tag and data path.
    pub fn new(class: &str, data_path: &str) -> (r: TemplateData)
        ensures
            r@.class == class@,
            r@.data_path == data_path@,
    {
        TemplateData { class: to_owned_str(class), data_path: to_owned_str(data_path) }
    }

    /// The kind tag.
    pub fn class(&self) -> (r: &String)
        ensures
            r@ == self@.class,
    {
        &self.class
    }

    /// The path of the template's backing data.
    pub fn data_path(&self) -> (r: &String)
        ensures
            r@ == self@.data_path,
    {
        &self.data_path
    }
}

/// A template name is valid when it holds no path separator.
pub open spec fn spec_is_valid_name(name: Seq<char>) -> bool {
    !contains_char(name, '/') && !contains_char(name, '\\')
}

/// Whether `name` can name a template; see `spec_is_valid_name`.
pub fn is_valid_name(name: &str) -> (r: bool)
    ensures
        r == spec_is_valid_name(name@),
{
    let n = crate::text::len_chars(name);
    let slash = find_char(name, '/', 0);
    let backslash = find_char(name, '\\', 0);
    proof {
        crate::text::lemma_find_char_from_props(name@, '/', 0);
        crate::text::lemma_find_char_from_props(name@, '\\', 0);
    }
    slash == n && backslash == n
}

} // verus!
