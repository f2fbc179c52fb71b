use vstd::prelude::*;
use crate::text::{append, chars_of, matches_at, occurs_at, string_of};

verus! {

/// The kind of a schematic-editor file, by its name.
#[derive(Clone, Copy, Debug, PartialEq, Eq, Structural)]
pub enum FileType {
    Schematic,
    Symbol,
    Testbench,
    Invalid,
}

/// What `Path::file_name` gives for a path, as text.
pub uninterp spec fn file_name_of(path: Seq<char>) -> Option<Seq<char>>;

/// Relies on `std::path::Path::file_name` and `OsStr::to_str`: the last component of
/// the path, when there is one and it is valid text.
#[verifier::external_body]
fn file_name(path: &str) -> (r: Option<String>)
    ensures
        r is Some <==> file_name_of(path@) is Some,
        r matches Some(n) ==> file_name_of(path@) == Some(n@),
{
    std::path::Path::new(path).file_name().and_then(|n| n.to_str()).map(|n| n.to_string())
}

/// What `Path::file_stem` gives for a path, as text.
pub uninterp spec fn file_stem_of(path: Seq<char>) -> Option<Seq<char>>;

/// What `Path::parent` gives for a path, as text.
pub uninterp spec fn parent_of(path: Seq<char>) -> Option<Seq<char>>;

/// What `Path::join` gives for a directory and a name, as text.
pub uninterp spec fn joined_of(dir: Seq<char>, name: Seq<char>) -> Seq<char>;

/// Relies on `std::path::Path::file_stem` and `OsStr::to_str`: the file name without
/// its extension, when there is one and it is valid text.
#[verifier::external_body]
fn file_stem(path: &str) -> (r: Option<String>)
    ensures
        r is Some <==> file_stem_of(path@) is Some,
        r matches Some(n) ==> file_stem_of(path@) == Some(n@),
{
    std::path::Path::new(path).file_stem().and_then(|n| n.to_str()).map(|n| n.to_string())
}

/// Relies on `std::path::Path::parent` and `Path::to_str`: the path without its last
/// component, when there is one and it is valid text.
#[verifier::external_body]
fn parent(path: &str) -> (r: Option<String>)
    ensures
        r is Some <==> parent_of(path@) is Some,
        r matches Some(n) ==> parent_of(path@) == Some(n@),
{
    std::path::Path::new(path).parent().and_then(|p| p.to_str()).map(|p| p.to_string())
}

/// Relies on `std::path::Path::join`: `name` appended to `dir` as a path component.
#[verifier::external_body]
fn join(dir: &str, name: &str) -> (r: String)
    ensures
        r@ == joined_of(dir@, name@),
{
    std::path::Path::new(dir).join(name).to_string_lossy().into_owned()
}

/// The testbench that belongs to a schematic: `<stem>_tb.sch` beside it.
pub open spec fn testbench_of(path: Seq<char>) -> Option<Seq<char>> {
    match (file_stem_of(path), parent_of(path)) {
        (Some(stem), Some(dir)) => Some(joined_of(dir, stem + "_tb.sch"@)),
        _ => None,
    }
}

pub open spec fn ends_with(s: Seq<char>, p: Seq<char>) -> bool {
    p.len() <= s.len() && occurs_at(s, p, s.len() - p.len())
}

fn ends_with_exec(s: &[char], p: &[char]) -> (r: bool)
    ensures
        r == ends_with(s@, p@),
{
    if p.len() > s.len() {
        return false;
    }
    matches_at(s, p, s.len() - p.len())
}

/// The kind of a file by its name: `_tb.sch` before `.sch`, then `.sym`.
pub open spec fn file_type_of(name: Seq<char>) -> FileType {
    if ends_with(name, "_tb.sch"@) {
        FileType::Testbench
    } else if ends_with(name, ".sch"@) {
        FileType::Schematic
    } else if ends_with(name, ".sym"@) {
        FileType::Symbol
    } else {
        FileType::Invalid
    }
}

/// The kind of the file at `path`, by its file name.
pub open spec fn path_type(path: Seq<char>) -> FileType {
    file_type_of(
        match file_name_of(path) {
            Some(n) => n,
            None => Seq::empty(),
        },
    )
}

/// A schematic file to be turned into a netlist.
#[derive(Clone, Debug)]
pub struct XSchemNetlist {
    file_path: String,
}

impl XSchemNetlist {
    /// The kind of the file at `file_path`, read from its file name (a path without
    /// one is invalid).
    pub fn detect_file_type(file_path: &str) -> (r: FileType)
        ensures
            r == path_type(file_path@),
    {
        let name = match file_name(file_path) {
            Some(n) => chars_of(n.as_str()),
            None => Vec::new(),
        };
        if ends_with_exec(name.as_slice(), chars_of("_tb.sch").as_slice()) {
            FileType::Testbench
        } else if ends_with_exec(name.as_slice(), chars_of(".sch").as_slice()) {
            FileType::Schematic
        } else if ends_with_exec(name.as_slice(), chars_of(".sym").as_slice()) {
            FileType::Symbol
        } else {
            FileType::Invalid
        }
    }

    /// Accepts a schematic, symbol or testbench file; refuses any other path.
    pub fn new(file_path: String) -> (r: Result<XSchemNetlist, String>)
        ensures
            r is Ok <==> path_type(file_path@) != FileType::Invalid,
            r matches Ok(x) ==> x.path() == file_path@,
            r matches Err(m) ==> m@ == "Invalid file type: "@ + file_path@,
    {
        match Self::detect_file_type(file_path.as_str()) {
            FileType::Invalid => {
                let mut m = chars_of("Invalid file type: ");
                append(&mut m, chars_of(file_path.as_str()).as_slice());
                Err(string_of(m.as_slice()))
            },
            _ => Ok(XSchemNetlist { file_path }),
        }
    }

    pub closed spec fn path(&self) -> Seq<char> {
        self.file_path@
    }

    /// Where the schematic's testbench would be: `<stem>_tb.sch` in the same
    /// directory. Whether the file exists is for the caller to find out.
    pub fn testbench_path(&self) -> (r: Option<String>)
        ensures
            r is Some <==> testbench_of(self.path()) is Some,
            r matches Some(t) ==> testbench_of(self.path()) == Some(t@),
    {
        match (file_stem(self.file_path.as_str()), parent(self.file_path.as_str())) {
            (Some(stem), Some(dir)) => {
                let mut name = chars_of(stem.as_str());
                append(&mut name, chars_of("_tb.sch").as_slice());
                let n = string_of(name.as_slice());
                Some(join(dir.as_str(), n.as_str()))
            },
            _ => None,
        }
    }

    /// The path of the schematic file.
    pub fn file_path(&self) -> (r: &str)
        ensures
            r@ == self.path(),
    {
        self.file_path.as_str()
    }
}

} // verus!
