//! The documentation files that may be served, and the errors of serving them.
use crate::text::{append_chars, append_str, chars_equal, chars_of, string_of, string_texts};
use vstd::prelude::*;
use vstd::std_specs::convert::FromSpecImpl;

verus! {

/// The error of the standard library's input and output. Nothing is known of what
/// such a value holds.
#[verifier::external_type_specification]
#[verifier::external_body]
pub struct ExIoError(std::io::Error);

/// Why a documentation file could not be served.
#[derive(Debug)]
pub enum DocumentationError {
    /// No file lies at the path.
    FileNotFound(String),
    /// The path is not among those that may be served.
    AccessDenied(String),
    /// Reading failed.
    IoError(std::io::Error),
}

/// Whether `path` is one of the documentation files that may be served.
pub open spec fn is_allowed_doc_path(path: Seq<char>) -> bool {
    ||| path == "docs/user-guide.md"@
    ||| path == "docs/api-reference.md"@
    ||| path == "docs/developer-guide-frontend.md"@
    ||| path == "docs/developer-guide-backend.md"@
    ||| path == "docs/Testing.md"@
    ||| path == "docs/analysis-and-data-processing.md"@
    ||| path == "README.md"@
}

/// The documentation files that may be served, as paths below the project's root.
pub fn allowed_doc_paths() -> (paths: Vec<&'static str>)
    ensures
        paths@.len() == 7,
        paths@[0]@ == "docs/user-guide.md"@,
        paths@[1]@ == "docs/api-reference.md"@,
        paths@[2]@ == "docs/developer-guide-frontend.md"@,
        paths@[3]@ == "docs/developer-guide-backend.md"@,
        paths@[4]@ == "docs/Testing.md"@,
        paths@[5]@ == "docs/analysis-and-data-processing.md"@,
        paths@[6]@ == "README.md"@,
        forall|i: int| 0 <= i < paths@.len() ==> is_allowed_doc_path(#[trigger] paths@[i]@),
{
    let mut paths: Vec<&'static str> = Vec::new();
    paths.push("docs/user-guide.md");
    paths.push("docs/api-reference.md");
    paths.push("docs/developer-guide-frontend.md");
    paths.push("docs/developer-guide-backend.md");
    paths.push("docs/Testing.md");
    paths.push("docs/analysis-and-data-processing.md");
    paths.push("README.md");
    paths
}

/// Accepts `file_path` if and only if it is, letter for letter, one of the files
/// that may be served; any other path is refused by name.
pub fn validate_file_path(file_path: &str) -> (checked: Result<(), String>)
    ensures
        checked is Ok <==> is_allowed_doc_path(file_path@),
        checked is Err ==> checked->Err_0@ == "Access denied to file: "@ + file_path@,
{
    let wanted: Vec<char> = chars_of(file_path);
    let allowed: Vec<&'static str> = allowed_doc_paths();
    let mut i: usize = 0;
    while i < allowed.len()
        invariant
            i <= allowed.len(),
            wanted@ == file_path@,
            allowed@.len() == 7,
            allowed@[0]@ == "docs/user-guide.md"@,
            allowed@[1]@ == "docs/api-reference.md"@,
            allowed@[2]@ == "docs/developer-guide-frontend.md"@,
            allowed@[3]@ == "docs/developer-guide-backend.md"@,
            allowed@[4]@ == "docs/Testing.md"@,
            allowed@[5]@ == "docs/analysis-and-data-processing.md"@,
            allowed@[6]@ == "README.md"@,
            forall|k: int| 0 <= k < i ==> allowed@[k]@ != file_path@,
        decreases allowed.len() - i,
    {
        if chars_equal(&chars_of(allowed[i]), &wanted) {
            return Ok(());
        }
        i += 1;
    }
    let mut message: Vec<char> = Vec::new();
    append_str(&mut message, "Access denied to file: ");
    append_chars(&mut message, &wanted);
    Err(string_of(&message))
}

/// Of the first `n` files that may be served, in their order, those whose flag in
/// `present` is set. A file without a flag counts as absent.
pub open spec fn available_among(present: Seq<bool>, n: int) -> Seq<Seq<char>>
    decreases n,
{
    if n <= 0 {
        Seq::empty()
    } else if n <= present.len() && present[n - 1] {
        available_among(present, n - 1).push(doc_path_text(n - 1))
    } else {
        available_among(present, n - 1)
    }
}

/// Lists the documentation files that are present. `present` tells for each file
/// of `allowed_doc_paths`, in its order, whether a regular file lies at its path.
pub fn select_available_files(present: &[bool]) -> (files: Vec<String>)
    ensures
        string_texts(files@) == available_among(present@, 7),
{
    let allowed: Vec<&'static str> = allowed_doc_paths();
    let mut files: Vec<String> = Vec::new();
    let mut i: usize = 0;
    assert(string_texts(files@) =~= available_among(present@, 0));
    while i < 7
        invariant
            i <= 7,
            allowed@.len() == 7,
            forall|j: int| 0 <= j < 7 ==> (#[trigger] allowed@[j])@ == doc_path_text(j),
            string_texts(files@) == available_among(present@, i as int),
        decreases 7 - i,
    {
        if i < present.len() && present[i] {
            let ghost before = string_texts(files@);
            files.push(string_of(&chars_of(allowed[i])));
            assert(string_texts(files@) =~= before.push(doc_path_text(i as int)));
        }
        i += 1;
    }
    files
}

/// The path of the file at place `i` of `allowed_doc_paths`.
pub open spec fn doc_path_text(i: int) -> Seq<char> {
    if i == 0 {
        "docs/user-guide.md"@
    } else if i == 1 {
        "docs/api-reference.md"@
    } else if i == 2 {
        "docs/developer-guide-frontend.md"@
    } else if i == 3 {
        "docs/developer-guide-backend.md"@
    } else if i == 4 {
        "docs/Testing.md"@
    } else if i == 5 {
        "docs/analysis-and-data-processing.md"@
    } else {
        "README.md"@
    }
}

impl DocumentationError {
    /// The message of the error: what went wrong, then the path or the cause.
    pub fn to_string(&self) -> (message: String)
        ensures
            match self {
                DocumentationError::FileNotFound(path) => message@ == "File not found: "@ + path@,
                DocumentationError::AccessDenied(path) => message@ == "Access denied: "@ + path@,
                DocumentationError::IoError(_) => message@.len() >= "IO error: "@.len()
                    && message@.take("IO error: "@.len() as int) == "IO error: "@,
            },
    {
        let mut out: Vec<char> = Vec::new();
        match self {
            DocumentationError::FileNotFound(path) => {
                append_str(&mut out, "File not found: ");
                append_str(&mut out, path.as_str());
            },
            DocumentationError::AccessDenied(path) => {
                append_str(&mut out, "Access denied: ");
                append_str(&mut out, path.as_str());
            },
            DocumentationError::IoError(cause) => {
                let text: String = io_error_text(cause);
                let message: String = io_failure_message(text.as_str());
                assert(message@.take("IO error: "@.len() as int) =~= "IO error: "@);
                return message;
            },
        }
        string_of(&out)
    }
}

/// The message for a failure to read, with the text of its cause.
pub fn io_failure_message(cause: &str) -> (message: String)
    ensures
        message@ == "IO error: "@ + cause@,
{
    let mut out: Vec<char> = chars_of("IO error: ");
    append_str(&mut out, cause);
    string_of(&out)
}

/// The text of an input or output error: `ToString::to_string` of the standard
/// library on `std::io::Error`. Nothing is claimed of the text.
#[verifier::external_body]
fn io_error_text(cause: &std::io::Error) -> (text: String) {
    cause.to_string()
}

impl From<std::io::Error> for DocumentationError {
    fn from(cause: std::io::Error) -> (error: Self) {
        DocumentationError::IoError(cause)
    }
}

impl FromSpecImpl<std::io::Error> for DocumentationError {
    open spec fn obeys_from_spec() -> bool {
        true
    }

    open spec fn from_spec(cause: std::io::Error) -> Self {
        DocumentationError::IoError(cause)
    }
}

} // verus!
