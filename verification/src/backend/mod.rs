//! Storage backends: what they hold, how they fail, and how their blobs are named.

pub mod backend_ext;
pub mod blob;
pub mod dummy;

pub use self::blob::BlobId;

use crate::prelude::BackendId;
use crate::text::{decimal, number_of, reading_undoes_writing, text_order, write_number, Order};
use vstd::prelude::*;

verus! {

/// The text names no kind of backend.
#[derive(Clone, Copy, Debug, PartialEq, Eq, Structural)]
pub struct BackendParseError;

impl BackendParseError {
    /// What is wrong, in words.
    pub fn message(&self) -> (text: String)
        ensures
            text@ == "Unsupported backend kind"@,
    {
        "Unsupported backend kind".to_owned()
    }
}

/// The space of a backend, in bytes.
#[derive(Clone, Copy, Debug, PartialEq, Eq, Structural)]
pub struct BackendStat {
    pub used: u64,
    pub total: u64,
}

/// The space of a backend could not be found out; the cause, in words.
#[derive(Clone, Debug)]
pub struct StatError(pub String);

impl StatError {
    /// What is wrong, in words.
    pub fn message(&self) -> (text: String)
        ensures
            text@ == "Failed to read backend stats"@,
    {
        "Failed to read backend stats".to_owned()
    }
}

/// An operation on a backend failed.
#[derive(Clone, Debug)]
pub struct BackendError<Kind> {
    pub backend_id: BackendId,
    pub kind: Kind,
}

impl<Kind> BackendError<Kind> {
    pub fn new(backend_id: BackendId, kind: Kind) -> (error: Self)
        ensures
            error.backend_id == backend_id,
            error.kind == kind,
    {
        BackendError { backend_id, kind }
    }

    /// The words for a failed operation on a backend.
    pub open spec fn text_for(backend_id: BackendId) -> Seq<char> {
        "Operation on backend with id "@ + decimal(backend_id as nat) + " failed"@
    }

    /// What is wrong, in words.
    pub fn message(&self) -> (text: String)
        ensures
            text@ == Self::text_for(self.backend_id),
    {
        let mut text = "Operation on backend with id ".to_owned();
        text.append(write_number(self.backend_id as u64).as_str());
        text.append(" failed");
        text
    }
}

/// Why a blob could not be uploaded.
#[derive(Clone, Debug)]
pub enum UploadError {
    OutOfSpace,
    BlobDuplicate,
    Other(String),
}

impl UploadError {
    /// What is wrong, in words.
    pub fn message(&self) -> (text: String)
        ensures
            text@ == (match *self {
                UploadError::OutOfSpace => "Backend ran out of space"@,
                UploadError::BlobDuplicate =>
                    "Blob with given id already exists in this backend"@,
                UploadError::Other(cause) => cause@,
            }),
    {
        match self {
            UploadError::OutOfSpace => "Backend ran out of space".to_owned(),
            UploadError::BlobDuplicate =>
                "Blob with given id already exists in this backend".to_owned(),
            UploadError::Other(cause) => cause.clone(),
        }
    }
}

/// Why the blobs could not be listed.
#[derive(Clone, Debug)]
pub enum ListError {
    Other(String),
}

impl ListError {
    /// What is wrong, in words.
    pub fn message(&self) -> (text: String)
        ensures
            text@ == self->Other_0@,
    {
        match self {
            ListError::Other(cause) => cause.clone(),
        }
    }
}

/// Why a blob could not be read.
#[derive(Clone, Debug)]
pub enum GetError {
    BlobNotFound,
    Other(String),
}

impl GetError {
    /// What is wrong, in words.
    pub fn message(&self) -> (text: String)
        ensures
            text@ == (match *self {
                GetError::BlobNotFound => "BlobNotFound"@,
                GetError::Other(cause) => cause@,
            }),
    {
        match self {
            GetError::BlobNotFound => "BlobNotFound".to_owned(),
            GetError::Other(cause) => cause.clone(),
        }
    }
}

/// Why a blob could not be deleted.
#[derive(Clone, Debug)]
pub enum DeleteError {
    BlobNotFound,
    Other(String),
}

impl DeleteError {
    /// What is wrong, in words.
    pub fn message(&self) -> (text: String)
        ensures
            text@ == (match *self {
                DeleteError::BlobNotFound => "BlobNotFound"@,
                DeleteError::Other(cause) => cause@,
            }),
    {
        match self {
            DeleteError::BlobNotFound => "BlobNotFound".to_owned(),
            DeleteError::Other(cause) => cause.clone(),
        }
    }
}

/// Why a backend could not be opened.
#[derive(Clone, Debug)]
pub struct InitError(pub InitFailure);

/// The cause of a failed opening.
#[derive(Clone, Debug)]
pub enum InitFailure {
    BackendRejected,
    Other(String),
}

impl InitError {
    /// What is wrong, in words.
    pub fn message(&self) -> (text: String)
        ensures
            text@ == "Failed to initialize this backend"@,
    {
        "Failed to initialize this backend".to_owned()
    }
}

/// All data required to open a backend
#[derive(Debug, PartialEq, Eq, PartialOrd, Ord)]
pub enum BackendKind {
    /// Dummy backend which stores chunks as files at the given path
    Dummy(String),
    GoogleDrive,
}

impl Clone for BackendKind {
    fn clone(&self) -> (copy: Self)
        ensures
            copy == *self,
    {
        match self {
            BackendKind::Dummy(path) => BackendKind::Dummy(path.clone()),
            BackendKind::GoogleDrive => BackendKind::GoogleDrive,
        }
    }
}

impl BackendKind {
    /// The name of the kind.
    pub fn name(&self) -> (name: String)
        ensures
            name@ == (if *self is Dummy {
                "Dummy"@
            } else {
                "GoogleDrive"@
            }),
    {
        match self {
            BackendKind::Dummy(_) => "Dummy".to_owned(),
            BackendKind::GoogleDrive => "GoogleDrive".to_owned(),
        }
    }
}

/// Just a specifier for the backend kind
#[derive(Clone, Copy, Debug, PartialEq, Eq, PartialOrd, Ord, Structural)]
pub enum BackendKindSpecifier {
    /// Dummy backend which stores chunks as files at the given path
    Dummy,
    GoogleDrive,
}

/// The lower case of a text, as `str::to_lowercase` gives it.
pub uninterp spec fn lower_case(text: Seq<char>) -> Seq<char>;

/// A text of ASCII characters only.
pub open spec fn is_ascii_text(text: Seq<char>) -> bool {
    forall|i: int| 0 <= i < text.len() ==> (#[trigger] text[i]) as int <= 127
}

/// The small letter for a capital letter from A to Z. Any other character stays.
pub open spec fn small_letter(c: char) -> char {
    if 'A' as int <= c as int <= 'Z' as int {
        (c as int - 'A' as int + 'a' as int) as char
    } else {
        c
    }
}

/// A text with the small letter in place of every capital letter from A to Z.
pub open spec fn with_small_letters(text: Seq<char>) -> Seq<char> {
    text.map_values(|c: char| small_letter(c))
}

/// `str::to_lowercase`: the result depends on the text alone. In a text of ASCII characters, the
/// letters from A to Z become small and all else stays. Which lower case belongs to any other
/// character is left to Unicode.
#[verifier::external_body]
fn to_lower_case(text: &str) -> (lower: String)
    ensures
        lower@ == lower_case(text@),
        is_ascii_text(text@) ==> lower@ == with_small_letters(text@),
{
    text.to_lowercase()
}

/// The kind of backend that a name in lower case stands for. The dummy backend is part of debug
/// builds only.
pub open spec fn specified_by(name: Seq<char>, debug: bool) -> Option<BackendKindSpecifier> {
    if debug && name == "dummy"@ {
        Some(BackendKindSpecifier::Dummy)
    } else if name == "google"@ || name == "googledrive"@ {
        Some(BackendKindSpecifier::GoogleDrive)
    } else {
        None
    }
}

impl BackendKindSpecifier {
    /// The kind of backend that a name in lower case stands for. `debug` tells whether this is a
    /// debug build.
    pub fn from_lower_case(name: &str, debug: bool) -> (kind: Result<Self, BackendParseError>)
        ensures
            kind == (match specified_by(name@, debug) {
                Some(k) => Ok::<Self, BackendParseError>(k),
                None => Err(BackendParseError),
            }),
    {
        if debug && text_order(name, "dummy") == Order::Equal {
            Ok(BackendKindSpecifier::Dummy)
        } else if text_order(name, "google") == Order::Equal || text_order(name, "googledrive")
            == Order::Equal {
            Ok(BackendKindSpecifier::GoogleDrive)
        } else {
            Err(BackendParseError)
        }
    }

    /// The kind of backend that a name stands for, in whatever case it is written. `debug` tells
    /// whether this is a debug build. Every kind that is part of the build is read from its own
    /// name.
    pub fn from_str(s: &str, debug: bool) -> (kind: Result<Self, BackendParseError>)
        ensures
            kind == (match specified_by(lower_case(s@), debug) {
                Some(k) => Ok::<Self, BackendParseError>(k),
                None => Err(BackendParseError),
            }),
            is_ascii_text(s@) ==> lower_case(s@) == with_small_letters(s@),
            forall|named: Self|
                s@ == #[trigger] named.text() && (debug || !(named is Dummy)) ==> kind == Ok::<
                    Self,
                    BackendParseError,
                >(named),
    {
        let lower = to_lower_case(s);
        proof {
            assert forall|named: Self|
                s@ == #[trigger] named.text() && (debug || !(named is Dummy)) implies specified_by(
                lower@,
                debug,
            ) == Some(named) by {
                a_kind_is_specified_by_its_name(named, debug);
            }
        }
        BackendKindSpecifier::from_lower_case(lower.as_str(), debug)
    }

    /// The name of the kind.
    pub open spec fn text(self) -> Seq<char> {
        match self {
            BackendKindSpecifier::Dummy => "Dummy"@,
            BackendKindSpecifier::GoogleDrive => "GoogleDrive"@,
        }
    }

    /// The name of the kind.
    pub fn name(&self) -> (name: String)
        ensures
            name@ == self.text(),
    {
        match self {
            BackendKindSpecifier::Dummy => "Dummy".to_owned(),
            BackendKindSpecifier::GoogleDrive => "GoogleDrive".to_owned(),
        }
    }
}

/// The name of a kind that is part of the build, in small letters, stands for that kind.
pub proof fn a_kind_is_specified_by_its_name(kind: BackendKindSpecifier, debug: bool)
    requires
        debug || !(kind is Dummy),
    ensures
        is_ascii_text(kind.text()),
        specified_by(with_small_letters(kind.text()), debug) == Some(kind),
{
    reveal_strlit("Dummy");
    reveal_strlit("GoogleDrive");
    reveal_strlit("dummy");
    reveal_strlit("google");
    reveal_strlit("googledrive");
    match kind {
        BackendKindSpecifier::Dummy => {
            assert(with_small_letters("Dummy"@) =~= "dummy"@);
        },
        BackendKindSpecifier::GoogleDrive => {
            assert(with_small_letters("GoogleDrive"@) =~= "googledrive"@);
            assert("googledrive"@.len() != "dummy"@.len());
        },
    }
}

/// Names that differ in the case of their letters only stand for the same kind.
pub proof fn the_case_of_a_name_does_not_count(a: Seq<char>, b: Seq<char>, debug: bool)
    requires
        a.len() == b.len(),
        forall|i: int| 0 <= i < a.len() ==> small_letter(#[trigger] a[i]) == small_letter(b[i]),
    ensures
        specified_by(with_small_letters(a), debug) == specified_by(with_small_letters(b), debug),
{
    assert(with_small_letters(a) =~= with_small_letters(b));
}

/// A kind is specified by its own names and by no other: the dummy kind by `dummy`, and that in
/// debug builds only, and the kind of Google Drive by `google` and by `googledrive`.
pub proof fn no_other_name_specifies_a_kind(name: Seq<char>, debug: bool)
    ensures
        specified_by(name, debug) == Some(BackendKindSpecifier::Dummy) <==> debug && name
            == "dummy"@,
        specified_by(name, debug) == Some(BackendKindSpecifier::GoogleDrive) <==> name == "google"@
            || name == "googledrive"@,
{
    reveal_strlit("dummy");
    reveal_strlit("google");
    reveal_strlit("googledrive");
    assert("google"@.len() != "dummy"@.len());
    assert("googledrive"@.len() != "dummy"@.len());
}

/// The words for a failed operation name the backend: its id stands between the same words for
/// every backend.
pub proof fn a_failure_names_its_backend<Kind>(backend_id: BackendId)
    ensures
        ({
            let text = BackendError::<Kind>::text_for(backend_id);
            &&& "Operation on backend with id "@.is_prefix_of(text)
            &&& " failed"@.is_suffix_of(text)
            &&& number_of(text.subrange(29, text.len() - 7)) == Some(backend_id as u64)
        }),
{
    let before = "Operation on backend with id "@;
    let behind = " failed"@;
    let number = decimal(backend_id as nat);
    let text = BackendError::<Kind>::text_for(backend_id);
    reveal_strlit("Operation on backend with id ");
    reveal_strlit(" failed");
    reading_undoes_writing(backend_id as u64);
    assert(text.subrange(0, 29) =~= before);
    assert(text.subrange(text.len() - 7, text.len() as int) =~= behind);
    assert(text.subrange(29, text.len() - 7) =~= number);
}

} // verus!
