//! The decisions of the dummy backend, which stores blobs as files in a directory.

use crate::backend::backend_ext::blob_names;
use crate::backend::blob::{blob_name, suffix_uuid, uuid_of_text, BlobName};
use crate::backend::{
    BackendError, BackendKind, BackendStat, BlobId, DeleteError, GetError, InitError, InitFailure,
    StatError, UploadError,
};
use crate::prelude::{names, BackendId};
use vstd::prelude::*;

verus! {

/// The bytes that a dummy backend can store: 10GiB
pub const DUMMY_TOTAL: u64 = 10 * 1024 * 1024 * 1024;

/// What is known of an entry of the directory.
#[derive(Clone, Copy, Debug, PartialEq, Eq, Structural)]
pub struct DirEntryMeta {
    pub is_file: bool,
    pub size: u64,
}

/// A failed access to a file: whether there is no such file, and the cause in words.
#[derive(Debug)]
pub struct FileFault {
    pub not_found: bool,
    pub cause: String,
}

/// Whether a directory can become a dummy backend.
#[derive(Clone, Copy, Debug, PartialEq, Eq, Structural)]
pub enum DirValidation {
    NotADir,
    NotEmpty,
    Valid,
}

impl DirValidation {
    /// What is wrong with the directory, in words, if something is.
    pub fn message(&self) -> (text: Option<String>)
        ensures
            match *self {
                DirValidation::NotADir => text matches Some(t) && t@ == "Path is not a dir"@,
                DirValidation::NotEmpty => text matches Some(t) && t@ == "Dir is not empty"@,
                DirValidation::Valid => text is None,
            },
    {
        match self {
            DirValidation::NotADir => Some("Path is not a dir".to_owned()),
            DirValidation::NotEmpty => Some("Dir is not empty".to_owned()),
            DirValidation::Valid => None,
        }
    }
}

/// The bytes of all files among the entries.
pub open spec fn file_bytes(entries: Seq<DirEntryMeta>) -> int
    decreases entries.len(),
{
    if entries.len() == 0 {
        0
    } else {
        file_bytes(entries.drop_last()) + if entries.last().is_file {
            entries.last().size as int
        } else {
            0
        }
    }
}

proof fn lemma_file_bytes_grow(entries: Seq<DirEntryMeta>, n: int)
    requires
        0 <= n <= entries.len(),
    ensures
        0 <= file_bytes(entries.take(n)) <= file_bytes(entries),
    decreases entries.len(),
{
    if n == entries.len() {
        assert(entries.take(n) =~= entries);
        if n > 0 {
            lemma_file_bytes_grow(entries.drop_last(), n - 1);
        }
    } else {
        assert(entries.drop_last().take(n) =~= entries.take(n));
        lemma_file_bytes_grow(entries.drop_last(), n);
    }
}

/// Making and opening dummy backends.
pub struct DummyImpl;

impl DummyImpl {
    /// Opens the directory at a path, given whether it is a directory or why that is not known.
    pub fn init(id: BackendId, ctx: String, is_dir: Result<bool, String>) -> (backend: Result<
        DummyBackend,
        BackendError<InitError>,
    >)
        ensures
            match is_dir {
                Ok(true) => backend matches Ok(b) && b@.id == id && b@.root == ctx@,
                Ok(false) => backend == Err::<DummyBackend, BackendError<InitError>>(
                    (BackendError {
                        backend_id: id,
                        kind: InitError(InitFailure::BackendRejected),
                    }),
                ),
                Err(cause) => backend == Err::<DummyBackend, BackendError<InitError>>(
                    (BackendError { backend_id: id, kind: InitError(InitFailure::Other(cause)) }),
                ),
            },
    {
        match is_dir {
            Ok(is_dir) => {
                if !is_dir {
                    return Err(BackendError::new(id, InitError(InitFailure::BackendRejected)));
                }
            },
            Err(cause) => {
                return Err(BackendError::new(id, InitError(InitFailure::Other(cause))));
            },
        }
        Ok(DummyBackend { id, root: ctx })
    }

    /// Whether a path can become a dummy backend: it has to be an empty directory.
    pub fn validate(is_dir: bool, entries: usize) -> (validation: DirValidation)
        ensures
            validation == (if !is_dir {
                DirValidation::NotADir
            } else if entries != 0 {
                DirValidation::NotEmpty
            } else {
                DirValidation::Valid
            }),
    {
        if !is_dir {
            return DirValidation::NotADir;
        }
        if entries != 0 {
            return DirValidation::NotEmpty;
        }
        DirValidation::Valid
    }

    /// What a new dummy backend at a path is opened with.
    pub fn generate(path: String) -> (kind: BackendKind)
        ensures
            kind == BackendKind::Dummy(path),
    {
        BackendKind::Dummy(path)
    }
}

/// A dummy backend.
#[derive(Debug)]
pub struct DummyBackend {
    id: BackendId,
    root: String,
}

/// A dummy backend, as mathematical data.
pub struct DummyView {
    pub id: BackendId,
    pub root: Seq<char>,
}

impl View for DummyBackend {
    type V = DummyView;

    closed spec fn view(&self) -> DummyView {
        DummyView { id: self.id, root: self.root@ }
    }
}

/// The names that file names stand for.
pub open spec fn blobs_named(files: Seq<Seq<char>>) -> Seq<BlobName> {
    files.map_values(|f: Seq<char>| blob_name(f, uuid_of_text(f), suffix_uuid(f)))
}

impl DummyBackend {
    pub fn id(&self) -> (id: BackendId)
        ensures
            id == self@.id,
    {
        self.id
    }

    /// The directory that holds the files.
    pub fn root(&self) -> (root: &str)
        ensures
            root@ == self@.root,
    {
        self.root.as_str()
    }

    /// The space of the backend, given the entries of its directory.
    pub fn stat(&self, entries: &Vec<DirEntryMeta>) -> (stat: BackendStat)
        requires
            file_bytes(entries@) <= u64::MAX,
        ensures
            stat.used == file_bytes(entries@),
            stat.total == DUMMY_TOTAL,
    {
        let mut total_size: u64 = 0;
        let mut i: usize = 0;
        proof {
            assert(entries@.take(0) =~= Seq::<DirEntryMeta>::empty());
        }
        while i < entries.len()
            invariant
                i <= entries.len(),
                file_bytes(entries@) <= u64::MAX,
                total_size == file_bytes(entries@.take(i as int)),
            decreases entries.len() - i,
        {
            proof {
                assert(entries@.take(i + 1).drop_last() =~= entries@.take(i as int));
                assert(entries@.take(i + 1).last() == entries@[i as int]);
                lemma_file_bytes_grow(entries@, i + 1);
            }
            if entries[i].is_file {
                total_size = total_size + entries[i].size;
            }
            i += 1;
        }
        proof {
            assert(entries@.take(i as int) =~= entries@);
        }
        BackendStat { used: total_size, total: DUMMY_TOTAL }
    }

    /// The directory could not be read.
    pub fn stat_failed(&self, cause: String) -> (error: BackendError<StatError>)
        ensures
            error == (BackendError { backend_id: self@.id, kind: StatError(cause) }),
    {
        BackendError::new(self.id, StatError(cause))
    }

    /// Whether a blob of so many bytes can be written, given the space of the backend, and
    /// whether there is such a blob already.
    pub fn check_upload(&self, stat: BackendStat, length: u64, exists: bool) -> (result: Result<
        (),
        BackendError<UploadError>,
    >)
        requires
            stat.used + length <= u64::MAX,
        ensures
            result == (if stat.used + length > stat.total {
                Err(BackendError { backend_id: self@.id, kind: UploadError::OutOfSpace })
            } else if exists {
                Err(BackendError { backend_id: self@.id, kind: UploadError::BlobDuplicate })
            } else {
                Ok::<(), BackendError<UploadError>>(())
            }),
    {
        if stat.used + length > stat.total {
            return Err(BackendError::new(self.id, UploadError::OutOfSpace));
        }
        if exists {
            return Err(BackendError::new(self.id, UploadError::BlobDuplicate));
        }
        Ok(())
    }

    /// The blobs that the files of the directory hold, given the names of the files. A file that
    /// has the text of a valid blob name for its own name is listed under that blob name, and one
    /// with a dot in its name is not listed under a UUID.
    pub fn list(&self, files: &Vec<String>) -> (blobs: Vec<BlobId>)
        ensures
            blob_names(blobs@) == blobs_named(names(files@)),
            forall|i: int, written: BlobName|
                0 <= i < files.len() && #[trigger] files@[i]@ == #[trigger] written.text()
                    && !(written is Other) ==> blobs@[i]@ == written,
            forall|i: int|
                0 <= i < files.len() && files@[i]@.contains('.') ==> !((#[trigger] blobs@[i])@ is Uuid),
    {
        let mut blobs: Vec<BlobId> = Vec::new();
        let ghost wanted = blobs_named(names(files@));
        let mut i: usize = 0;
        while i < files.len()
            invariant
                i <= files.len(),
                wanted == blobs_named(names(files@)),
                blobs.len() == i,
                forall|k: int| 0 <= k < i ==> (#[trigger] blobs@[k])@ == wanted[k],
                forall|k: int, written: BlobName|
                    0 <= k < i && #[trigger] files@[k]@ == #[trigger] written.text()
                        && !(written is Other) ==> blobs@[k]@ == written,
                forall|k: int|
                    0 <= k < i && files@[k]@.contains('.') ==> !((#[trigger] blobs@[k])@ is Uuid),
            decreases files.len() - i,
        {
            match BlobId::from_str(files[i].as_str()) {
                Ok(id) => {
                    blobs.push(id);
                },
                Err(_) => {},
            }
            i += 1;
        }
        proof {
            assert(blob_names(blobs@) =~= wanted);
        }
        blobs
    }

    /// Why a blob could not be read.
    pub fn get_failed(&self, fault: FileFault) -> (error: BackendError<GetError>)
        ensures
            error.backend_id == self@.id,
            error.kind == (if fault.not_found {
                GetError::BlobNotFound
            } else {
                GetError::Other(fault.cause)
            }),
    {
        if fault.not_found {
            BackendError::new(self.id, GetError::BlobNotFound)
        } else {
            BackendError::new(self.id, GetError::Other(fault.cause))
        }
    }

    /// Why a blob could not be deleted.
    pub fn delete_failed(&self, fault: FileFault) -> (error: BackendError<DeleteError>)
        ensures
            error.backend_id == self@.id,
            error.kind == (if fault.not_found {
                DeleteError::BlobNotFound
            } else {
                DeleteError::Other(fault.cause)
            }),
    {
        if fault.not_found {
            BackendError::new(self.id, DeleteError::BlobNotFound)
        } else {
            BackendError::new(self.id, DeleteError::Other(fault.cause))
        }
    }
}

/// A dummy backend uses as many bytes as its files have, and no others, and has ten gibibytes.
pub proof fn only_files_take_up_bytes(entries: Seq<DirEntryMeta>)
    ensures
        file_bytes(entries) == entries.fold_left(
            0int,
            |sum: int, entry: DirEntryMeta|
                if entry.is_file {
                    sum + entry.size
                } else {
                    sum
                },
        ),
        DUMMY_TOTAL == 10 * 1024 * 1024 * 1024,
    decreases entries.len(),
{
    if entries.len() > 0 {
        only_files_take_up_bytes(entries.drop_last());
    }
}

/// Every file is listed, in the order of the files, under the name that its own name stands for.
pub proof fn every_file_is_listed(files: Seq<Seq<char>>)
    ensures
        blobs_named(files).len() == files.len(),
        forall|i: int|
            0 <= i < files.len() ==> #[trigger] blobs_named(files)[i] == blob_name(
                files[i],
                uuid_of_text(files[i]),
                suffix_uuid(files[i]),
            ),
{
}

} // verus!
