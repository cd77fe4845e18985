//! Collecting the files of an archive before it is made.
use vstd::prelude::*;
use crate::compress::{valid_chunk_size, validate_chunk_size};
use crate::crypto::DEFAULT_CHUNK_SIZE;
use crate::error::{ArchiveError, MismallError};
use crate::headers::utf8_bytes;

verus! {

/// The most files an archive takes.
pub const MAX_ARCHIVE_FILES: usize = 1000;

/// The most bytes an archive takes, summed over its files: 10 GiB.
pub const MAX_ARCHIVE_BYTES: u64 = 10737418240;

/// The longest path a file of an archive may have, in UTF-8 bytes.
pub const MAX_PATH_BYTES: usize = 255;

/// The sizes of the files, summed.
pub open spec fn files_size(files: Seq<(String, Vec<u8>)>) -> int
    decreases files.len(),
{
    if files.len() == 0 {
        0
    } else {
        files_size(files.drop_last()) + files.last().1.len()
    }
}

proof fn lemma_files_size_prefix(files: Seq<(String, Vec<u8>)>, i: int)
    requires
        0 <= i <= files.len(),
    ensures
        0 <= files_size(files.take(i)) <= files_size(files),
    decreases files.len(),
{
    if files.len() > 0 {
        if i == files.len() {
            assert(files.take(i) =~= files);
            lemma_files_size_prefix(files.drop_last(), i - 1);
        } else {
            lemma_files_size_prefix(files.drop_last(), i);
            assert(files.drop_last().take(i) =~= files.take(i));
        }
    }
}

/// The error of the archive functions, with neither context nor suggestion.
pub open spec fn archive_failure(error: ArchiveError) -> MismallError {
    MismallError::Archive { error, context: None, suggestion: None }
}

/// Whether `r` is the archive-creation error with the text `text`.
pub open spec fn creation_failure(r: MismallError, text: Seq<char>) -> bool {
    r matches MismallError::Archive { error: ArchiveError::Creation(m), context: None, suggestion: None }
        && m@ == text
}

/// Whether `r` is the error for a chunk size out of bounds.
pub open spec fn chunk_size_failure(r: MismallError, chunk_size: usize) -> bool {
    r matches MismallError::Compression {
        error: crate::error::CompressionError::InvalidChunkSize(c),
        context: None,
        suggestion: None,
    } && c == chunk_size
}

/// Collects files, with the password and chunk size to make an archive of
/// them with: at most `MAX_ARCHIVE_FILES` files of at most
/// `MAX_ARCHIVE_BYTES` bytes together.
pub struct ArchiveBuilder {
    files: Vec<(String, Vec<u8>)>,
    password: Option<String>,
    chunk_size: usize,
}

impl ArchiveBuilder {
    #[verifier::type_invariant]
    spec fn within_limits(self) -> bool {
        &&& self.files.len() <= MAX_ARCHIVE_FILES
        &&& files_size(self.files@) <= MAX_ARCHIVE_BYTES
    }

    /// The files collected so far, in the order they were added.
    pub closed spec fn spec_files(self) -> Seq<(String, Vec<u8>)> {
        self.files@
    }

    /// The password to encrypt with, if any.
    pub closed spec fn spec_password(self) -> Option<String> {
        self.password
    }

    /// The chunk size to encrypt with.
    pub closed spec fn spec_chunk_size(self) -> usize {
        self.chunk_size
    }

    /// No files, no password, the default chunk size.
    pub fn new() -> (b: Self)
        ensures
            b.spec_files().len() == 0,
            b.spec_password() is None,
            b.spec_chunk_size() == DEFAULT_CHUNK_SIZE,
    {
        ArchiveBuilder { files: Vec::new(), password: None, chunk_size: DEFAULT_CHUNK_SIZE }
    }

    /// Adds the file `path` with contents `data`. Refused, in this order of
    /// checks: an empty path, a path longer than `MAX_PATH_BYTES` bytes, a
    /// builder that holds `MAX_ARCHIVE_FILES` files already, and a file that
    /// would take the total over `MAX_ARCHIVE_BYTES`.
    pub fn add_file(self, path: String, data: Vec<u8>) -> (r: Result<Self, MismallError>)
        ensures
            ({
                let n = utf8_bytes(path@).len();
                let count = self.spec_files().len();
                let total = files_size(self.spec_files()) + data.len();
                if n == 0 {
                    r matches Err(e) && creation_failure(e, "File path cannot be empty"@)
                } else if n > MAX_PATH_BYTES {
                    r matches Err(e) && creation_failure(e, "File path too long (max 255 characters)"@)
                } else if count >= MAX_ARCHIVE_FILES {
                    r matches Err(e) && e == archive_failure(ArchiveError::TooManyFiles((count + 1) as usize))
                } else if total > MAX_ARCHIVE_BYTES {
                    r matches Err(e) && e matches MismallError::Archive {
                        error: ArchiveError::TooLarge(t),
                        context: None,
                        suggestion: None,
                    } && (total <= u64::MAX ==> t == total)
                } else {
                    r matches Ok(b) && b.spec_files() == self.spec_files().push((path, data))
                        && b.spec_password() == self.spec_password() && b.spec_chunk_size()
                        == self.spec_chunk_size()
                }
            }),
    {
        proof {
            use_type_invariant(&self);
        }
        let n = path.as_str().as_bytes().len();
        if n == 0 {
            return Err(
                MismallError::Archive {
                    error: ArchiveError::Creation(String::from_str("File path cannot be empty")),
                    context: None,
                    suggestion: None,
                },
            );
        }
        if n > MAX_PATH_BYTES {
            return Err(
                MismallError::Archive {
                    error: ArchiveError::Creation(String::from_str("File path too long (max 255 characters)")),
                    context: None,
                    suggestion: None,
                },
            );
        }
        if self.files.len() >= MAX_ARCHIVE_FILES {
            return Err(
                MismallError::Archive {
                    error: ArchiveError::TooManyFiles(self.files.len() + 1),
                    context: None,
                    suggestion: None,
                },
            );
        }
        let total = self.total_size();
        let len = data.len() as u64;
        if len > MAX_ARCHIVE_BYTES - total {
            return Err(
                MismallError::Archive {
                    error: ArchiveError::TooLarge(total.wrapping_add(len)),
                    context: None,
                    suggestion: None,
                },
            );
        }
        let ArchiveBuilder { files, password, chunk_size } = self;
        let mut files = files;
        let ghost old_files = files@;
        files.push((path, data));
        proof {
            assert(files@.drop_last() =~= old_files);
        }
        Ok(ArchiveBuilder { files, password, chunk_size })
    }

    /// The sizes of the collected files, summed.
    fn total_size(&self) -> (t: u64)
        ensures
            t == files_size(self.spec_files()),
    {
        proof {
            use_type_invariant(self);
        }
        let mut total: u64 = 0;
        let mut i: usize = 0;
        while i < self.files.len()
            invariant
                i <= self.files.len(),
                files_size(self.files@) <= MAX_ARCHIVE_BYTES,
                total == files_size(self.files@.take(i as int)),
            decreases self.files.len() - i,
        {
            proof {
                assert(self.files@.take(i + 1).drop_last() =~= self.files@.take(i as int));
                lemma_files_size_prefix(self.files@, i + 1);
            }
            total = total + self.files[i].1.len() as u64;
            i = i + 1;
        }
        proof {
            assert(self.files@.take(i as int) =~= self.files@);
        }
        total
    }

    /// The builder with `password` to encrypt with.
    pub fn with_password(self, password: String) -> (b: Self)
        ensures
            b.spec_files() == self.spec_files(),
            b.spec_password() == Some(password),
            b.spec_chunk_size() == self.spec_chunk_size(),
    {
        proof {
            use_type_invariant(&self);
        }
        let ArchiveBuilder { files, password: _, chunk_size } = self;
        ArchiveBuilder { files, password: Some(password), chunk_size }
    }

    /// The builder with `chunk_size` to encrypt with.
    pub fn with_chunk_size(self, chunk_size: usize) -> (b: Self)
        ensures
            b.spec_files() == self.spec_files(),
            b.spec_password() == self.spec_password(),
            b.spec_chunk_size() == chunk_size,
    {
        proof {
            use_type_invariant(&self);
        }
        let ArchiveBuilder { files, password, chunk_size: _ } = self;
        ArchiveBuilder { files, password, chunk_size }
    }

    /// The number of collected files.
    pub fn file_count(&self) -> (n: usize)
        ensures
            n == self.spec_files().len(),
    {
        self.files.len()
    }

    /// The path and contents of the `i`-th collected file.
    pub fn file(&self, i: usize) -> (f: (&str, &[u8]))
        requires
            i < self.spec_files().len(),
        ensures
            f.0@ == self.spec_files()[i as int].0@,
            f.1@ == self.spec_files()[i as int].1@,
    {
        (self.files[i].0.as_str(), self.files[i].1.as_slice())
    }

    /// The password to encrypt with, if any.
    pub fn password(&self) -> (p: Option<&str>)
        ensures
            p is None <==> self.spec_password() is None,
            self.spec_password() matches Some(s) ==> p matches Some(q) && q@ == s@,
    {
        match &self.password {
            Some(s) => Some(s.as_str()),
            None => None,
        }
    }

    /// The chunk size to encrypt with.
    pub fn chunk_size(&self) -> (c: usize)
        ensures
            c == self.spec_chunk_size(),
    {
        self.chunk_size
    }

    /// Checks that an archive can be made of the collected files: at least
    /// one file and a valid chunk size. Gives the number of files, their
    /// total size and whether they are to be encrypted.
    pub fn build(self) -> (r: Result<(usize, u64, bool), MismallError>)
        ensures
            self.spec_files().len() == 0 ==> (r matches Err(e) && creation_failure(
                e,
                "Cannot create archive with no files"@,
            )),
            self.spec_files().len() > 0 && !valid_chunk_size(self.spec_chunk_size()) ==> (r matches Err(e)
                && chunk_size_failure(e, self.spec_chunk_size())),
            self.spec_files().len() > 0 && valid_chunk_size(self.spec_chunk_size()) ==> (r matches Ok(v)
                && v.0 == self.spec_files().len() && v.1 == files_size(self.spec_files()) && v.2
                == (self.spec_password() is Some)),
    {
        if self.files.len() == 0 {
            return Err(
                MismallError::Archive {
                    error: ArchiveError::Creation(String::from_str("Cannot create archive with no files")),
                    context: None,
                    suggestion: None,
                },
            );
        }
        match validate_chunk_size(self.chunk_size) {
            Ok(()) => {},
            Err(e) => {
                return Err(e);
            },
        }
        let total = self.total_size();
        Ok((self.files.len(), total, self.password.is_some()))
    }
}

impl Default for ArchiveBuilder {
    fn default() -> (b: Self)
        ensures
            b.spec_files().len() == 0,
            (b.spec_password() is None),
            b.spec_chunk_size() == DEFAULT_CHUNK_SIZE,
    {
        ArchiveBuilder::new()
    }
}

} // verus!
