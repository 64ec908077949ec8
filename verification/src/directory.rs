//! The migrations of a directory, in the order of their versions.
use vstd::prelude::*;
use vstd::string::*;

use crate::cql_file::{file_outcome, read_outcome, CqlFile, FileRecord};
use crate::error::{outcome, CqlFileError, ScanError, OUT_OF_RANGE};
use crate::filename::version_in;
use crate::text::chars_of;

verus! {

/// An entry of a directory.
#[derive(Debug)]
pub struct DirEntry {
    /// The path of the entry.
    pub path: String,
    /// The last part of the path, if it names an entry. Parts of it that are not
    /// text are replaced.
    pub file_name: Option<String>,
    /// The last part of the path as the file system has it, by which entries are
    /// ordered; empty where the path does not name an entry.
    pub raw_name: Vec<u8>,
    /// Whether the entry is a file.
    pub is_file: bool,
    /// What reading the entry gave: its bytes, or the text of the error. It is
    /// looked at only where the entry is a migration.
    pub content: Result<Vec<u8>, String>,
}

/// What listing a directory gave, written over the type `L` of the row of entries
/// that it holds: a `Vec` in running code, a `Seq` in contracts.
#[derive(Debug)]
pub enum DirListing<L = Vec<Result<DirEntry, String>>> {
    /// The directory could not be opened.
    NotFound,
    /// The entries, in any order; for one that could not be read, the text of the
    /// error.
    Listed { listed: L },
}

impl View for DirListing<Vec<Result<DirEntry, String>>> {
    type V = DirListing<Seq<Result<DirEntry, String>>>;

    open spec fn view(&self) -> DirListing<Seq<Result<DirEntry, String>>> {
        match self {
            DirListing::NotFound => DirListing::NotFound,
            DirListing::Listed { listed } => DirListing::Listed { listed: listed@ },
        }
    }
}

/// The name of an entry. An entry without one counts as one with an empty name.
pub open spec fn entry_name(entry: DirEntry) -> Seq<char> {
    match entry.file_name {
        Some(name) => name@,
        None => seq![],
    }
}

/// `name` ends in `.cql`, with something in front of the dot.
pub open spec fn has_cql_extension(name: Seq<char>) -> bool {
    let n = name.len() as int;
    n > 4 && name[n - 4] == '.' && name[n - 3] == 'c' && name[n - 2] == 'q' && name[n - 1] == 'l'
}

/// An entry takes part in the migration if it is a file whose extension is `cql`
/// and whose name does not begin with `_`.
pub open spec fn is_inclusive(entry: DirEntry) -> bool {
    &&& entry.is_file
    &&& has_cql_extension(entry_name(entry))
    &&& entry_name(entry)[0] != '_'
}

/// Does `entry` take part in the migration?
pub fn is_inclusive_cql_filename(entry: &DirEntry) -> (yes: bool)
    ensures
        yes == is_inclusive(*entry),
{
    if !entry.is_file {
        return false;
    }
    match &entry.file_name {
        None => false,
        Some(file_name) => {
            let name: Vec<char> = chars_of(file_name.as_str());
            let n: usize = name.len();
            n > 4 && name[n - 4] == '.' && name[n - 3] == 'c' && name[n - 2] == 'q' && name[n - 1]
                == 'l' && name[0] != '_'
        },
    }
}

// ---------------------------------------------------------------------------
// The order of names
// ---------------------------------------------------------------------------

/// `a` stands in front of `b` or is `b`, in the order of a dictionary whose
/// letters are the bytes.
pub open spec fn name_le(a: Seq<u8>, b: Seq<u8>) -> bool
    decreases a.len(),
{
    if a.len() == 0 {
        true
    } else if b.len() == 0 {
        false
    } else if a[0] == b[0] {
        name_le(a.drop_first(), b.drop_first())
    } else {
        a[0] < b[0]
    }
}

fn is_name_le(a: &Vec<u8>, b: &Vec<u8>) -> (yes: bool)
    ensures
        yes == name_le(a@, b@),
{
    let mut i: usize = 0;
    assert(a@.skip(0) == a@ && b@.skip(0) == b@);
    while i < a.len()
        invariant
            i <= a@.len(),
            i <= b@.len(),
            name_le(a@, b@) == name_le(a@.skip(i as int), b@.skip(i as int)),
        decreases a@.len() - i,
    {
        if i >= b.len() {
            return false;
        }
        if a[i] != b[i] {
            return a[i] < b[i];
        }
        assert(a@.skip(i as int).drop_first() == a@.skip(i + 1));
        assert(b@.skip(i as int).drop_first() == b@.skip(i + 1));
        i += 1;
    }
    true
}

/// `sorted`, with `entry` put behind every entry whose name is not greater.
pub open spec fn insert_entry(sorted: Seq<DirEntry>, entry: DirEntry) -> Seq<DirEntry>
    decreases sorted.len(),
{
    if sorted.len() == 0 || name_le(sorted.last().raw_name@, entry.raw_name@) {
        sorted.push(entry)
    } else {
        insert_entry(sorted.drop_last(), entry).push(sorted.last())
    }
}

/// The entries that take part in the migration, in the order of their names.
pub open spec fn migrations(entries: Seq<DirEntry>) -> Seq<DirEntry>
    decreases entries.len(),
{
    if entries.len() == 0 {
        seq![]
    } else if is_inclusive(entries.last()) {
        insert_entry(migrations(entries.drop_last()), entries.last())
    } else {
        migrations(entries.drop_last())
    }
}

fn insert_by_name(sorted: &mut Vec<DirEntry>, entry: DirEntry)
    ensures
        final(sorted)@ == insert_entry(old(sorted)@, entry),
{
    let ghost all = sorted@;
    let mut i: usize = sorted.len();
    assert(all.take(i as int) == all);
    assert(insert_entry(all, entry) + all.skip(i as int) == insert_entry(all, entry));
    while i > 0
        invariant
            i <= sorted@.len(),
            sorted@ == all,
            insert_entry(all, entry) == insert_entry(all.take(i as int), entry) + all.skip(i as int),
        ensures
            i <= sorted@.len(),
            sorted@ == all,
            insert_entry(all, entry) == insert_entry(all.take(i as int), entry) + all.skip(i as int),
            insert_entry(all.take(i as int), entry) == all.take(i as int).push(entry),
        decreases i,
    {
        if is_name_le(&sorted[i - 1].raw_name, &entry.raw_name) {
            break;
        }
        proof {
            let kept = all.take(i as int);
            assert(kept.drop_last() == all.take(i - 1));
            assert(insert_entry(all.take(i - 1), entry).push(kept.last()) + all.skip(i as int)
                == insert_entry(all.take(i - 1), entry) + all.skip(i - 1));
        }
        i -= 1;
    }
    sorted.insert(i, entry);
    assert(sorted@ == all.take(i as int).push(entry) + all.skip(i as int));
}

// ---------------------------------------------------------------------------
// Scanning a directory
// ---------------------------------------------------------------------------

/// The entries that a listing holds, or the first error in it.
pub open spec fn listed_entries(listed: Seq<Result<DirEntry, String>>) -> Result<
    Seq<DirEntry>,
    Seq<char>,
>
    decreases listed.len(),
{
    if listed.len() == 0 {
        Ok(seq![])
    } else {
        match (listed_entries(listed.drop_last()), listed.last()) {
            (Err(error), _) => Err(error),
            (Ok(_), Err(error)) => Err(error@),
            (Ok(entries), Ok(entry)) => Ok(entries.push(entry)),
        }
    }
}

/// What scanning `directory` gives, where listing it gave `listing`.
pub open spec fn scan_outcome(
    directory: Seq<char>,
    listing: DirListing<Seq<Result<DirEntry, String>>>,
) -> Result<Seq<DirEntry>, ScanError<Seq<char>>> {
    match listing {
        DirListing::NotFound => Err(ScanError::DirectoryNotFound { directory }),
        DirListing::Listed { listed } => match listed_entries(listed) {
            Err(error) => Err(ScanError::UnreadableEntry { error }),
            Ok(entries) => if migrations(entries).len() == 0 {
                Err(ScanError::NoCqlFiles { directory })
            } else {
                Ok(migrations(entries))
            },
        },
    }
}

/// An error at the front of a listing is the error of the whole listing.
proof fn lemma_first_error(listed: Seq<Result<DirEntry, String>>, k: int)
    requires
        0 <= k <= listed.len(),
        listed_entries(listed.take(k)) is Err,
    ensures
        listed_entries(listed) == listed_entries(listed.take(k)),
    decreases listed.len(),
{
    if k < listed.len() {
        assert(listed.drop_last().take(k) == listed.take(k));
        lemma_first_error(listed.drop_last(), k);
    } else {
        assert(listed.take(k) == listed);
    }
}

/// Finds the migrations of `directory`, given what listing it gave, and puts them
/// in the order of their names.
pub fn read_cql_file_paths(directory: String, listing: DirListing) -> (paths: Result<
    Vec<DirEntry>,
    ScanError,
>)
    ensures
        match paths {
            Ok(sorted) => scan_outcome(directory@, listing@) == Ok::<
                Seq<DirEntry>,
                ScanError<Seq<char>>,
            >(sorted@),
            Err(error) => scan_outcome(directory@, listing@) == Err::<
                Seq<DirEntry>,
                ScanError<Seq<char>>,
            >(error.deep_view()),
        },
{
    let listed: Vec<Result<DirEntry, String>> = match listing {
        DirListing::NotFound => {
            return Err(ScanError::DirectoryNotFound { directory });
        },
        DirListing::Listed { listed } => listed,
    };
    let ghost all = listed@;
    let ghost mut entries = Seq::<DirEntry>::empty();
    let mut sorted: Vec<DirEntry> = Vec::new();
    for item in it: listed
        invariant
            it.seq() == all,
            listing == (DirListing::Listed { listed }),
            listed@ == all,
            listed_entries(all.take(it.index() as int)) == Ok::<Seq<DirEntry>, Seq<char>>(entries),
            sorted@ == migrations(entries),
    {
        assert(all.take(it.index() + 1).drop_last() == all.take(it.index() as int));
        match item {
            Err(error) => {
                proof {
                    lemma_first_error(all, it.index() + 1);
                }
                return Err(ScanError::UnreadableEntry { error });
            },
            Ok(entry) => {
                proof {
                    assert(entries.push(entry).drop_last() == entries);
                    entries = entries.push(entry);
                }
                if is_inclusive_cql_filename(&entry) {
                    insert_by_name(&mut sorted, entry);
                }
            },
        }
    }
    assert(all.take(all.len() as int) == all);
    if sorted.len() == 0 {
        return Err(ScanError::NoCqlFiles { directory });
    }
    Ok(sorted)
}

// ---------------------------------------------------------------------------
// Taking up the files in turn
// ---------------------------------------------------------------------------

/// What is said of a file whose version is not the expected one; `previous` is
/// the name of the file in front of it.
pub open spec fn version_error(
    previous: Option<Seq<char>>,
    file: FileRecord,
    expected: i16,
) -> CqlFileError<Seq<char>> {
    if file.version == expected - 1 {
        match previous {
            None => CqlFileError::PreviousIndexInvalid { cause: OUT_OF_RANGE@ },
            Some(previous) => CqlFileError::RepeatedVersion {
                previous,
                filename: file.filename,
                expected,
            },
        }
    } else {
        CqlFileError::MissingVersion { filename: file.filename, expected }
    }
}

/// What becomes of the file that `entry` names.
pub open spec fn entry_outcome(entry: DirEntry) -> Result<FileRecord, CqlFileError<Seq<char>>> {
    file_outcome(
        entry.path@,
        entry_name(entry),
        version_in(entry_name(entry)),
        read_outcome(entry.content),
    )
}

/// The files that `entries` name from the `k`th on, or the first error. The file
/// of the entry at `k` has to have the version `k + 1`.
pub open spec fn files_from(entries: Seq<DirEntry>, k: int) -> Result<
    Seq<FileRecord>,
    CqlFileError<Seq<char>>,
>
    decreases entries.len() - k,
{
    if k >= entries.len() {
        Ok(seq![])
    } else {
        match entry_outcome(entries[k]) {
            Err(error) => Err(error),
            Ok(file) => if file.version != k + 1 {
                let previous = if k > 0 {
                    Some(entry_name(entries[k - 1]))
                } else {
                    None
                };
                Err(version_error(previous, file, (k + 1) as i16))
            } else {
                match files_from(entries, k + 1) {
                    Err(error) => Err(error),
                    Ok(rest) => Ok(seq![file] + rest),
                }
            },
        }
    }
}

/// Takes up `file` behind `files`, if its version is the next one in turn. The
/// first version is 1.
pub fn take_up(files: &mut Vec<CqlFile>, file: CqlFile) -> (taken: Result<(), CqlFileError>)
    requires
        old(files)@.len() < i16::MAX,
    ensures
        match taken {
            Ok(()) => file.version == old(files)@.len() + 1 && final(files)@ == old(files)@.push(
                file,
            ),
            Err(error) => file.version != old(files)@.len() + 1 && final(files)@ == old(files)@
                && error.deep_view() == version_error(
                if old(files)@.len() > 0 {
                    Some(old(files)@.last().filename@)
                } else {
                    None
                },
                file.deep_view(),
                (old(files)@.len() + 1) as i16,
            ),
        },
{
    let count: usize = files.len();
    let expected: i16 = count as i16 + 1;
    if file.version == expected {
        files.push(file);
        Ok(())
    } else if file.version == expected - 1 {
        if count == 0 {
            let mut cause: String = String::new();
            cause.append(OUT_OF_RANGE);
            Err(CqlFileError::PreviousIndexInvalid { cause })
        } else {
            let previous: String = files[count - 1].filename.clone();
            Err(CqlFileError::RepeatedVersion { previous, filename: file.filename, expected })
        }
    } else {
        Err(CqlFileError::MissingVersion { filename: file.filename, expected })
    }
}

/// What becomes of `directory`, where listing it gave `listing`.
pub open spec fn directory_outcome(
    directory: Seq<char>,
    listing: DirListing<Seq<Result<DirEntry, String>>>,
) -> Result<Seq<FileRecord>, CqlFileError<Seq<char>>> {
    match scan_outcome(directory, listing) {
        Err(cause) => Err(CqlFileError::ScanFailed { cause }),
        Ok(entries) => files_from(entries, 0),
    }
}

/// Takes up the migrations of `directory`, given what listing it and reading its
/// files gave: in the order of their names, which has to be that of their
/// versions, from 1 on without a gap.
pub fn files_from_dir(directory: String, listing: DirListing) -> (files: Result<
    Vec<CqlFile>,
    CqlFileError,
>)
    ensures
        outcome(files) == directory_outcome(directory@, listing@),
        files matches Ok(taken) ==> 1 <= taken@.len() <= 999,
{
    let entries: Vec<DirEntry> = match read_cql_file_paths(directory, listing) {
        Err(cause) => {
            return Err(CqlFileError::ScanFailed { cause });
        },
        Ok(entries) => entries,
    };
    let ghost all = entries@;
    let mut files: Vec<CqlFile> = Vec::new();
    for entry in it: entries
        invariant
            it.seq() == all,
            scan_outcome(directory@, listing@) == Ok::<Seq<DirEntry>, ScanError<Seq<char>>>(all),
            files@.len() == it.index() <= 999,
            files@.len() > 0 ==> files@.last().filename@ == entry_name(all[it.index() - 1]),
            files_from(all, 0) == (match files_from(all, it.index() as int) {
                Ok(rest) => Ok(files.deep_view() + rest),
                Err(error) => Err(error),
            }),
    {
        let ghost k = it.index() as int;
        let ghost before = files.deep_view();
        let filename: String = match entry.file_name {
            Some(name) => name,
            None => String::new(),
        };
        match CqlFile::from_path(entry.path, filename, entry.content) {
            Err(error) => {
                return Err(error);
            },
            Ok(file) => {
                match take_up(&mut files, file) {
                    Err(error) => {
                        return Err(error);
                    },
                    Ok(()) => {},
                }
                proof {
                    assert(files.deep_view() == before.push(file.deep_view()));
                    if let Ok(rest) = files_from(all, k + 1) {
                        assert(before + (seq![file.deep_view()] + rest) == files.deep_view() + rest);
                    }
                }
            },
        }
    }
    assert(files.deep_view() + Seq::<FileRecord>::empty() == files.deep_view());
    Ok(files)
}

} // verus!
