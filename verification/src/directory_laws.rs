//! What holds of the migrations of every directory.
use vstd::prelude::*;

use crate::cql_file::{file_outcome, CqlFile, FileRecord};
use crate::cql_file_laws::law_what_is_recorded;
use crate::directory::{
    directory_outcome, entry_outcome, files_from, insert_entry, is_inclusive, listed_entries,
    migrations, name_le, scan_outcome, version_error, DirEntry, DirListing,
};
use crate::error::{outcome, CqlFileError, ScanError};
use crate::filename::version_in;

verus! {

// ---------------------------------------------------------------------------
// Versions
// ---------------------------------------------------------------------------

proof fn lemma_files_from(entries: Seq<DirEntry>, k: int)
    requires
        0 <= k <= entries.len(),
    ensures
        files_from(entries, k) matches Ok(files) ==> {
            &&& files.len() == entries.len() - k
            &&& forall|i: int|
                0 <= i < files.len() ==> (#[trigger] files[i]).version == k + i + 1
                    && entry_outcome(entries[k + i]) == Ok::<FileRecord, CqlFileError<Seq<char>>>(
                    files[i],
                )
        },
    decreases entries.len() - k,
{
    if k < entries.len() {
        lemma_files_from(entries, k + 1);
        if let Ok(files) = files_from(entries, k) {
            let rest = files_from(entries, k + 1)->Ok_0;
            assert forall|i: int| 0 <= i < files.len() implies (#[trigger] files[i]).version == k + i
                + 1 && entry_outcome(entries[k + i]) == Ok::<FileRecord, CqlFileError<Seq<char>>>(
                files[i],
            ) by {
                if i > 0 {
                    assert(files[i] == rest[i - 1]);
                }
            }
        }
    }
}

/// The files of a directory that is taken up have the versions 1, 2, 3 and so on,
/// without a gap and without a repetition.
pub proof fn law_versions_count_up(
    directory: Seq<char>,
    listing: DirListing<Seq<Result<DirEntry, String>>>,
)
    ensures
        directory_outcome(directory, listing) matches Ok(files) ==> {
            &&& files.len() > 0
            &&& forall|i: int| 0 <= i < files.len() ==> (#[trigger] files[i]).version == i + 1
        },
{
    if let Ok(entries) = scan_outcome(directory, listing) {
        lemma_files_from(entries, 0);
    }
}

// ---------------------------------------------------------------------------
// The order of names
// ---------------------------------------------------------------------------

proof fn lemma_name_le_total(a: Seq<u8>, b: Seq<u8>)
    ensures
        name_le(a, b) || name_le(b, a),
        name_le(a, b) && name_le(b, a) ==> a == b,
    decreases a.len(),
{
    if a.len() > 0 && b.len() > 0 && a[0] == b[0] {
        lemma_name_le_total(a.drop_first(), b.drop_first());
        if a.drop_first() == b.drop_first() {
            assert(a == seq![a[0]] + a.drop_first());
            assert(b == seq![b[0]] + b.drop_first());
        }
    } else if a.len() == 0 && b.len() == 0 {
        assert(a == b);
    }
}

proof fn lemma_name_le_transitive(a: Seq<u8>, b: Seq<u8>, c: Seq<u8>)
    requires
        name_le(a, b),
        name_le(b, c),
    ensures
        name_le(a, c),
    decreases a.len(),
{
    if a.len() > 0 && a[0] == b[0] && b[0] == c[0] {
        lemma_name_le_transitive(a.drop_first(), b.drop_first(), c.drop_first());
    }
}

/// The names of `entries` are in order.
pub open spec fn in_name_order(entries: Seq<DirEntry>) -> bool {
    forall|i: int, j: int|
        0 <= i <= j < entries.len() ==> name_le(
            (#[trigger] entries[i]).raw_name@,
            (#[trigger] entries[j]).raw_name@,
        )
}

/// No two of `entries` have the same name.
pub open spec fn names_differ(entries: Seq<DirEntry>) -> bool {
    forall|i: int, j: int|
        0 <= i < j < entries.len() ==> (#[trigger] entries[i]).raw_name@ != (
        #[trigger] entries[j]).raw_name@
}

/// The entries that take part in the migration, in the order of the listing.
pub open spec fn taking_part(entries: Seq<DirEntry>) -> Seq<DirEntry> {
    entries.filter(|e: DirEntry| is_inclusive(e))
}

proof fn lemma_insert_entry(sorted: Seq<DirEntry>, entry: DirEntry)
    requires
        in_name_order(sorted),
    ensures
        in_name_order(insert_entry(sorted, entry)),
        insert_entry(sorted, entry).to_multiset() == sorted.to_multiset().insert(entry),
        insert_entry(sorted, entry).len() == sorted.len() + 1,
        forall|m: DirEntry| #[trigger]
            insert_entry(sorted, entry).contains(m) <==> sorted.contains(m) || m == entry,
    decreases sorted.len(),
{
    broadcast use vstd::seq_lib::group_to_multiset_ensures;

    let all = insert_entry(sorted, entry);
    let name = entry.raw_name@;
    if sorted.len() == 0 || name_le(sorted.last().raw_name@, name) {
        assert(all == sorted.push(entry));
        assert forall|i: int, j: int| 0 <= i <= j < all.len() implies name_le(
            (#[trigger] all[i]).raw_name@,
            (#[trigger] all[j]).raw_name@,
        ) by {
            if i == j {
                lemma_name_le_total(all[i].raw_name@, all[i].raw_name@);
            } else if j == sorted.len() {
                assert(name_le(sorted[i].raw_name@, sorted.last().raw_name@));
                lemma_name_le_transitive(
                    all[i].raw_name@,
                    sorted.last().raw_name@,
                    all[j].raw_name@,
                );
            } else {
                assert(all[i] == sorted[i] && all[j] == sorted[j]);
            }
        }
        assert forall|m: DirEntry| #[trigger] all.contains(m) <==> sorted.contains(m) || m
            == entry by {
            if sorted.contains(m) {
                assert(all[sorted.index_of(m)] == m);
            }
            if m == entry {
                assert(all[sorted.len() as int] == m);
            }
            if all.contains(m) {
                let k = all.index_of(m);
                assert(k < sorted.len() ==> sorted[k] == m);
            }
        }
    } else {
        let front = sorted.drop_last();
        let last = sorted.last();
        let inner = insert_entry(front, entry);
        assert(in_name_order(front)) by {
            assert forall|i: int, j: int| 0 <= i <= j < front.len() implies name_le(
                (#[trigger] front[i]).raw_name@,
                (#[trigger] front[j]).raw_name@,
            ) by {
                assert(front[i] == sorted[i] && front[j] == sorted[j]);
            }
        }
        lemma_insert_entry(front, entry);
        lemma_name_le_total(last.raw_name@, name);
        assert(all == inner.push(last));
        assert(sorted == front.push(last));
        assert forall|i: int, j: int| 0 <= i <= j < all.len() implies name_le(
            (#[trigger] all[i]).raw_name@,
            (#[trigger] all[j]).raw_name@,
        ) by {
            if i == j {
                lemma_name_le_total(all[i].raw_name@, all[i].raw_name@);
            } else if j == inner.len() {
                assert(all[i] == inner[i]);
                assert(inner.contains(inner[i]));
                if inner[i] != entry {
                    let k = front.index_of(inner[i]);
                    assert(name_le(sorted[k].raw_name@, sorted[sorted.len() - 1].raw_name@));
                }
            } else {
                assert(all[i] == inner[i] && all[j] == inner[j]);
            }
        }
        assert(all.to_multiset() == inner.to_multiset().insert(last));
        assert(sorted.to_multiset() == front.to_multiset().insert(last));
        assert(front.to_multiset().insert(entry).insert(last) =~= front.to_multiset().insert(
            last,
        ).insert(entry));
        assert forall|m: DirEntry| #[trigger] all.contains(m) <==> sorted.contains(m) || m
            == entry by {
            if sorted.contains(m) {
                let k = sorted.index_of(m);
                if k < front.len() {
                    assert(front[k] == m);
                    assert(inner.contains(m));
                    assert(all[inner.index_of(m)] == m);
                } else {
                    assert(all[inner.len() as int] == m);
                }
            }
            if m == entry {
                assert(inner.contains(m));
                assert(all[inner.index_of(m)] == m);
            }
            if all.contains(m) {
                let k = all.index_of(m);
                if k < inner.len() {
                    assert(inner[k] == m);
                    assert(inner.contains(m));
                    if m != entry {
                        assert(sorted[front.index_of(m)] == m);
                    }
                } else {
                    assert(sorted[front.len() as int] == m);
                }
            }
        }
    }
}

proof fn lemma_migrations(entries: Seq<DirEntry>)
    ensures
        in_name_order(migrations(entries)),
        migrations(entries).to_multiset() == taking_part(entries).to_multiset(),
    decreases entries.len(),
{
    broadcast use vstd::seq_lib::group_to_multiset_ensures;

    reveal(Seq::filter);
    if entries.len() > 0 {
        lemma_migrations(entries.drop_last());
        if is_inclusive(entries.last()) {
            lemma_insert_entry(migrations(entries.drop_last()), entries.last());
        }
    }
}

/// The migrations of a directory are its entries that take part, each of them
/// once, in the order of their names.
pub proof fn law_migrations_are_sorted(entries: Seq<DirEntry>)
    ensures
        in_name_order(migrations(entries)),
        migrations(entries).to_multiset() == taking_part(entries).to_multiset(),
{
    lemma_migrations(entries);
}

proof fn lemma_taking_part_count(entries: Seq<DirEntry>, m: DirEntry)
    ensures
        taking_part(entries).to_multiset().count(m) == if is_inclusive(m) {
            entries.to_multiset().count(m)
        } else {
            0
        },
    decreases entries.len(),
{
    broadcast use vstd::seq_lib::group_to_multiset_ensures;

    reveal(Seq::filter);
    if entries.len() > 0 {
        lemma_taking_part_count(entries.drop_last(), m);
        assert(entries == entries.drop_last().push(entries.last()));
    }
}

proof fn lemma_names_differ(a: Seq<DirEntry>, b: Seq<DirEntry>)
    requires
        names_differ(a),
        a.to_multiset() == b.to_multiset(),
    ensures
        names_differ(b),
{
    broadcast use vstd::seq_lib::group_to_multiset_ensures;

    assert(a.no_duplicates());
    a.lemma_multiset_has_no_duplicates();
    b.lemma_multiset_has_no_duplicates_conv();
    assert forall|i: int, j: int| 0 <= i < j < b.len() implies (#[trigger] b[i]).raw_name@
        != (#[trigger] b[j]).raw_name@ by {
        assert(b.contains(b[i]) && b.contains(b[j]));
        assert(b.to_multiset().count(b[i]) > 0 && b.to_multiset().count(b[j]) > 0);
        assert(a.contains(b[i]) && a.contains(b[j]));
        let x = a.index_of(b[i]);
        let y = a.index_of(b[j]);
        assert(a[x] != a[y]);
        assert(a[x].raw_name@ != a[y].raw_name@);
    }
}

/// Two rows of the same entries in the order of their names are the same row.
proof fn lemma_one_order(a: Seq<DirEntry>, b: Seq<DirEntry>)
    requires
        in_name_order(a),
        in_name_order(b),
        names_differ(a),
        a.to_multiset() == b.to_multiset(),
    ensures
        a == b,
    decreases a.len(),
{
    broadcast use vstd::seq_lib::group_to_multiset_ensures;

    assert(a.len() == a.to_multiset().len() == b.len());
    if a.len() > 0 {
        let n = a.len() - 1;
        let x = a[n];
        let y = b[n];
        assert(a.contains(x) && b.contains(y));
        assert(a.to_multiset().count(x) > 0 && b.to_multiset().count(y) > 0);
        assert(a.contains(y) && b.contains(x));
        let i = a.index_of(y);
        let j = b.index_of(x);
        assert(name_le(a[i].raw_name@, a[n].raw_name@));
        assert(name_le(b[j].raw_name@, b[n].raw_name@));
        lemma_name_le_total(x.raw_name@, y.raw_name@);
        assert(i == n);
        let front = a.drop_last();
        let back = b.drop_last();
        assert(a == front.push(x) && b == back.push(x));
        assert(front.to_multiset() =~= a.to_multiset().remove(x));
        assert(back.to_multiset() =~= b.to_multiset().remove(x));
        assert forall|p: int, q: int| 0 <= p <= q < n implies name_le(
            (#[trigger] back[p]).raw_name@,
            (#[trigger] back[q]).raw_name@,
        ) by {
            assert(back[p] == b[p] && back[q] == b[q]);
        }
        assert forall|p: int, q: int| 0 <= p <= q < n implies name_le(
            (#[trigger] front[p]).raw_name@,
            (#[trigger] front[q]).raw_name@,
        ) by {
            assert(front[p] == a[p] && front[q] == a[q]);
        }
        assert forall|p: int, q: int| 0 <= p < q < n implies (#[trigger] front[p]).raw_name@
            != (#[trigger] front[q]).raw_name@ by {
            assert(front[p] == a[p] && front[q] == a[q]);
        }
        lemma_one_order(front, back);
    } else {
        assert(a == b);
    }
}

/// What the entries of a listing, or the first error in it, have to do with the
/// listing.
proof fn lemma_listed_entries(listed: Seq<Result<DirEntry, String>>)
    ensures
        match listed_entries(listed) {
            Err(text) => exists|error: String| #[trigger]
                listed.contains(Err(error)) && error@ == text,
            Ok(entries) => {
                &&& forall|error: String| !#[trigger] listed.contains(Err(error))
                &&& forall|m: DirEntry| #[trigger]
                    entries.to_multiset().count(m) == listed.to_multiset().count(Ok(m))
            },
        },
    decreases listed.len(),
{
    broadcast use vstd::seq_lib::group_to_multiset_ensures;

    if listed.len() > 0 {
        let front = listed.drop_last();
        let last = listed.last();
        lemma_listed_entries(front);
        assert(listed == front.push(last));
        match (listed_entries(front), last) {
            (Err(text), _) => {
                let error = choose|error: String| #[trigger]
                    front.contains(Err(error)) && error@ == text;
                let k = front.index_of(Err(error));
                assert(listed[k] == front[k]);
                assert(listed.contains(Err(error)));
            },
            (Ok(_), Err(error)) => {
                assert(listed[front.len() as int] == last);
                assert(listed.contains(Err(error)));
            },
            (Ok(entries), Ok(entry)) => {
                assert forall|error: String| !#[trigger] listed.contains(Err(error)) by {
                    if listed.contains(Err(error)) {
                        let k = listed.index_of(Err(error));
                        assert(k < front.len());
                        assert(front[k] == listed[k]);
                        assert(front.contains(Err(error)));
                    }
                }
                assert forall|m: DirEntry| #[trigger]
                    entries.push(entry).to_multiset().count(m) == listed.to_multiset().count(
                        Ok(m),
                    ) by {
                    assert(entries.to_multiset().count(m) == front.to_multiset().count(Ok(m)));
                }
            },
        }
    }
}

/// All errors in a listing have the same text.
pub open spec fn one_error(listed: Seq<Result<DirEntry, String>>) -> bool {
    forall|e: String, f: String|
        #![trigger listed.contains(Err(e)), listed.contains(Err(f))]
        listed.contains(Err(e)) && listed.contains(Err(f)) ==> e@ == f@
}

/// Nothing but the entries that take part matters, and not their order: two
/// listings without errors in which the same entries take part give the same scan
/// and the same files, as long as no two of those entries have the same name.
pub proof fn law_entries_taking_part_decide(
    directory: Seq<char>,
    a: Seq<Result<DirEntry, String>>,
    b: Seq<Result<DirEntry, String>>,
)
    requires
        listed_entries(a) is Ok,
        listed_entries(b) is Ok,
        taking_part(listed_entries(a)->Ok_0).to_multiset() == taking_part(
            listed_entries(b)->Ok_0,
        ).to_multiset(),
        names_differ(taking_part(listed_entries(a)->Ok_0)),
    ensures
        scan_outcome(directory, DirListing::Listed { listed: a }) == scan_outcome(
            directory,
            DirListing::Listed { listed: b },
        ),
        directory_outcome(directory, DirListing::Listed { listed: a }) == directory_outcome(
            directory,
            DirListing::Listed { listed: b },
        ),
{
    let x = listed_entries(a)->Ok_0;
    let y = listed_entries(b)->Ok_0;
    lemma_migrations(x);
    lemma_migrations(y);
    lemma_names_differ(taking_part(x), migrations(x));
    lemma_one_order(migrations(x), migrations(y));
}

/// The order in which a directory lists its entries does not matter, neither to
/// the scan nor to the files: as long as no two that take part have the same
/// name, and all entries that cannot be read fail in the same way.
pub proof fn law_listing_order_does_not_matter(
    directory: Seq<char>,
    a: Seq<Result<DirEntry, String>>,
    b: Seq<Result<DirEntry, String>>,
)
    requires
        a.to_multiset() == b.to_multiset(),
        one_error(a),
        listed_entries(a) matches Ok(entries) ==> names_differ(taking_part(entries)),
    ensures
        scan_outcome(directory, DirListing::Listed { listed: a }) == scan_outcome(
            directory,
            DirListing::Listed { listed: b },
        ),
        directory_outcome(directory, DirListing::Listed { listed: a }) == directory_outcome(
            directory,
            DirListing::Listed { listed: b },
        ),
{
    broadcast use vstd::seq_lib::group_to_multiset_ensures;

    lemma_listed_entries(a);
    lemma_listed_entries(b);
    assert forall|r: Result<DirEntry, String>| a.contains(r) == b.contains(r) by {
        assert(a.contains(r) <==> a.to_multiset().count(r) > 0);
        assert(b.contains(r) <==> b.to_multiset().count(r) > 0);
    }
    match (listed_entries(a), listed_entries(b)) {
        (Ok(x), Ok(y)) => {
            assert(taking_part(x).to_multiset() =~= taking_part(y).to_multiset()) by {
                assert forall|m: DirEntry|
                    taking_part(x).to_multiset().count(m) == taking_part(y).to_multiset().count(
                        m,
                    ) by {
                    lemma_taking_part_count(x, m);
                    lemma_taking_part_count(y, m);
                    assert(x.to_multiset().count(m) == a.to_multiset().count(Ok(m)));
                    assert(y.to_multiset().count(m) == b.to_multiset().count(Ok(m)));
                }
            }
            law_entries_taking_part_decide(directory, a, b);
        },
        (Err(x), Err(y)) => {
            let e = choose|e: String| #[trigger] a.contains(Err(e)) && e@ == x;
            let f = choose|f: String| #[trigger] b.contains(Err(f)) && f@ == y;
            assert(a.contains(Err(f)));
        },
        (Err(x), Ok(_)) => {
            let e = choose|e: String| #[trigger] a.contains(Err(e)) && e@ == x;
            assert(b.contains(Err(e)));
        },
        (Ok(_), Err(y)) => {
            let f = choose|f: String| #[trigger] b.contains(Err(f)) && f@ == y;
            assert(a.contains(Err(f)));
        },
    }
}

proof fn lemma_migrations_of_those_taking_part(entries: Seq<DirEntry>)
    ensures
        migrations(taking_part(entries)) == migrations(entries),
    decreases entries.len(),
{
    reveal(Seq::filter);
    if entries.len() > 0 {
        lemma_migrations_of_those_taking_part(entries.drop_last());
        if is_inclusive(entries.last()) {
            let front = taking_part(entries.drop_last());
            assert(taking_part(entries) == front.push(entries.last()));
            assert(front.push(entries.last()).drop_last() == front);
        }
    }
}

/// An entry that does not take part changes nothing, whatever it is: neither the
/// scan nor the files.
pub proof fn law_other_entries_do_not_matter(
    directory: Seq<char>,
    a: Seq<Result<DirEntry, String>>,
    b: Seq<Result<DirEntry, String>>,
)
    requires
        listed_entries(a) is Ok,
        listed_entries(b) is Ok,
        taking_part(listed_entries(a)->Ok_0) == taking_part(listed_entries(b)->Ok_0),
    ensures
        scan_outcome(directory, DirListing::Listed { listed: a }) == scan_outcome(
            directory,
            DirListing::Listed { listed: b },
        ),
        directory_outcome(directory, DirListing::Listed { listed: a }) == directory_outcome(
            directory,
            DirListing::Listed { listed: b },
        ),
{
    lemma_migrations_of_those_taking_part(listed_entries(a)->Ok_0);
    lemma_migrations_of_those_taking_part(listed_entries(b)->Ok_0);
}

/// A directory that is taken up gives one file for each of its migrations, in the
/// order of their names: the file that the migration gives by itself.
pub proof fn law_one_file_for_each_migration(
    directory: Seq<char>,
    listed: Seq<Result<DirEntry, String>>,
)
    ensures
        directory_outcome(directory, DirListing::Listed { listed }) matches Ok(files) ==> {
            &&& listed_entries(listed) matches Ok(entries)
            &&& files.len() == migrations(entries).len()
            &&& forall|i: int|
                0 <= i < files.len() ==> entry_outcome(migrations(entries)[i]) == Ok::<
                    FileRecord,
                    CqlFileError<Seq<char>>,
                >(#[trigger] files[i])
        },
{
    if let Ok(entries) = listed_entries(listed) {
        lemma_files_from(migrations(entries), 0);
    }
}

/// The file that each of `entries` gives is recorded, with the version that is its
/// turn.
pub open spec fn all_in_turn(entries: Seq<DirEntry>) -> bool {
    forall|i: int|
        0 <= i < entries.len() ==> (#[trigger] entry_outcome(entries[i]) matches Ok(file)
            && file.version == i + 1)
}

proof fn lemma_all_in_turn(entries: Seq<DirEntry>, k: int)
    requires
        all_in_turn(entries),
        0 <= k <= entries.len(),
    ensures
        files_from(entries, k) is Ok,
    decreases entries.len() - k,
{
    if k < entries.len() {
        assert(entry_outcome(entries[k]) is Ok);
        lemma_all_in_turn(entries, k + 1);
    }
}

/// A directory is taken up if all of its entries can be read, one of them is a
/// migration and, in the order of their names, all of its migrations are recorded
/// with the versions 1, 2, 3 and so on; and only then.
pub proof fn law_when_a_directory_is_taken_up(
    directory: Seq<char>,
    listed: Seq<Result<DirEntry, String>>,
)
    ensures
        directory_outcome(directory, DirListing::Listed { listed }) is Ok <==> {
            &&& listed_entries(listed) matches Ok(entries)
            &&& migrations(entries).len() > 0
            &&& all_in_turn(migrations(entries))
        },
{
    if let Ok(entries) = listed_entries(listed) {
        let sorted = migrations(entries);
        if sorted.len() > 0 && all_in_turn(sorted) {
            lemma_all_in_turn(sorted, 0);
        }
        if let Ok(files) = directory_outcome(directory, DirListing::Listed { listed }) {
            lemma_files_from(sorted, 0);
            assert forall|i: int| 0 <= i < sorted.len() implies (#[trigger] entry_outcome(
                sorted[i],
            ) matches Ok(file) && file.version == i + 1) by {
                assert(files[i].version == i + 1);
            }
        }
    }
}

// ---------------------------------------------------------------------------
// What the order of names is
// ---------------------------------------------------------------------------

/// The first byte in which two names differ decides which of them comes first,
/// whatever follows it and however long the names are.
pub proof fn law_first_different_byte_decides(a: Seq<u8>, b: Seq<u8>, k: int)
    requires
        0 <= k < a.len(),
        k < b.len(),
        forall|i: int| 0 <= i < k ==> a[i] == b[i],
        a[k] < b[k],
    ensures
        name_le(a, b),
        !name_le(b, a),
    decreases k,
{
    if k > 0 {
        assert(a[0] == b[0]);
        law_first_different_byte_decides(a.drop_first(), b.drop_first(), k - 1);
    }
}

/// A name comes in front of every longer name that begins with it.
pub proof fn law_prefix_comes_first(a: Seq<u8>, b: Seq<u8>)
    requires
        a.len() < b.len(),
        forall|i: int| 0 <= i < a.len() ==> a[i] == b[i],
    ensures
        name_le(a, b),
        !name_le(b, a),
    decreases a.len(),
{
    if a.len() > 0 {
        assert(a[0] == b[0]);
        law_prefix_comes_first(a.drop_first(), b.drop_first());
    }
}

/// A name does not come behind itself.
pub proof fn law_name_is_not_behind_itself(a: Seq<u8>)
    ensures
        name_le(a, a),
{
    lemma_name_le_total(a, a);
}

/// The version that the three bytes behind the first write.
pub open spec fn raw_version(name: Seq<u8>) -> int {
    100 * (name[1] - 48) + 10 * (name[2] - 48) + (name[3] - 48)
}

/// Three ASCII digits stand behind the first byte of `name`.
pub open spec fn has_raw_version(name: Seq<u8>) -> bool {
    &&& name.len() >= 4
    &&& 48 <= name[1] <= 57
    &&& 48 <= name[2] <= 57
    &&& 48 <= name[3] <= 57
}

/// Of two migrations whose names begin with the same letter, the one with the
/// smaller version comes first, whatever the rest of their names is.
pub proof fn law_smaller_version_comes_first(a: Seq<u8>, b: Seq<u8>)
    requires
        has_raw_version(a),
        has_raw_version(b),
        a[0] == b[0],
        raw_version(a) < raw_version(b),
    ensures
        name_le(a, b),
        !name_le(b, a),
{
    if a[1] != b[1] {
        law_first_different_byte_decides(a, b, 1);
    } else if a[2] != b[2] {
        law_first_different_byte_decides(a, b, 2);
    } else {
        law_first_different_byte_decides(a, b, 3);
    }
}

// ---------------------------------------------------------------------------
// What takes part
// ---------------------------------------------------------------------------

/// `name` is `stem` with `.cql` behind it.
pub open spec fn is_cql_of(name: Seq<char>, stem: Seq<char>) -> bool {
    name == stem + seq!['.', 'c', 'q', 'l']
}

/// An entry takes part if and only if it is a file that has a name, and the name
/// is `.cql` behind something that is not empty and does not begin with `_`.
pub proof fn law_what_takes_part(entry: DirEntry)
    ensures
        is_inclusive(entry) <==> entry.is_file && entry.file_name is Some && exists|
            stem: Seq<char>,
        | #[trigger]
            is_cql_of(entry.file_name->0@, stem) && stem.len() > 0 && stem[0] != '_',
{
    if let Some(name) = entry.file_name {
        let n = name@.len() as int;
        if is_inclusive(entry) {
            let stem = name@.take(n - 4);
            assert(name@ =~= stem + seq!['.', 'c', 'q', 'l']);
            assert(is_cql_of(name@, stem) && stem.len() > 0 && stem[0] != '_');
        }
        if entry.is_file && exists|stem: Seq<char>| #[trigger]
            is_cql_of(name@, stem) && stem.len() > 0 && stem[0] != '_' {
            let stem = choose|stem: Seq<char>| #[trigger]
                is_cql_of(name@, stem) && stem.len() > 0 && stem[0] != '_';
            assert(name@ == stem + seq!['.', 'c', 'q', 'l']);
            assert(name@[0] == stem[0]);
            assert(is_inclusive(entry));
        }
    }
}

/// Of two files whose names end in `.cql` and begin with the same character,
/// either both take part or neither does.
pub proof fn law_first_character_decides(e: DirEntry, f: DirEntry, a: Seq<char>, b: Seq<char>)
    requires
        e.is_file,
        f.is_file,
        e.file_name matches Some(name) && is_cql_of(name@, a),
        f.file_name matches Some(name) && is_cql_of(name@, b),
        a.len() > 0,
        b.len() > 0,
        a[0] == b[0],
    ensures
        is_inclusive(e) == is_inclusive(f),
        is_inclusive(e) == (a[0] != '_'),
{
    assert((a + seq!['.', 'c', 'q', 'l'])[0] == a[0]);
    assert((b + seq!['.', 'c', 'q', 'l'])[0] == b[0]);
}

/// Every file that is named as a migration takes part: `v` or `V`, three more
/// characters, then anything, then `.cql`.
pub proof fn law_migration_takes_part(
    entry: DirEntry,
    first: char,
    digits: Seq<char>,
    rest: Seq<char>,
)
    requires
        entry.is_file,
        first == 'v' || first == 'V',
        entry.file_name matches Some(name) && is_cql_of(name@, seq![first] + digits + rest),
    ensures
        is_inclusive(entry),
{
    let stem = seq![first] + digits + rest;
    assert(stem[0] == first);
    assert((stem + seq!['.', 'c', 'q', 'l'])[0] == first);
}

// ---------------------------------------------------------------------------
// The scan
// ---------------------------------------------------------------------------

/// A listing without errors holds its entries, all of them and in their order; of
/// another one the first error is told.
pub proof fn law_what_is_listed(listed: Seq<Result<DirEntry, String>>)
    ensures
        match listed_entries(listed) {
            Ok(entries) => {
                &&& entries.len() == listed.len()
                &&& forall|i: int|
                    0 <= i < listed.len() ==> #[trigger] listed[i] == Ok::<DirEntry, String>(
                        entries[i],
                    )
            },
            Err(text) => exists|k: int|
                {
                    &&& 0 <= k < listed.len()
                    &&& (#[trigger] listed[k]) matches Err(error)
                    &&& error@ == text
                    &&& forall|i: int| 0 <= i < k ==> (#[trigger] listed[i]) is Ok
                },
        },
    decreases listed.len(),
{
    if listed.len() > 0 {
        let front = listed.drop_last();
        let n = front.len() as int;
        law_what_is_listed(front);
        assert forall|i: int| 0 <= i < n implies front[i] == #[trigger] listed[i] by {}
        match (listed_entries(front), listed[n]) {
            (Err(text), _) => {
                let k = choose|k: int|
                    {
                        &&& 0 <= k < front.len()
                        &&& (#[trigger] front[k]) matches Err(error)
                        &&& error@ == text
                        &&& forall|i: int| 0 <= i < k ==> (#[trigger] front[i]) is Ok
                    };
                assert(listed[k] == front[k]);
                assert forall|i: int| 0 <= i < k implies (#[trigger] listed[i]) is Ok by {
                    assert(front[i] is Ok);
                }
            },
            (Ok(entries), Err(error)) => {
                assert(listed[n] == listed.last());
            },
            (Ok(entries), Ok(entry)) => {
                assert forall|i: int| 0 <= i < listed.len() implies #[trigger] listed[i] == Ok::<
                    DirEntry,
                    String,
                >(entries.push(entry)[i]) by {
                    if i < n {
                        assert(front[i] == Ok::<DirEntry, String>(entries[i]));
                    }
                }
            },
        }
    }
}

proof fn lemma_no_migrations(entries: Seq<DirEntry>)
    ensures
        migrations(entries).len() == 0 <==> forall|i: int|
            0 <= i < entries.len() ==> !is_inclusive(#[trigger] entries[i]),
    decreases entries.len(),
{
    if entries.len() > 0 {
        let front = entries.drop_last();
        lemma_no_migrations(front);
        assert(entries[front.len() as int] == entries.last());
        if is_inclusive(entries.last()) {
            law_migrations_are_sorted(front);
            lemma_insert_entry(migrations(front), entries.last());
        } else if forall|i: int| 0 <= i < front.len() ==> !is_inclusive(#[trigger] front[i]) {
            assert forall|i: int| 0 <= i < entries.len() implies !is_inclusive(
                #[trigger] entries[i],
            ) by {
                if i < front.len() {
                    assert(front[i] == entries[i]);
                }
            }
        } else {
            let i = choose|i: int| 0 <= i < front.len() && is_inclusive(#[trigger] front[i]);
            assert(is_inclusive(entries[i]));
        }
    }
}

/// A scan gives the migrations of a directory, all of them, if every entry can be
/// read and one of them takes part. If not, the error says why.
pub proof fn law_what_a_scan_gives(directory: Seq<char>, listed: Seq<Result<DirEntry, String>>)
    ensures
        scan_outcome(directory, DirListing::NotFound) == Err::<
            Seq<DirEntry>,
            ScanError<Seq<char>>,
        >(ScanError::DirectoryNotFound { directory }),
        match scan_outcome(directory, DirListing::Listed { listed }) {
            Ok(sorted) => {
                &&& listed_entries(listed) matches Ok(entries)
                &&& sorted == migrations(entries)
                &&& exists|i: int| 0 <= i < entries.len() && is_inclusive(#[trigger] entries[i])
            },
            Err(ScanError::UnreadableEntry { error }) => listed_entries(listed) == Err::<
                Seq<DirEntry>,
                Seq<char>,
            >(error),
            Err(ScanError::NoCqlFiles { directory: named }) => {
                &&& named == directory
                &&& listed_entries(listed) matches Ok(entries)
                &&& forall|i: int|
                    0 <= i < entries.len() ==> !is_inclusive(#[trigger] entries[i])
            },
            Err(ScanError::DirectoryNotFound { directory: _ }) => false,
        },
{
    if let Ok(entries) = listed_entries(listed) {
        lemma_no_migrations(entries);
    }
}

/// The entries that have the given name.
pub open spec fn named(entries: Seq<DirEntry>, name: Seq<u8>) -> Seq<DirEntry> {
    entries.filter(|e: DirEntry| e.raw_name@ == name)
}

proof fn lemma_named_push(entries: Seq<DirEntry>, entry: DirEntry, name: Seq<u8>)
    ensures
        named(entries.push(entry), name) == if entry.raw_name@ == name {
            named(entries, name).push(entry)
        } else {
            named(entries, name)
        },
{
    reveal(Seq::filter);
    assert(entries.push(entry).drop_last() =~= entries);
}

proof fn lemma_insert_keeps_order(sorted: Seq<DirEntry>, entry: DirEntry, name: Seq<u8>)
    ensures
        named(insert_entry(sorted, entry), name) == if entry.raw_name@ == name {
            named(sorted, name).push(entry)
        } else {
            named(sorted, name)
        },
    decreases sorted.len(),
{
    if sorted.len() == 0 || name_le(sorted.last().raw_name@, entry.raw_name@) {
        lemma_named_push(sorted, entry, name);
    } else {
        let front = sorted.drop_last();
        let last = sorted.last();
        lemma_insert_keeps_order(front, entry, name);
        lemma_named_push(insert_entry(front, entry), last, name);
        lemma_named_push(front, last, name);
        assert(sorted =~= front.push(last));
        lemma_name_le_total(entry.raw_name@, entry.raw_name@);
    }
}

/// Migrations that have the same name stay in the order of the listing.
pub proof fn law_same_names_keep_their_order(entries: Seq<DirEntry>, name: Seq<u8>)
    ensures
        named(migrations(entries), name) == named(taking_part(entries), name),
    decreases entries.len(),
{
    reveal(Seq::filter);
    if entries.len() > 0 {
        let front = entries.drop_last();
        let last = entries.last();
        law_same_names_keep_their_order(front, name);
        if is_inclusive(last) {
            lemma_insert_keeps_order(migrations(front), last, name);
            assert(taking_part(entries) == taking_part(front).push(last));
            lemma_named_push(taking_part(front), last, name);
        }
    }
}

// ---------------------------------------------------------------------------
// The files
// ---------------------------------------------------------------------------

/// The file that an entry gives is that of its path, its name and its content.
pub proof fn law_file_of_an_entry(entry: DirEntry)
    requires
        entry.file_name is Some,
    ensures
        entry_outcome(entry) == file_outcome(
            entry.path@,
            entry.file_name->0@,
            version_in(entry.file_name->0@),
            match entry.content {
                Ok(bytes) => Ok(bytes@),
                Err(error) => Err(error@),
            },
        ),
{
}

/// What is said of a file that is out of turn. A file with the version before the
/// expected one repeats that of the file in front of it, which is named; in front
/// of the first file there is none. Of any other file it is said which version is
/// missing.
pub proof fn law_what_is_out_of_turn(previous: Seq<char>, file: FileRecord, expected: i16)
    ensures
        file.version == expected - 1 ==> {
            &&& version_error(Some(previous), file, expected) == (CqlFileError::RepeatedVersion {
                previous,
                filename: file.filename,
                expected,
            })
            &&& version_error(None, file, expected) == (CqlFileError::PreviousIndexInvalid {
                cause: "out of range integral type conversion attempted"@,
            })
        },
        file.version != expected - 1 ==> {
            let missing = CqlFileError::MissingVersion { filename: file.filename, expected };
            &&& version_error(Some(previous), file, expected) == missing
            &&& version_error(None, file, expected) == missing
        },
{
}

proof fn lemma_files_up_to(entries: Seq<DirEntry>, i: int, k: int)
    requires
        0 <= i <= k <= entries.len(),
        forall|j: int|
            0 <= j < k ==> (#[trigger] entry_outcome(entries[j]) matches Ok(file) && file.version
                == j + 1),
        files_from(entries, k) is Err,
    ensures
        files_from(entries, i) == files_from(entries, k),
    decreases k - i,
{
    if i < k {
        assert(entry_outcome(entries[i]) is Ok);
        lemma_files_up_to(entries, i + 1, k);
    }
}

/// The first file that cannot be recorded or that is out of turn is told, and
/// nothing else: where the files in front of it have the versions 1, 2, 3 and so
/// on, its own error is that of the directory.
pub proof fn law_first_failure_is_told(
    directory: Seq<char>,
    listed: Seq<Result<DirEntry, String>>,
    k: int,
)
    requires
        listed_entries(listed) is Ok,
        0 <= k < migrations(listed_entries(listed)->Ok_0).len(),
        k < i16::MAX,
        forall|j: int|
            0 <= j < k ==> (#[trigger] entry_outcome(
                migrations(listed_entries(listed)->Ok_0)[j],
            ) matches Ok(file) && file.version == j + 1),
        entry_outcome(migrations(listed_entries(listed)->Ok_0)[k]) matches Ok(file) ==> file.version
            != k + 1,
    ensures
        ({
            let sorted = migrations(listed_entries(listed)->Ok_0);
            let result = directory_outcome(directory, DirListing::Listed { listed });
            match entry_outcome(sorted[k]) {
                Err(error) => result == Err::<Seq<FileRecord>, CqlFileError<Seq<char>>>(error),
                Ok(file) => if file.version != k {
                    result == Err::<Seq<FileRecord>, CqlFileError<Seq<char>>>(
                        CqlFileError::MissingVersion {
                            filename: file.filename,
                            expected: (k + 1) as i16,
                        },
                    )
                } else if k == 0 {
                    result == Err::<Seq<FileRecord>, CqlFileError<Seq<char>>>(
                        CqlFileError::PreviousIndexInvalid {
                            cause: "out of range integral type conversion attempted"@,
                        },
                    )
                } else {
                    result == Err::<Seq<FileRecord>, CqlFileError<Seq<char>>>(
                        CqlFileError::RepeatedVersion {
                            previous: entry_outcome(sorted[k - 1])->Ok_0.filename,
                            filename: file.filename,
                            expected: (k + 1) as i16,
                        },
                    )
                },
            }
        }),
{
    let sorted = migrations(listed_entries(listed)->Ok_0);
    lemma_files_up_to(sorted, 0, k);
    if k > 0 {
        assert(entry_outcome(sorted[k - 1]) is Ok);
    }
}

/// A directory that cannot be scanned gives no files: the error is that of the
/// scan.
pub proof fn law_failed_scan_is_told(
    directory: Seq<char>,
    listing: DirListing<Seq<Result<DirEntry, String>>>,
)
    requires
        scan_outcome(directory, listing) is Err,
    ensures
        directory_outcome(directory, listing) == Err::<Seq<FileRecord>, CqlFileError<Seq<char>>>(
            CqlFileError::ScanFailed { cause: scan_outcome(directory, listing)->Err_0 },
        ),
{
}

/// What is said of a listing is said of the very entries that it holds.
pub proof fn law_a_listing_is_what_it_holds(listing: DirListing)
    ensures
        listing matches DirListing::Listed { listed } ==> listing@ == (DirListing::Listed {
            listed: listed@,
        }),
        listing is NotFound ==> listing@ is NotFound,
{
}

/// What is said of the files of a directory is said of the files themselves.
pub proof fn law_files_are_what_is_said_of_them(
    files: Result<Vec<CqlFile>, CqlFileError>,
    directory: Seq<char>,
    listing: DirListing<Seq<Result<DirEntry, String>>>,
)
    requires
        outcome(files) == directory_outcome(directory, listing),
    ensures
        match files {
            Ok(taken) => {
                &&& directory_outcome(directory, listing) matches Ok(records)
                &&& taken@.len() == records.len()
                &&& forall|i: int|
                    0 <= i < records.len() ==> {
                        &&& (#[trigger] taken@[i]).filename@ == records[i].filename
                        &&& taken@[i].hash@ == records[i].hash
                        &&& taken@[i].path@ == records[i].path
                        &&& taken@[i].version == records[i].version
                        &&& taken@[i].version == i + 1
                    }
            },
            Err(error) => directory_outcome(directory, listing) == Err::<
                Seq<FileRecord>,
                CqlFileError<Seq<char>>,
            >(error.deep_view()),
        },
{
    law_versions_count_up(directory, listing);
    if let Ok(taken) = files {
        let records = directory_outcome(directory, listing)->Ok_0;
        assert(taken.deep_view() == records);
        assert forall|i: int| 0 <= i < records.len() implies (#[trigger] taken@[i]).deep_view()
            == records[i] by {
            assert(taken.deep_view()[i] == taken@[i].deep_view());
        }
    }
}

// ---------------------------------------------------------------------------
// A directory in which the versions count up
// ---------------------------------------------------------------------------

/// `entry` can be read and is named as a migration: its version stands in the
/// three digits behind its first letter, as text and as the file system has it.
pub open spec fn is_sound_migration(entry: DirEntry, letter: u8) -> bool {
    &&& entry.content is Ok
    &&& has_raw_version(entry.raw_name@)
    &&& entry.raw_name@[0] == letter
    &&& entry.file_name matches Some(name) && {
        &&& name@.len() >= 4
        &&& forall|k: int| 1 <= k < 4 ==> #[trigger] name@[k] as int == entry.raw_name@[k] as int
        &&& version_in(name@) == Some(name@.subrange(1, 4))
    }
}

proof fn lemma_sound_migration(entry: DirEntry, letter: u8)
    requires
        is_sound_migration(entry, letter),
    ensures
        entry_outcome(entry) matches Ok(file) && file.version == raw_version(entry.raw_name@),
{
    let name = entry.file_name->0@;
    let digits = name.subrange(1, 4);
    assert forall|k: int| 0 <= k < 3 implies '0' <= #[trigger] digits[k] <= '9' by {
        assert(name[k + 1] as int == entry.raw_name@[k + 1] as int);
    }
    assert(digits[0] == name[1] && digits[1] == name[2] && digits[2] == name[3]);
    law_what_is_recorded(entry.path@, name, digits, entry.content->Ok_0@);
}

/// Each of `entries` has another version.
pub open spec fn versions_differ(entries: Seq<DirEntry>) -> bool {
    forall|i: int, j: int|
        0 <= i < j < entries.len() ==> raw_version((#[trigger] entries[i]).raw_name@)
            != raw_version((#[trigger] entries[j]).raw_name@)
}

proof fn lemma_versions_differ(a: Seq<DirEntry>, b: Seq<DirEntry>)
    requires
        versions_differ(a),
        a.to_multiset() == b.to_multiset(),
    ensures
        versions_differ(b),
{
    broadcast use vstd::seq_lib::group_to_multiset_ensures;

    assert(a.no_duplicates());
    a.lemma_multiset_has_no_duplicates();
    b.lemma_multiset_has_no_duplicates_conv();
    assert forall|i: int, j: int| 0 <= i < j < b.len() implies raw_version(
        (#[trigger] b[i]).raw_name@,
    ) != raw_version((#[trigger] b[j]).raw_name@) by {
        assert(b.contains(b[i]) && b.contains(b[j]));
        assert(b.to_multiset().count(b[i]) > 0 && b.to_multiset().count(b[j]) > 0);
        assert(a.contains(b[i]) && a.contains(b[j]));
        let x = a.index_of(b[i]);
        let y = a.index_of(b[j]);
        assert(a[x] != a[y]);
        assert(raw_version(a[x].raw_name@) != raw_version(a[y].raw_name@));
    }
}

/// Numbers that grow from one to the next, between 1 and their count, are 1, 2, 3
/// and so on.
proof fn lemma_growing_numbers(v: Seq<int>, i: int)
    requires
        0 <= i < v.len(),
        forall|k: int| 0 <= k < v.len() ==> 1 <= #[trigger] v[k] <= v.len(),
        forall|j: int, k: int| 0 <= j < k < v.len() ==> #[trigger] v[j] < #[trigger] v[k],
    ensures
        v[i] == i + 1,
{
    lemma_numbers_at_least(v, i);
    lemma_numbers_at_most(v, i);
}

proof fn lemma_numbers_at_least(v: Seq<int>, i: int)
    requires
        0 <= i < v.len(),
        forall|k: int| 0 <= k < v.len() ==> 1 <= #[trigger] v[k] <= v.len(),
        forall|j: int, k: int| 0 <= j < k < v.len() ==> #[trigger] v[j] < #[trigger] v[k],
    ensures
        v[i] >= i + 1,
    decreases i,
{
    if i > 0 {
        lemma_numbers_at_least(v, i - 1);
        assert(v[i - 1] < v[i]);
    }
}

proof fn lemma_numbers_at_most(v: Seq<int>, i: int)
    requires
        0 <= i < v.len(),
        forall|k: int| 0 <= k < v.len() ==> 1 <= #[trigger] v[k] <= v.len(),
        forall|j: int, k: int| 0 <= j < k < v.len() ==> #[trigger] v[j] < #[trigger] v[k],
    ensures
        v[i] <= i + 1,
    decreases v.len() - i,
{
    if i + 1 < v.len() {
        lemma_numbers_at_most(v, i + 1);
        assert(v[i] < v[i + 1]);
    }
}

/// A directory is taken up, in whatever order it is listed and whatever else it
/// holds, if the names of its migrations begin with the same letter, each can be
/// read and has another version, and the versions lie between 1 and the number of
/// migrations. There is a file for each of them, in the order of the versions.
pub proof fn law_counted_directory_is_taken_up(
    directory: Seq<char>,
    listed: Seq<Result<DirEntry, String>>,
    letter: u8,
)
    requires
        listed_entries(listed) is Ok,
        ({
            let found = taking_part(listed_entries(listed)->Ok_0);
            &&& found.len() > 0
            &&& versions_differ(found)
            &&& forall|i: int|
                0 <= i < found.len() ==> is_sound_migration(#[trigger] found[i], letter) && 1
                    <= raw_version(found[i].raw_name@) <= found.len()
        }),
    ensures
        directory_outcome(directory, DirListing::Listed { listed }) matches Ok(files) && {
            &&& files.len() == taking_part(listed_entries(listed)->Ok_0).len()
            &&& forall|i: int| 0 <= i < files.len() ==> (#[trigger] files[i]).version == i + 1
        },
{
    broadcast use vstd::seq_lib::group_to_multiset_ensures;

    let entries = listed_entries(listed)->Ok_0;
    let found = taking_part(entries);
    let sorted = migrations(entries);
    let n = sorted.len();
    lemma_migrations(entries);
    assert(n == sorted.to_multiset().len() == found.len());
    lemma_versions_differ(found, sorted);
    assert forall|i: int| 0 <= i < n implies is_sound_migration(#[trigger] sorted[i], letter) && 1
        <= raw_version(sorted[i].raw_name@) <= n by {
        assert(sorted.contains(sorted[i]));
        assert(sorted.to_multiset().count(sorted[i]) > 0);
        assert(found.contains(sorted[i]));
        let k = found.index_of(sorted[i]);
        assert(is_sound_migration(found[k], letter));
    }
    let v = Seq::new(n, |i: int| raw_version(sorted[i].raw_name@));
    assert forall|j: int, k: int| 0 <= j < k < v.len() implies #[trigger] v[j] < #[trigger] v[k] by {
        let a = sorted[j];
        let b = sorted[k];
        assert(is_sound_migration(a, letter) && is_sound_migration(b, letter));
        assert(name_le(a.raw_name@, b.raw_name@));
        assert(v[j] != v[k]);
        if v[j] > v[k] {
            law_smaller_version_comes_first(b.raw_name@, a.raw_name@);
        }
    }
    assert forall|k: int| 0 <= k < v.len() implies 1 <= #[trigger] v[k] <= v.len() by {
        assert(is_sound_migration(sorted[k], letter));
    }
    assert forall|i: int| 0 <= i < n implies (#[trigger] entry_outcome(sorted[i]) matches Ok(file)
        && file.version == i + 1) by {
        assert(is_sound_migration(sorted[i], letter));
        lemma_sound_migration(sorted[i], letter);
        lemma_growing_numbers(v, i);
    }
    law_when_a_directory_is_taken_up(directory, listed);
    law_versions_count_up(directory, DirListing::Listed { listed });
    law_one_file_for_each_migration(directory, listed);
}

} // verus!
