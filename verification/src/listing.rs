//! Directory snapshots: which files of a listing are read, how the entries
//! are ordered, and what a full or an incremental read returns.

use crate::natural::{natural_order, natural_order_of, name_bytes, NameOrder};
use crate::natural::{
    lemma_natural_order_reversed, lemma_natural_order_same, lemma_natural_order_transitive,
};
use crate::clock::get_now;
use vstd::prelude::*;
use vstd::seq_lib::to_multiset_insert;

verus! {

/// One file at one folder level.
#[derive(Debug, Clone, PartialEq, Eq)]
pub struct TemplateDirEntry {
    pub name: String,
    pub data: Option<String>,
}

/// The natural order of two entries: that of their names.
#[verifier::opaque]
pub open spec fn entry_order(x: TemplateDirEntry, y: TemplateDirEntry) -> NameOrder {
    natural_order(name_bytes(x.name@), name_bytes(y.name@))
}

/// Where `x` is put into `s`, looking from `p` on: before the first entry
/// that it is not greater than.
pub open spec fn insert_point(x: TemplateDirEntry, s: Seq<TemplateDirEntry>, p: int) -> int
    decreases s.len() - p,
{
    if 0 <= p < s.len() && entry_order(x, s[p]) == NameOrder::Greater {
        insert_point(x, s, p + 1)
    } else {
        p
    }
}

/// The entries `s[k..]` sorted: each entry, from the last to the first, is
/// put into the sorted rest. Entries with equal names keep their order.
pub open spec fn sorted_from(s: Seq<TemplateDirEntry>, k: int) -> Seq<TemplateDirEntry>
    decreases s.len() - k,
{
    if k < 0 || k >= s.len() {
        Seq::empty()
    } else {
        let rest = sorted_from(s, k + 1);
        rest.insert(insert_point(s[k], rest, 0), s[k])
    }
}

/// The entries in natural order of their names.
pub open spec fn natural_sort(s: Seq<TemplateDirEntry>) -> Seq<TemplateDirEntry> {
    sorted_from(s, 0)
}

/// No entry is greater than the one that follows it.
pub open spec fn in_natural_order(s: Seq<TemplateDirEntry>) -> bool {
    forall|i: int, j: int|
        0 <= i && j == i + 1 && j < s.len() ==> entry_order(#[trigger] s[i], #[trigger] s[j])
            != NameOrder::Greater
}

/// The insertion point lies between where the search starts and the end.
pub proof fn lemma_insert_point_bounds(x: TemplateDirEntry, s: Seq<TemplateDirEntry>, p: int)
    requires
        0 <= p <= s.len(),
    ensures
        p <= insert_point(x, s, p) <= s.len(),
    decreases s.len() - p,
{
    if p < s.len() && entry_order(x, s[p]) == NameOrder::Greater {
        lemma_insert_point_bounds(x, s, p + 1);
    }
}

/// Sorts entries by name in the natural order; entries with equal names keep
/// their order.
pub fn sort_entries(entries: Vec<TemplateDirEntry>) -> (r: Vec<TemplateDirEntry>)
    ensures
        r@ == natural_sort(entries@),
        r@.to_multiset() == entries@.to_multiset(),
        is_sorted(r@),
{
    proof {
        lemma_natural_sort(entries@);
    }
    let ghost all = entries@;
    let mut rest = entries;
    let mut out: Vec<TemplateDirEntry> = Vec::new();
    loop
        invariant
            all == entries@,
            natural_sort(all).to_multiset() == all.to_multiset(),
            is_sorted(natural_sort(all)),
            rest@.len() <= all.len(),
            rest@ == all.take(rest@.len() as int),
            out@ == sorted_from(all, rest@.len() as int),
        decreases rest@.len(),
    {
        if rest.len() == 0 {
            return out;
        }
        match rest.pop() {
            None => {},
            Some(e) => {
                let mut p: usize = 0;
                while p < out.len() && is_greater(&e, &out[p])
                    invariant
                        p <= out@.len(),
                        insert_point(e, out@, 0) == insert_point(e, out@, p as int),
                    decreases out@.len() - p,
                {
                    p += 1;
                }
                out.insert(p, e);
            },
        }
    }
}

/// Whether `x` comes strictly after `y` in the natural order of names.
pub fn is_greater(x: &TemplateDirEntry, y: &TemplateDirEntry) -> (r: bool)
    ensures
        r == (entry_order(*x, *y) == NameOrder::Greater),
{
    proof {
        reveal(entry_order);
    }
    match natural_order_of(x.name.as_str().as_bytes(), y.name.as_str().as_bytes()) {
        NameOrder::Greater => true,
        _ => false,
    }
}

/// Comparing `y` with `x` gives the reverse of comparing `x` with `y`.
pub proof fn lemma_entry_order_reversed(x: TemplateDirEntry, y: TemplateDirEntry)
    ensures
        entry_order(y, x) == entry_order(x, y).reversed(),
{
    reveal(entry_order);
    lemma_natural_order_reversed(name_bytes(x.name@), name_bytes(y.name@));
}

/// Every entry before the insertion point is less than `x`, and the entry at
/// it, if there is one, is not.
pub proof fn lemma_insert_point_found(x: TemplateDirEntry, s: Seq<TemplateDirEntry>, p: int)
    requires
        0 <= p <= s.len(),
    ensures
        forall|t: int|
            p <= t < insert_point(x, s, p) ==> entry_order(x, #[trigger] s[t])
                == NameOrder::Greater,
        insert_point(x, s, p) < s.len() ==> entry_order(x, s[insert_point(x, s, p)])
            != NameOrder::Greater,
    decreases s.len() - p,
{
    if p < s.len() && entry_order(x, s[p]) == NameOrder::Greater {
        lemma_insert_point_found(x, s, p + 1);
    }
}

/// Putting an entry at its insertion point keeps a list in natural order.
pub proof fn lemma_insert_keeps_order(x: TemplateDirEntry, s: Seq<TemplateDirEntry>)
    requires
        in_natural_order(s),
    ensures
        in_natural_order(s.insert(insert_point(x, s, 0), x)),
{
    let q = insert_point(x, s, 0);
    let r = s.insert(q, x);
    lemma_insert_point_bounds(x, s, 0);
    lemma_insert_point_found(x, s, 0);
    assert forall|i: int, j: int| 0 <= i && j == i + 1 && j < r.len() implies entry_order(
        #[trigger] r[i],
        #[trigger] r[j],
    ) != NameOrder::Greater by {
        if j < q {
            assert(r[i] == s[i] && r[j] == s[j]);
        } else if j == q {
            assert(r[i] == s[i] && r[j] == x);
            lemma_entry_order_reversed(x, s[i]);
        } else if i == q {
            assert(r[i] == x && r[j] == s[q]);
        } else {
            assert(r[i] == s[i - 1] && r[j] == s[i]);
        }
    }
}

/// Sorting gives a list in which no entry is greater than the next.
pub proof fn lemma_sorted_in_order(s: Seq<TemplateDirEntry>, k: int)
    ensures
        in_natural_order(sorted_from(s, k)),
    decreases s.len() - k,
{
    if 0 <= k < s.len() {
        lemma_sorted_in_order(s, k + 1);
        lemma_insert_keeps_order(s[k], sorted_from(s, k + 1));
    }
}

/// Sorting leaves a list that is in natural order as it is.
pub proof fn lemma_sorted_stays(s: Seq<TemplateDirEntry>, k: int)
    requires
        in_natural_order(s),
        0 <= k <= s.len(),
    ensures
        sorted_from(s, k) == s.subrange(k, s.len() as int),
    decreases s.len() - k,
{
    if k < s.len() {
        lemma_sorted_stays(s, k + 1);
        let rest = s.subrange(k + 1, s.len() as int);
        if rest.len() > 0 {
            assert(rest[0] == s[k + 1]);
        }
        assert(insert_point(s[k], rest, 0) == 0);
        assert(rest.insert(0, s[k]) =~= s.subrange(k, s.len() as int));
    } else {
        assert(sorted_from(s, k) =~= s.subrange(k, s.len() as int));
    }
}

/// Sorting keeps the entries: each occurs as often as before.
pub proof fn lemma_sorted_same_entries(s: Seq<TemplateDirEntry>, k: int)
    requires
        0 <= k <= s.len(),
    ensures
        sorted_from(s, k).to_multiset() == s.subrange(k, s.len() as int).to_multiset(),
    decreases s.len() - k,
{
    if k < s.len() {
        lemma_sorted_same_entries(s, k + 1);
        let rest = sorted_from(s, k + 1);
        let tail = s.subrange(k + 1, s.len() as int);
        lemma_insert_point_bounds(s[k], rest, 0);
        to_multiset_insert(rest, insert_point(s[k], rest, 0), s[k]);
        to_multiset_insert(tail, 0, s[k]);
        assert(tail.insert(0, s[k]) =~= s.subrange(k, s.len() as int));
    } else {
        assert(sorted_from(s, k) =~= s.subrange(k, s.len() as int));
    }
}

/// No entry is greater than any entry after it.
pub open spec fn is_sorted(s: Seq<TemplateDirEntry>) -> bool {
    forall|i: int, j: int|
        0 <= i <= j < s.len() ==> entry_order(#[trigger] s[i], #[trigger] s[j])
            != NameOrder::Greater
}

/// In a list where no entry is greater than the next, no entry is greater
/// than any later one.
pub proof fn lemma_in_order_between(s: Seq<TemplateDirEntry>, i: int, j: int)
    requires
        in_natural_order(s),
        0 <= i <= j < s.len(),
    ensures
        entry_order(s[i], s[j]) != NameOrder::Greater,
    decreases j - i,
{
    reveal(entry_order);
    if i == j {
        lemma_natural_order_same(name_bytes(s[i].name@));
    } else {
        lemma_in_order_between(s, i, j - 1);
        assert(entry_order(s[j - 1], s[j]) != NameOrder::Greater);
        lemma_natural_order_transitive(
            name_bytes(s[i].name@),
            name_bytes(s[j - 1].name@),
            name_bytes(s[j].name@),
        );
    }
}

/// A list where no entry is greater than the next is sorted.
pub proof fn lemma_in_order_is_sorted(s: Seq<TemplateDirEntry>)
    requires
        in_natural_order(s),
    ensures
        is_sorted(s),
{
    assert forall|i: int, j: int| 0 <= i <= j < s.len() implies entry_order(
        #[trigger] s[i],
        #[trigger] s[j],
    ) != NameOrder::Greater by {
        lemma_in_order_between(s, i, j);
    }
}

/// What sorting gives: the same entries, none greater than any later one; a
/// list already in natural order is returned unchanged, so sorting twice
/// gives what sorting once gives.
pub proof fn lemma_natural_sort(s: Seq<TemplateDirEntry>)
    ensures
        natural_sort(s).to_multiset() == s.to_multiset(),
        natural_sort(s).len() == s.len(),
        in_natural_order(natural_sort(s)),
        is_sorted(natural_sort(s)),
        in_natural_order(s) ==> natural_sort(s) == s,
        natural_sort(natural_sort(s)) == natural_sort(s),
{
    lemma_sorted_same_entries(s, 0);
    assert(s.subrange(0, s.len() as int) =~= s);
    s.to_multiset_ensures();
    natural_sort(s).to_multiset_ensures();
    lemma_sorted_in_order(s, 0);
    if in_natural_order(s) {
        lemma_sorted_stays(s, 0);
    }
    let t = natural_sort(s);
    lemma_in_order_is_sorted(t);
    lemma_sorted_stays(t, 0);
    assert(t.subrange(0, t.len() as int) =~= t);
}

/// Why an operation on the store failed.
#[derive(Debug, Clone, Copy, PartialEq, Eq, Structural)]
pub enum FileError {
    FileNotFound,
    FailedToWrite,
    FailedToCreate,
}

/// The files of one folder with the time of the read, in seconds since the
/// epoch.
#[derive(Debug, Clone, PartialEq, Eq)]
pub struct DirData {
    pub entries: Vec<TemplateDirEntry>,
    pub last_read: u64,
}

/// A point in time: whole seconds since the epoch and the nanoseconds into
/// the next one.
#[derive(Debug, Clone, Copy, PartialEq, Eq, Structural)]
pub struct FileTime {
    pub secs: u64,
    pub nanos: u32,
}

impl FileTime {
    /// Whether this time lies strictly after `since` seconds since the epoch.
    pub open spec fn is_after(self, since: u64) -> bool {
        self.secs > since || (self.secs == since && self.nanos > 0)
    }

    /// Whether this time lies strictly after `since` seconds since the epoch.
    pub fn after(&self, since: u64) -> (r: bool)
        ensures
            r == self.is_after(since),
    {
        self.secs > since || (self.secs == since && self.nanos > 0)
    }
}

/// What a directory listing tells of one of its entries.
#[derive(Debug, Clone, PartialEq, Eq)]
pub struct FileStat {
    pub name: String,
    pub is_file: bool,
    pub modified: Option<FileTime>,
}

/// A file that was read: its name, and its text unless the bytes are no text.
#[derive(Debug, Clone, PartialEq, Eq)]
pub struct FileText {
    pub name: String,
    pub text: Option<String>,
}

/// Whether a listed entry is read. A full read (`since` is `None`) takes
/// every regular file. A reload takes the regular files modified strictly
/// after `since`, and those whose modification time is not known.
pub open spec fn is_wanted(stat: FileStat, since: Option<u64>) -> bool {
    stat.is_file && match since {
        None => true,
        Some(t) => match stat.modified {
            None => true,
            Some(m) => m.is_after(t),
        },
    }
}

/// The positions among the first `n` of a listing that are read, ascending.
pub open spec fn wanted_upto(listing: Seq<FileStat>, since: Option<u64>, n: int) -> Seq<usize>
    decreases n,
{
    if n <= 0 {
        Seq::empty()
    } else if is_wanted(listing[n - 1], since) {
        wanted_upto(listing, since, n - 1).push((n - 1) as usize)
    } else {
        wanted_upto(listing, since, n - 1)
    }
}

/// The positions of a listing that are read, ascending.
pub open spec fn wanted(listing: Seq<FileStat>, since: Option<u64>) -> Seq<usize> {
    wanted_upto(listing, since, listing.len() as int)
}

/// The wanted positions are exactly those of the wanted entries, each once
/// and in the order of the listing.
pub proof fn lemma_wanted_upto(listing: Seq<FileStat>, since: Option<u64>, n: int)
    requires
        0 <= n <= listing.len(),
        listing.len() <= usize::MAX,
    ensures
        forall|k: int|
            0 <= k < wanted_upto(listing, since, n).len() ==> {
                let i = #[trigger] wanted_upto(listing, since, n)[k];
                0 <= i < n && is_wanted(listing[i as int], since)
            },
        forall|k: int, l: int|
            0 <= k < l < wanted_upto(listing, since, n).len() ==> #[trigger] wanted_upto(
                listing,
                since,
                n,
            )[k] < #[trigger] wanted_upto(listing, since, n)[l],
        forall|i: int|
            0 <= i < n && is_wanted(#[trigger] listing[i], since) ==> wanted_upto(
                listing,
                since,
                n,
            ).contains(i as usize),
    decreases n,
{
    if n > 0 {
        lemma_wanted_upto(listing, since, n - 1);
        let before = wanted_upto(listing, since, n - 1);
        let now = wanted_upto(listing, since, n);
        assert forall|i: int| 0 <= i < n && is_wanted(#[trigger] listing[i], since) implies now.contains(
            i as usize,
        ) by {
            if i < n - 1 {
                let k = choose|k: int| 0 <= k < before.len() && before[k] == i as usize;
                assert(now[k] == i as usize);
            } else {
                assert(now[now.len() - 1] == i as usize);
            }
        }
    }
}

/// Picks the entries of a listing that are read: all regular files where
/// `since` is `None`, else the regular files modified after `since` or of
/// unknown modification time. Gives their positions in the listing.
pub fn files_to_read(listing: &Vec<FileStat>, since: Option<u64>) -> (r: Vec<usize>)
    ensures
        r@ == wanted(listing@, since),
        forall|k: int|
            0 <= k < r@.len() ==> (#[trigger] r@[k]) < listing@.len() && is_wanted(
                listing@[r@[k] as int],
                since,
            ),
        forall|k: int, l: int| 0 <= k < l < r@.len() ==> #[trigger] r@[k] < #[trigger] r@[l],
        forall|i: int|
            0 <= i < listing@.len() && is_wanted(#[trigger] listing@[i], since) ==> r@.contains(
                i as usize,
            ),
{
    let mut out: Vec<usize> = Vec::new();
    let mut i: usize = 0;
    while i < listing.len()
        invariant
            i <= listing@.len(),
            out@ == wanted_upto(listing@, since, i as int),
        decreases listing@.len() - i,
    {
        let stat = &listing[i];
        let take: bool = stat.is_file && match since {
            None => true,
            Some(t) => match &stat.modified {
                None => true,
                Some(m) => m.after(t),
            },
        };
        if take {
            out.push(i);
        }
        i += 1;
    }
    proof {
        lemma_wanted_upto(listing@, since, listing@.len() as int);
    }
    out
}

proof fn lemma_single_change_upto(listing: Seq<FileStat>, since: u64, changed: int, n: int)
    requires
        0 <= n <= listing.len(),
        0 <= changed < listing.len() <= usize::MAX,
        forall|i: int|
            0 <= i < listing.len() ==> (#[trigger] listing[i]).is_file && listing[i].modified
                is Some,
        forall|i: int|
            0 <= i < listing.len() ==> ((#[trigger] listing[i]).modified->0.is_after(since) <==> i
                == changed),
    ensures
        wanted_upto(listing, Some(since), n) == if n > changed {
            seq![changed as usize]
        } else {
            Seq::empty()
        },
    decreases n,
{
    if n > 0 {
        lemma_single_change_upto(listing, since, changed, n - 1);
        assert(listing[n - 1].is_file);
        if n - 1 == changed {
            assert(Seq::<usize>::empty().push(changed as usize) =~= seq![changed as usize]);
        }
    }
}

/// Where every entry is a regular file of known modification time and exactly
/// one of them was modified after `since`, a reload reads that one and no
/// other.
pub proof fn lemma_single_change(listing: Seq<FileStat>, since: u64, changed: int)
    requires
        0 <= changed < listing.len() <= usize::MAX,
        forall|i: int|
            0 <= i < listing.len() ==> (#[trigger] listing[i]).is_file && listing[i].modified
                is Some,
        forall|i: int|
            0 <= i < listing.len() ==> ((#[trigger] listing[i]).modified->0.is_after(since) <==> i
                == changed),
    ensures
        wanted(listing, Some(since)) == seq![changed as usize],
{
    lemma_single_change_upto(listing, since, changed, listing.len() as int);
}

/// The entries of the first `n` files that were read as text, in their order.
pub open spec fn readable_upto(files: Seq<FileText>, n: int) -> Seq<TemplateDirEntry>
    decreases n,
{
    if n <= 0 {
        Seq::empty()
    } else {
        match files[n - 1].text {
            Some(t) => readable_upto(files, n - 1).push(
                TemplateDirEntry { name: files[n - 1].name, data: Some(t) },
            ),
            None => readable_upto(files, n - 1),
        }
    }
}

/// The entries of the files that were read as text: a file whose bytes are
/// no text leaves no entry.
pub open spec fn readable(files: Seq<FileText>) -> Seq<TemplateDirEntry> {
    readable_upto(files, files.len() as int)
}

/// Turns the files that were read into entries, leaving out those without
/// text.
pub fn readable_entries(files: &Vec<FileText>) -> (r: Vec<TemplateDirEntry>)
    ensures
        r@ == readable(files@),
{
    let mut out: Vec<TemplateDirEntry> = Vec::new();
    let mut i: usize = 0;
    while i < files.len()
        invariant
            i <= files@.len(),
            out@ == readable_upto(files@, i as int),
        decreases files@.len() - i,
    {
        match &files[i].text {
            Some(t) => {
                out.push(TemplateDirEntry { name: files[i].name.clone(), data: Some(t.clone()) });
            },
            None => {},
        }
        i += 1;
    }
    out
}

/// A full read at time `now`: the readable files in natural order of their
/// names. `files` is `None` where the folder is no directory or cannot be
/// listed.
pub fn read_at(files: Option<Vec<FileText>>, now: u64) -> (r: Result<DirData, FileError>)
    ensures
        match r {
            Ok(d) => files is Some && d.entries@ == natural_sort(readable(files->0@))
                && is_sorted(d.entries@) && d.last_read == now,
            Err(e) => files is None && e == FileError::FileNotFound,
        },
{
    match files {
        None => Err(FileError::FileNotFound),
        Some(f) => {
            let entries = sort_entries(readable_entries(&f));
            Ok(DirData { entries, last_read: now })
        },
    }
}

/// A reload at time `now`: the readable files among those picked, in the
/// order they were read. `files` is `None` where the folder is no directory
/// or cannot be listed.
pub fn reload_at(files: Option<Vec<FileText>>, now: u64) -> (r: Result<DirData, FileError>)
    ensures
        match r {
            Ok(d) => files is Some && d.entries@ == readable(files->0@) && d.last_read == now,
            Err(e) => files is None && e == FileError::FileNotFound,
        },
{
    match files {
        None => Err(FileError::FileNotFound),
        Some(f) => {
            let entries = readable_entries(&f);
            Ok(DirData { entries, last_read: now })
        },
    }
}

/// A full read of a folder: the readable files in natural order of their
/// names, with the time of the read, taken after the listing. `files` is
/// `None` where the folder is no directory or cannot be listed, and the read
/// then fails with `FileNotFound`.
pub fn template_dir_read(files: Option<Vec<FileText>>) -> (r: Result<DirData, FileError>)
    ensures
        match r {
            Ok(d) => files is Some && d.entries@ == natural_sort(readable(files->0@))
                && is_sorted(d.entries@),
            Err(e) => files is None && e == FileError::FileNotFound,
        },
{
    match files {
        None => Err(FileError::FileNotFound),
        Some(f) => read_at(Some(f), get_now()),
    }
}

/// A reload of a folder: the readable files among those that
/// `files_to_read` picked, in the order they were read, with the time of the
/// read. `files` is `None` where the folder is no directory or cannot be
/// listed, and the reload then fails with `FileNotFound`.
pub fn template_dir_reload(files: Option<Vec<FileText>>) -> (r: Result<DirData, FileError>)
    ensures
        match r {
            Ok(d) => files is Some && d.entries@ == readable(files->0@),
            Err(e) => files is None && e == FileError::FileNotFound,
        },
{
    match files {
        None => Err(FileError::FileNotFound),
        Some(f) => reload_at(Some(f), get_now()),
    }
}

/// The regular files among the first `n` of a listing, as entries without
/// content.
pub open spec fn listed_upto(listing: Seq<FileStat>, n: int) -> Seq<TemplateDirEntry>
    decreases n,
{
    if n <= 0 {
        Seq::empty()
    } else if listing[n - 1].is_file {
        listed_upto(listing, n - 1).push(
            TemplateDirEntry { name: listing[n - 1].name, data: None },
        )
    } else {
        listed_upto(listing, n - 1)
    }
}

/// The names of entries, in their order.
pub open spec fn names_of(s: Seq<TemplateDirEntry>) -> Seq<String> {
    Seq::new(s.len(), |i: int| s[i].name)
}

/// The names of the regular files of a folder in natural order. `listing` is
/// `None` where the folder is no directory or cannot be listed, and the call
/// then fails with `FileNotFound`.
pub fn template_dir_list(listing: Option<Vec<FileStat>>) -> (r: Result<Vec<String>, FileError>)
    ensures
        match r {
            Ok(names) => listing is Some && names@ == names_of(
                natural_sort(listed_upto(listing->0@, listing->0@.len() as int)),
            ),
            Err(e) => listing is None && e == FileError::FileNotFound,
        },
{
    match listing {
        None => Err(FileError::FileNotFound),
        Some(stats) => {
            let mut entries: Vec<TemplateDirEntry> = Vec::new();
            let mut i: usize = 0;
            while i < stats.len()
                invariant
                    i <= stats@.len(),
                    entries@ == listed_upto(stats@, i as int),
                decreases stats@.len() - i,
            {
                if stats[i].is_file {
                    entries.push(TemplateDirEntry { name: stats[i].name.clone(), data: None });
                }
                i += 1;
            }
            let sorted = sort_entries(entries);
            let mut names: Vec<String> = Vec::new();
            let mut k: usize = 0;
            while k < sorted.len()
                invariant
                    k <= sorted@.len(),
                    names@.len() == k,
                    forall|t: int| 0 <= t < k ==> names@[t] == sorted@[t].name,
                decreases sorted@.len() - k,
            {
                names.push(sorted[k].name.clone());
                k += 1;
            }
            assert(names@ =~= names_of(sorted@));
            Ok(names)
        },
    }
}

} // verus!
