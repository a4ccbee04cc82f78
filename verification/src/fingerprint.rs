//! Content fingerprints: the SHA-1 digest of each file's text, written as
//! forty lowercase hexadecimal digits.

use crate::listing::FileText;
use sha1::{Digest, Sha1};
use vstd::prelude::*;
use vstd::utf8::encode_utf8;

verus! {

broadcast use {
    vstd::std_specs::vec::axiom_vec_decreases_to_view,
    vstd::seq::axiom_seq_index_decreases,
};

/// A SHA-1 hasher of the `sha1` crate, behind a closed door: nothing of its
/// state is visible but what `absorbed` names.
#[verifier::external_body]
pub struct Hasher {
    inner: Sha1,
}

/// The SHA-1 digest of a sequence of bytes.
pub uninterp spec fn sha1_of(data: Seq<u8>) -> Seq<u8>;

/// The bytes that a hasher has taken in since it was made or last reset.
pub uninterp spec fn absorbed(h: Hasher) -> Seq<u8>;

/// `Sha1::new` makes a hasher that has taken in nothing.
#[verifier::external_body]
fn new_hasher() -> (h: Hasher)
    ensures
        absorbed(h) == Seq::<u8>::empty(),
{
    Hasher { inner: Sha1::new() }
}

/// `Sha1::update` feeds `data` to the hasher, after what it has taken in
/// before.
#[verifier::external_body]
fn hasher_update(h: &mut Hasher, data: &[u8])
    ensures
        absorbed(*final(h)) == absorbed(*old(h)) + data@,
{
    h.inner.update(data)
}

/// `Sha1::finalize_reset` gives the digest of all that the hasher has taken
/// in, twenty bytes, and leaves the hasher as new.
#[verifier::external_body]
fn hasher_finalize_reset(h: &mut Hasher) -> (r: Vec<u8>)
    ensures
        r@ == sha1_of(absorbed(*old(h))),
        r@.len() == 20,
        absorbed(*final(h)) == Seq::<u8>::empty(),
{
    h.inner.finalize_reset().to_vec()
}

/// The sixteen hexadecimal digits, lowercase.
pub open spec fn hex_digits() -> Seq<char> {
    seq!['0', '1', '2', '3', '4', '5', '6', '7', '8', '9', 'a', 'b', 'c', 'd', 'e', 'f']
}

/// Bytes written in hexadecimal: two lowercase digits each, the high half
/// first.
pub open spec fn hex_of(bytes: Seq<u8>) -> Seq<char>
    decreases bytes.len(),
{
    if bytes.len() == 0 {
        Seq::empty()
    } else {
        hex_of(bytes.drop_last()) + seq![
            hex_digits()[(bytes.last() / 16) as int],
            hex_digits()[(bytes.last() % 16) as int],
        ]
    }
}

/// Hexadecimal text has two digits for each byte.
pub proof fn lemma_hex_len(bytes: Seq<u8>)
    ensures
        hex_of(bytes).len() == 2 * bytes.len(),
    decreases bytes.len(),
{
    if bytes.len() > 0 {
        lemma_hex_len(bytes.drop_last());
    }
}

/// One hexadecimal digit as text.
pub fn hex_digit(n: u8) -> (r: &'static str)
    requires
        n < 16,
    ensures
        r@ == seq![hex_digits()[n as int]],
{
    proof {
        reveal_strlit("0");
        reveal_strlit("1");
        reveal_strlit("2");
        reveal_strlit("3");
        reveal_strlit("4");
        reveal_strlit("5");
        reveal_strlit("6");
        reveal_strlit("7");
        reveal_strlit("8");
        reveal_strlit("9");
        reveal_strlit("a");
        reveal_strlit("b");
        reveal_strlit("c");
        reveal_strlit("d");
        reveal_strlit("e");
        reveal_strlit("f");
    }
    let r = match n {
        0 => "0",
        1 => "1",
        2 => "2",
        3 => "3",
        4 => "4",
        5 => "5",
        6 => "6",
        7 => "7",
        8 => "8",
        9 => "9",
        10 => "a",
        11 => "b",
        12 => "c",
        13 => "d",
        14 => "e",
        _ => "f",
    };
    assert(r@ =~= seq![hex_digits()[n as int]]);
    r
}

/// Writes bytes in lowercase hexadecimal.
pub fn hex_lower(bytes: &[u8]) -> (r: String)
    ensures
        r@ == hex_of(bytes@),
        r@.len() == 2 * bytes@.len(),
{
    let mut out = String::new();
    let mut i: usize = 0;
    assert(bytes@.take(0) =~= Seq::<u8>::empty());
    while i < bytes.len()
        invariant
            i <= bytes@.len(),
            out@ == hex_of(bytes@.take(i as int)),
        decreases bytes@.len() - i,
    {
        let b: u8 = bytes[i];
        out.append(hex_digit(b / 16));
        out.append(hex_digit(b % 16));
        proof {
            let next = bytes@.take(i + 1);
            assert(next.drop_last() =~= bytes@.take(i as int));
            assert(next.last() == b);
            assert(out@ =~= hex_of(next));
        }
        i += 1;
    }
    proof {
        assert(bytes@.take(bytes@.len() as int) =~= bytes@);
        lemma_hex_len(bytes@);
    }
    out
}

/// The path of a file and the digest of its content.
#[derive(Debug, Clone, PartialEq, Eq)]
pub struct Entry {
    pub path: String,
    pub hash: String,
}

/// The fingerprint of a text: the SHA-1 digest of its UTF-8 bytes in
/// lowercase hexadecimal.
pub open spec fn digest_of(text: Seq<char>) -> Seq<char> {
    hex_of(sha1_of(encode_utf8(text)))
}

/// Path and digest of each of the first `n` files that were read as text, in
/// their order; a file whose bytes are no text leaves no entry.
pub open spec fn fingerprints_upto(files: Seq<FileText>, n: int) -> Seq<(Seq<char>, Seq<char>)>
    decreases n,
{
    if n <= 0 {
        Seq::empty()
    } else {
        match files[n - 1].text {
            Some(t) => fingerprints_upto(files, n - 1).push((files[n - 1].name@, digest_of(t@))),
            None => fingerprints_upto(files, n - 1),
        }
    }
}

/// Path and digest of each file that was read as text.
pub open spec fn fingerprints(files: Seq<FileText>) -> Seq<(Seq<char>, Seq<char>)> {
    fingerprints_upto(files, files.len() as int)
}

/// Path and digest of each entry.
pub open spec fn entry_views(entries: Seq<Entry>) -> Seq<(Seq<char>, Seq<char>)> {
    Seq::new(entries.len(), |i: int| (entries[i].path@, entries[i].hash@))
}

/// One entry of a directory: a directory with its own entries, in the order
/// of its listing, or a file, named by its path.
#[derive(Debug)]
pub enum TreeItem {
    Folder(Vec<TreeItem>),
    File(FileText),
}

/// The files among the first `n` of `items` and in the directories among
/// them, depth first: a directory's files stand where the directory stands.
pub open spec fn files_below(items: Seq<TreeItem>, n: int) -> Seq<FileText>
    decreases items, n,
{
    if n <= 0 || n > items.len() {
        Seq::empty()
    } else {
        files_below(items, n - 1) + match items[n - 1] {
            TreeItem::Folder(inner) => files_below(inner@, inner@.len() as int),
            TreeItem::File(f) => seq![f],
        }
    }
}

/// The fingerprints of the first `n` files depend on those files alone.
pub proof fn lemma_fingerprints_prefix(a: Seq<FileText>, b: Seq<FileText>, n: int)
    requires
        0 <= n <= a.len(),
        n <= b.len(),
        forall|i: int| 0 <= i < n ==> a[i] == b[i],
    ensures
        fingerprints_upto(a, n) == fingerprints_upto(b, n),
    decreases n,
{
    if n > 0 {
        lemma_fingerprints_prefix(a, b, n - 1);
    }
}

/// The fingerprints of two lists of files, one after the other, are those of
/// the first followed by those of the second.
pub proof fn lemma_fingerprints_concat(a: Seq<FileText>, b: Seq<FileText>)
    ensures
        fingerprints(a + b) == fingerprints(a) + fingerprints(b),
    decreases b.len(),
{
    if b.len() == 0 {
        assert(a + b =~= a);
        assert(fingerprints(a) + fingerprints(b) =~= fingerprints(a));
    } else {
        let front = b.drop_last();
        lemma_fingerprints_concat(a, front);
        lemma_fingerprints_prefix(a + b, a + front, (a.len() + front.len()) as int);
        lemma_fingerprints_prefix(b, front, front.len() as int);
        assert((a + b)[a.len() + b.len() - 1] == b[b.len() - 1]);
        assert(fingerprints(a + b) =~= fingerprints(a) + fingerprints(b));
    }
}

/// Adds the fingerprints of the files below `items` to `entries`, depth
/// first, for each file that was read as text. Each digest is that of its
/// own file alone and has forty digits.
pub fn list_hash(entries: &mut Vec<Entry>, items: &Vec<TreeItem>)
    ensures
        entry_views(final(entries)@) == entry_views(old(entries)@) + fingerprints(
            files_below(items@, items@.len() as int),
        ),
        final(entries)@.len() >= old(entries)@.len(),
        forall|k: int|
            0 <= k < old(entries)@.len() ==> #[trigger] final(entries)@[k] == old(entries)@[k],
        forall|k: int|
            old(entries)@.len() <= k < final(entries)@.len() ==> (#[trigger] final(entries)@[k]).hash@.len()
                == 40,
    decreases items,
{
    let mut hasher = new_hasher();
    let mut i: usize = 0;
    assert(entry_views(entries@) =~= entry_views(old(entries)@) + fingerprints(
        files_below(items@, 0),
    ));
    while i < items.len()
        invariant
            i <= items@.len(),
            absorbed(hasher) == Seq::<u8>::empty(),
            entries@.len() >= old(entries)@.len(),
            forall|k: int|
                0 <= k < old(entries)@.len() ==> #[trigger] entries@[k] == old(entries)@[k],
            forall|k: int|
                old(entries)@.len() <= k < entries@.len() ==> (#[trigger] entries@[k]).hash@.len()
                    == 40,
            entry_views(entries@) == entry_views(old(entries)@) + fingerprints(
                files_below(items@, i as int),
            ),
        decreases items@.len() - i,
    {
        let ghost before = entry_views(entries@);
        let ghost done = files_below(items@, i as int);
        match &items[i] {
            TreeItem::Folder(inner) => {
                list_hash(entries, inner);
                proof {
                    lemma_fingerprints_concat(done, files_below(inner@, inner@.len() as int));
                }
            },
            TreeItem::File(f) => {
                proof {
                    lemma_fingerprints_concat(done, seq![*f]);
                    assert(fingerprints_upto(seq![*f], 0) =~= Seq::empty());
                }
                match &f.text {
                    Some(data) => {
                        hasher_update(&mut hasher, data.as_str().as_bytes());
                        assert(absorbed(hasher) =~= encode_utf8(data@));
                        let result = hasher_finalize_reset(&mut hasher);
                        let digest = hex_lower(result.as_slice());
                        let entry = Entry { path: f.name.clone(), hash: digest };
                        entries.push(entry);
                        assert(entry_views(entries@) =~= before.push((f.name@, digest_of(data@))));
                        assert(fingerprints(seq![*f]) =~= seq![(f.name@, digest_of(data@))]);
                    },
                    None => {
                        assert(fingerprints(seq![*f]) =~= Seq::empty());
                    },
                }
            },
        }
        assert(entry_views(entries@) =~= entry_views(old(entries)@) + fingerprints(
            files_below(items@, i + 1),
        ));
        i += 1;
    }
}

/// The fingerprints of all files below `items` that were read as text, depth
/// first; each digest has forty digits.
pub fn template_list_hash(items: &Vec<TreeItem>) -> (r: Vec<Entry>)
    ensures
        entry_views(r@) == fingerprints(files_below(items@, items@.len() as int)),
        forall|k: int| 0 <= k < r@.len() ==> (#[trigger] r@[k]).hash@.len() == 40,
{
    let mut entries: Vec<Entry> = Vec::new();
    list_hash(&mut entries, items);
    assert(entry_views(Seq::<Entry>::empty()) + fingerprints(
        files_below(items@, items@.len() as int),
    ) =~= fingerprints(files_below(items@, items@.len() as int)));
    entries
}

proof fn lemma_one_file_changed_upto(before: Seq<FileText>, after: Seq<FileText>, changed: int, n: int)
    requires
        before.len() == after.len(),
        0 <= changed < before.len(),
        0 <= n <= before.len(),
        forall|i: int| 0 <= i < before.len() && i != changed ==> before[i] == after[i],
        before[changed].name == after[changed].name,
        before[changed].text is Some,
        after[changed].text is Some,
    ensures
        fingerprints_upto(before, n).len() == fingerprints_upto(after, n).len(),
        n <= changed ==> fingerprints_upto(before, n) == fingerprints_upto(after, n),
        forall|j: int|
            0 <= j < fingerprints_upto(before, n).len() ==> (#[trigger] fingerprints_upto(
                before,
                n,
            )[j]).0 == fingerprints_upto(after, n)[j].0,
        forall|j: int|
            0 <= j < fingerprints_upto(before, n).len() && j != fingerprints_upto(
                before,
                changed,
            ).len() ==> #[trigger] fingerprints_upto(before, n)[j] == fingerprints_upto(
                after,
                n,
            )[j],
    decreases n,
{
    if n > 0 {
        lemma_one_file_changed_upto(before, after, changed, n - 1);
    }
}

/// Fingerprints depend on nothing but the files given, so two runs over the
/// same files agree. Where one file's text changes and all else stays, the
/// fingerprints keep their number, their order and their paths, and every
/// digest but that file's stays as it was.
pub proof fn lemma_one_file_changed(before: Seq<FileText>, after: Seq<FileText>, changed: int)
    requires
        before.len() == after.len(),
        0 <= changed < before.len(),
        forall|i: int| 0 <= i < before.len() && i != changed ==> before[i] == after[i],
        before[changed].name == after[changed].name,
        before[changed].text is Some,
        after[changed].text is Some,
    ensures
        fingerprints(before).len() == fingerprints(after).len(),
        forall|j: int|
            0 <= j < fingerprints(before).len() ==> (#[trigger] fingerprints(before)[j]).0
                == fingerprints(after)[j].0,
        forall|j: int|
            0 <= j < fingerprints(before).len() && j != fingerprints_upto(before, changed).len()
                ==> #[trigger] fingerprints(before)[j] == fingerprints(after)[j],
        fingerprints_upto(before, changed).len() < fingerprints(before).len(),
        fingerprints(before)[fingerprints_upto(before, changed).len() as int] == (
            before[changed].name@,
            digest_of(before[changed].text->0@),
        ),
        fingerprints(after)[fingerprints_upto(before, changed).len() as int] == (
            before[changed].name@,
            digest_of(after[changed].text->0@),
        ),
{
    lemma_one_file_changed_upto(before, after, changed, before.len() as int);
    lemma_one_file_changed_upto(before, after, changed, changed);
    lemma_fingerprints_keep(before, changed + 1, before.len() as int);
    lemma_fingerprints_keep(after, changed + 1, before.len() as int);
}

/// Later files leave the fingerprints of earlier ones where they are.
pub proof fn lemma_fingerprints_keep(files: Seq<FileText>, m: int, n: int)
    requires
        0 <= m <= n,
    ensures
        fingerprints_upto(files, m).len() <= fingerprints_upto(files, n).len(),
        forall|j: int|
            0 <= j < fingerprints_upto(files, m).len() ==> #[trigger] fingerprints_upto(files, n)[j]
                == fingerprints_upto(files, m)[j],
    decreases n,
{
    if n > m {
        lemma_fingerprints_keep(files, m, n - 1);
    }
}

} // verus!
