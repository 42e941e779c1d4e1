//! Audio files as the file browser lists them, and the records of copying
//! them.

use vstd::prelude::*;

use std::cmp::Ordering;

verus! {

/// A file found under a chosen directory.
#[derive(Debug, Clone, PartialEq, Eq)]
pub struct AudioFile {
    /// The file's name.
    pub name: String,
    /// The file's full path.
    pub path: String,
    /// The directory holding it, relative to the chosen one; empty at its top.
    pub relative_path: String,
}

/// A record of copying one file of a batch.
#[derive(Debug, Clone, PartialEq, Eq)]
pub struct CopyProgress {
    pub file_name: String,
    pub completed: bool,
    pub index: usize,
    pub total: usize,
}

/// Texts in the order of their characters' code points, which is the order
/// of their UTF-8 bytes.
pub open spec fn text_order(a: Seq<char>, b: Seq<char>) -> Ordering
    decreases a.len(),
{
    if a.len() == 0 {
        if b.len() == 0 {
            Ordering::Equal
        } else {
            Ordering::Less
        }
    } else if b.len() == 0 {
        Ordering::Greater
    } else if (a[0] as int) < (b[0] as int) {
        Ordering::Less
    } else if (a[0] as int) > (b[0] as int) {
        Ordering::Greater
    } else {
        text_order(a.drop_first(), b.drop_first())
    }
}

/// Two texts are in order `Equal` exactly when they are the same.
pub proof fn lemma_text_order_equal(a: Seq<char>, b: Seq<char>)
    ensures
        (text_order(a, b) == Ordering::Equal) == (a == b),
    decreases a.len(),
{
    if a.len() > 0 && b.len() > 0 && (a[0] as int) == (b[0] as int) {
        lemma_text_order_equal(a.drop_first(), b.drop_first());
        if a.drop_first() == b.drop_first() {
            assert(a =~= seq![a[0]] + a.drop_first());
            assert(b =~= seq![b[0]] + b.drop_first());
        }
    } else if a == b && a.len() > 0 {
        assert(a[0] == b[0]);
    } else if a.len() == 0 && b.len() == 0 {
        assert(a =~= b);
    }
}

/// The order of two texts.
pub fn compare_text(a: &str, b: &str) -> (r: Ordering)
    ensures
        r == text_order(a@, b@),
{
    let la = a.unicode_len();
    let lb = b.unicode_len();
    let mut i: usize = 0;
    assert(a@.skip(0) =~= a@ && b@.skip(0) =~= b@);
    loop
        invariant
            la == a@.len(),
            lb == b@.len(),
            i <= la,
            i <= lb,
            text_order(a@, b@) == text_order(a@.skip(i as int), b@.skip(i as int)),
        decreases la - i,
    {
        if i == la {
            return if i == lb {
                Ordering::Equal
            } else {
                Ordering::Less
            };
        }
        if i == lb {
            return Ordering::Greater;
        }
        let ca = a.get_char(i);
        let cb = b.get_char(i);
        assert(a@.skip(i as int)[0] == ca && b@.skip(i as int)[0] == cb);
        if (ca as u32) < (cb as u32) {
            return Ordering::Less;
        }
        if (ca as u32) > (cb as u32) {
            return Ordering::Greater;
        }
        assert(a@.skip(i as int).drop_first() =~= a@.skip(i + 1));
        assert(b@.skip(i as int).drop_first() =~= b@.skip(i + 1));
        i = i + 1;
    }
}

/// The order of a deep listing: by directory, then by name.
pub open spec fn listing_order_of(a: AudioFile, b: AudioFile) -> Ordering {
    match text_order(a.relative_path@, b.relative_path@) {
        Ordering::Equal => text_order(a.name@, b.name@),
        o => o,
    }
}

/// The order of a deep listing: by directory, then by name.
pub fn listing_order(a: &AudioFile, b: &AudioFile) -> (r: Ordering)
    ensures
        r == listing_order_of(*a, *b),
{
    match compare_text(a.relative_path.as_str(), b.relative_path.as_str()) {
        Ordering::Equal => compare_text(a.name.as_str(), b.name.as_str()),
        o => o,
    }
}

/// The order of a listing of one directory: by name.
pub fn name_order(a: &AudioFile, b: &AudioFile) -> (r: Ordering)
    ensures
        r == text_order(a.name@, b.name@),
{
    compare_text(a.name.as_str(), b.name.as_str())
}

/// Whether a file of this name is listed: all are but the folder metadata
/// file `.DS_Store`.
pub fn is_listed_name(name: &str) -> (r: bool)
    ensures
        r == (name@ != ".DS_Store"@),
{
    proof {
        lemma_text_order_equal(name@, ".DS_Store"@);
    }
    match compare_text(name, ".DS_Store") {
        Ordering::Equal => false,
        _ => true,
    }
}

/// Whether a copy in this mode first empties the destination: only in mode
/// `replace`.
pub fn replaces_destination(mode: &str) -> (r: bool)
    ensures
        r == (mode@ == "replace"@),
{
    proof {
        lemma_text_order_equal(mode@, "replace"@);
    }
    match compare_text(mode, "replace") {
        Ordering::Equal => true,
        _ => false,
    }
}

impl CopyProgress {
    /// The record of copying `file`, entry `index` of a batch of `total`.
    pub fn for_file(file: &AudioFile, completed: bool, index: usize, total: usize) -> (r:
        CopyProgress)
        ensures
            r.file_name@ == file.name@,
            r.completed == completed,
            r.index == index,
            r.total == total,
    {
        CopyProgress { file_name: file.name.clone(), completed, index, total }
    }
}

} // verus!
