//! Splitting a path into its directory and its file name. Both `\` and `/`
//! separate directories.

use crate::PATH_SEPARATOR_BYTESET;
use bstr::ByteSlice;
use vstd::prelude::*;
use vstd::slice::slice_subrange;

verus! {

/// Whether `b` separates directories.
pub open spec fn is_separator(b: u8) -> bool {
    b == 0x5c || b == 0x2f
}

/// The length of the directory portion of `path`: everything up to and
/// including the last separator, so 0 where there is no separator.
pub open spec fn dir_len(path: Seq<u8>) -> nat
    decreases path.len(),
{
    if path.len() == 0 {
        0
    } else if is_separator(path.last()) {
        path.len()
    } else {
        dir_len(path.drop_last())
    }
}

/// The directory portion of `path`, if it has one.
pub open spec fn dir_of(path: Seq<u8>) -> Option<Seq<u8>> {
    if dir_len(path) == 0 {
        None
    } else {
        Some(path.take(dir_len(path) as int))
    }
}

/// The file portion of `path`: what follows the last separator.
pub open spec fn file_of(path: Seq<u8>) -> Seq<u8> {
    path.skip(dir_len(path) as int)
}

/// A path with a separator has a directory portion, which is not empty and
/// ends with the last separator of the path; a path without one has none.
/// Either way the directory portion and the file portion make up the path.
pub proof fn lemma_dir_ends_at_last_separator(path: Seq<u8>)
    ensures
        dir_len(path) <= path.len(),
        (exists|i: int| 0 <= i < path.len() && is_separator(path[i])) <==> dir_of(path) is Some,
        dir_of(path) matches Some(dir) ==> dir.len() > 0 && is_separator(dir.last()) && dir
            == path.take(dir.len() as int),
        forall|j: int| dir_len(path) <= j < path.len() ==> !is_separator(path[j]),
        dir_of(path).unwrap_or(Seq::empty()) + file_of(path) == path,
    decreases path.len(),
{
    if path.len() > 0 && !is_separator(path.last()) {
        let front = path.drop_last();
        lemma_dir_ends_at_last_separator(front);
        if dir_of(path) is Some {
            let i = dir_len(path) - 1;
            assert(is_separator(path[i]));
        }
        if exists|i: int| 0 <= i < path.len() && is_separator(path[i]) {
            let i = choose|i: int| 0 <= i < path.len() && is_separator(path[i]);
            assert(is_separator(front[i]));
        }
    } else if path.len() > 0 {
        assert(is_separator(path[path.len() - 1]));
    }
    let n = dir_len(path) as int;
    assert(path.take(n) + path.skip(n) =~= path);
    assert(Seq::<u8>::empty() + path.skip(0) =~= path);
}

/// Where the last separator of `path` stands decides its directory portion.
pub proof fn lemma_dir_len_by_last_separator(path: Seq<u8>, last: int)
    requires
        -1 <= last < path.len(),
        last >= 0 ==> is_separator(path[last]),
        forall|j: int| last < j < path.len() ==> !is_separator(path[j]),
    ensures
        dir_len(path) == last + 1,
    decreases path.len(),
{
    if path.len() > 0 && !is_separator(path.last()) {
        lemma_dir_len_by_last_separator(path.drop_last(), last);
    }
}

/// `bstr`'s `ByteSlice::rfind_byteset`: the index of the last byte of
/// `haystack` that occurs in `byteset`, or `None` where no byte of
/// `haystack` does.
#[verifier::external_body]
fn rfind_byteset(haystack: &[u8], byteset: &[u8]) -> (found: Option<usize>)
    ensures
        match found {
            Some(i) => i < haystack@.len() && byteset@.contains(haystack@[i as int])
                && forall|j: int|
                i < j < haystack@.len() ==> !byteset@.contains(#[trigger] haystack@[j]),
            None => forall|j: int|
                0 <= j < haystack@.len() ==> !byteset@.contains(#[trigger] haystack@[j]),
        },
{
    haystack.rfind_byteset(byteset)
}

proof fn lemma_byteset_is_separators(b: u8)
    ensures
        PATH_SEPARATOR_BYTESET@.contains(b) <==> is_separator(b),
{
    let set = PATH_SEPARATOR_BYTESET@;
    assert(set.len() == 2 && set[0] == 0x5c && set[1] == 0x2f);
    if is_separator(b) {
        assert(set[0] == b || set[1] == b);
    }
}

/// The length of the directory portion of `path`.
pub fn split_point(path: &[u8]) -> (n: usize)
    ensures
        n == dir_len(path@),
        n <= path@.len(),
{
    let byteset = PATH_SEPARATOR_BYTESET;
    let len = path.len();
    let found = rfind_byteset(path, byteset.as_slice());
    proof {
        assert forall|j: int| 0 <= j < path@.len() implies (PATH_SEPARATOR_BYTESET@.contains(
            #[trigger] path@[j],
        ) <==> is_separator(path@[j])) by {
            lemma_byteset_is_separators(path@[j]);
        }
    }
    match found {
        Some(i) => {
            proof {
                lemma_dir_len_by_last_separator(path@, i as int);
            }
            i + 1
        },
        None => {
            proof {
                lemma_dir_len_by_last_separator(path@, -1);
            }
            0
        },
    }
}

/// The directory portion of `path`: everything up to and including its last
/// separator, or `None` where it has no separator.
pub fn dir(path: &[u8]) -> (out: Option<&[u8]>)
    ensures
        match out {
            Some(d) => dir_of(path@) == Some(d@),
            None => dir_of(path@) is None,
        },
{
    let n = split_point(path);
    if n == 0 {
        None
    } else {
        Some(slice_subrange(path, 0, n))
    }
}

/// The file portion of `path`: what follows its last separator, or all of
/// it where it has no separator.
pub fn file_name(path: &[u8]) -> (out: &[u8])
    ensures
        out@ == file_of(path@),
{
    let n = split_point(path);
    slice_subrange(path, n, path.len())
}

} // verus!
