//! Searching and comparing byte sequences.

use vstd::prelude::*;

verus! {

/// The byte that ends a field.
pub const NUL: u8 = 0;

/// The least index `j >= from` with `s[j] == byte`, if there is one.
pub open spec fn first_at(s: Seq<u8>, byte: u8, from: int) -> Option<int>
    decreases s.len() - from,
{
    if from < 0 || from >= s.len() {
        None
    } else if s[from] == byte {
        Some(from)
    } else {
        first_at(s, byte, from + 1)
    }
}

/// `first_at` finds the first occurrence at or after `from`, and nothing else.
pub proof fn lemma_first_at(s: Seq<u8>, byte: u8, from: int)
    requires
        0 <= from,
    ensures
        match first_at(s, byte, from) {
            Some(j) => from <= j < s.len() && s[j] == byte && forall|k: int|
                from <= k < j ==> s[k] != byte,
            None => forall|k: int| from <= k < s.len() ==> s[k] != byte,
        },
    decreases s.len() - from,
{
    if from < s.len() && s[from] != byte {
        lemma_first_at(s, byte, from + 1);
    }
}

/// An occurrence of `byte` at `j` with none in `from..j` is what `first_at`
/// finds.
pub proof fn lemma_first_at_is(s: Seq<u8>, byte: u8, from: int, j: int)
    requires
        0 <= from <= j < s.len(),
        s[j] == byte,
        forall|k: int| from <= k < j ==> s[k] != byte,
    ensures
        first_at(s, byte, from) == Some(j),
    decreases j - from,
{
    if from < j {
        lemma_first_at_is(s, byte, from + 1, j);
    }
}

/// Finds the first occurrence of `byte` in `data` at or after `from`.
pub fn find_from(data: &[u8], byte: u8, from: usize) -> (found: Option<usize>)
    ensures
        match found {
            Some(j) => first_at(data@, byte, from as int) == Some(j as int),
            None => first_at(data@, byte, from as int) is None,
        },
{
    let mut j: usize = from;
    while j < data.len()
        invariant
            from <= j,
            first_at(data@, byte, from as int) == first_at(data@, byte, j as int),
        decreases data.len() - j,
    {
        if data[j] == byte {
            return Some(j);
        }
        j += 1;
    }
    None
}

/// Whether `left` and `right` hold the same bytes.
pub fn same_bytes(left: &[u8], right: &[u8]) -> (same: bool)
    ensures
        same == (left@ == right@),
{
    if left.len() != right.len() {
        return false;
    }
    let mut i: usize = 0;
    while i < left.len()
        invariant
            i <= left.len() == right.len(),
            forall|k: int| 0 <= k < i ==> left@[k] == right@[k],
        decreases left.len() - i,
    {
        if left[i] != right[i] {
            return false;
        }
        i += 1;
    }
    assert(left@ =~= right@);
    true
}

} // verus!
