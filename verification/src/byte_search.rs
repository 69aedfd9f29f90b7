//! Searching a byte slice for the first byte of a small set.

use vstd::prelude::*;

verus! {

/// The index of the first byte of `s`, at `from` or later, that is in `targets`.
pub open spec fn first_from(s: Seq<u8>, from: nat, targets: Set<u8>) -> Option<nat>
    decreases s.len() - from,
{
    if from >= s.len() {
        None
    } else if targets.contains(s[from as int]) {
        Some(from)
    } else {
        first_from(s, from + 1, targets)
    }
}

/// `memchr::memchr` returns the index of the first byte of `haystack` that equals
/// `needle`, and `None` where there is no such byte.
pub assume_specification[ memchr::memchr ](needle: u8, haystack: &[u8]) -> (r: Option<usize>)
    ensures
        match r {
            Some(i) => {
                &&& i < haystack@.len()
                &&& haystack@[i as int] == needle
                &&& forall|j: int| 0 <= j < i ==> haystack@[j] != needle
            },
            None => forall|j: int| 0 <= j < haystack@.len() ==> haystack@[j] != needle,
        },
;

/// `memchr::memchr2` returns the index of the first byte of `haystack` that equals
/// one of the two needles, and `None` where there is no such byte.
pub assume_specification[ memchr::memchr2 ](needle1: u8, needle2: u8, haystack: &[u8]) -> (r: Option<
    usize,
>)
    ensures
        match r {
            Some(i) => {
                &&& i < haystack@.len()
                &&& haystack@[i as int] == needle1 || haystack@[i as int] == needle2
                &&& forall|j: int|
                    0 <= j < i ==> haystack@[j] != needle1 && haystack@[j] != needle2
            },
            None => forall|j: int|
                0 <= j < haystack@.len() ==> haystack@[j] != needle1 && haystack@[j] != needle2,
        },
;

/// `memchr::memchr3` returns the index of the first byte of `haystack` that equals
/// one of the three needles, and `None` where there is no such byte.
pub assume_specification[ memchr::memchr3 ](
    needle1: u8,
    needle2: u8,
    needle3: u8,
    haystack: &[u8],
) -> (r: Option<usize>)
    ensures
        match r {
            Some(i) => {
                &&& i < haystack@.len()
                &&& haystack@[i as int] == needle1 || haystack@[i as int] == needle2
                    || haystack@[i as int] == needle3
                &&& forall|j: int|
                    0 <= j < i ==> haystack@[j] != needle1 && haystack@[j] != needle2
                        && haystack@[j] != needle3
            },
            None => forall|j: int|
                0 <= j < haystack@.len() ==> haystack@[j] != needle1 && haystack@[j] != needle2
                    && haystack@[j] != needle3,
        },
;

/// `first_from` is what its name says: an index that it returns lies in the
/// sequence, at `from` or later, holds a target, and no earlier one does.
pub proof fn lemma_first_from(s: Seq<u8>, from: nat, targets: Set<u8>)
    ensures
        match first_from(s, from, targets) {
            Some(i) => {
                &&& from <= i < s.len()
                &&& targets.contains(s[i as int])
                &&& forall|j: int| from <= j < i ==> !targets.contains(s[j])
            },
            None => forall|j: int| from <= j < s.len() ==> !targets.contains(s[j]),
        },
    decreases s.len() - from,
{
    if from < s.len() && !targets.contains(s[from as int]) {
        lemma_first_from(s, from + 1, targets);
    }
}

/// An index with these properties is the one that `first_from` returns.
pub proof fn lemma_first_from_is(s: Seq<u8>, from: nat, targets: Set<u8>, i: nat)
    requires
        from <= i < s.len(),
        targets.contains(s[i as int]),
        forall|j: int| from <= j < i ==> !targets.contains(s[j]),
    ensures
        first_from(s, from, targets) == Some(i),
{
    lemma_first_from(s, from, targets);
}

/// Searching what is left of a sequence is searching the sequence further on.
pub proof fn lemma_first_from_shift(s: Seq<u8>, start: nat, from: nat, targets: Set<u8>)
    requires
        start <= s.len(),
    ensures
        first_from(s, start + from, targets) == (match first_from(
            s.skip(start as int),
            from,
            targets,
        ) {
            Some(i) => Some(start + i),
            None => None,
        }),
    decreases s.len() - start - from,
{
    if start + from < s.len() && !targets.contains(s[(start + from) as int]) {
        lemma_first_from_shift(s, start, from + 1, targets);
    }
}

/// What was found stays found when more bytes follow.
pub proof fn lemma_first_from_extend(s: Seq<u8>, more: Seq<u8>, from: nat, targets: Set<u8>)
    requires
        first_from(s, from, targets) is Some,
    ensures
        first_from(s + more, from, targets) == first_from(s, from, targets),
    decreases s.len() - from,
{
    if !targets.contains(s[from as int]) {
        lemma_first_from_extend(s, more, from + 1, targets);
    }
}

} // verus!
