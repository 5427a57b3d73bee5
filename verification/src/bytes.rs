//! Byte-search primitives over slices, and the sequence facts they rest on.

use vstd::prelude::*;

verus! {

/// The index of the first `needle` in `s` at or after `from`, if any.
pub open spec fn first_index_of(s: Seq<u8>, needle: u8, from: int) -> Option<int>
    decreases s.len() - from,
{
    if from < 0 || from >= s.len() {
        None
    } else if s[from] == needle {
        Some(from)
    } else {
        first_index_of(s, needle, from + 1)
    }
}

/// The index of the last `needle` in `s` strictly before `to`, if any.
pub open spec fn last_index_before(s: Seq<u8>, needle: u8, to: int) -> Option<int>
    decreases to,
{
    if to <= 0 || to > s.len() {
        None
    } else if s[to - 1] == needle {
        Some(to - 1)
    } else {
        last_index_before(s, needle, to - 1)
    }
}

/// What `first_index_of` means, stated without recursion.
pub proof fn lemma_first_index_of(s: Seq<u8>, needle: u8, from: int)
    requires
        0 <= from <= s.len(),
    ensures
        match first_index_of(s, needle, from) {
            Some(i) => from <= i < s.len() && s[i] == needle && forall|j: int|
                from <= j < i ==> s[j] != needle,
            None => forall|j: int| from <= j < s.len() ==> s[j] != needle,
        },
    decreases s.len() - from,
{
    if from < s.len() && s[from] != needle {
        lemma_first_index_of(s, needle, from + 1);
    }
}

/// What `last_index_before` means, stated without recursion.
pub proof fn lemma_last_index_before(s: Seq<u8>, needle: u8, to: int)
    requires
        0 <= to <= s.len(),
    ensures
        match last_index_before(s, needle, to) {
            Some(i) => 0 <= i < to && s[i] == needle && forall|j: int| i < j < to ==> s[j] != needle,
            None => forall|j: int| 0 <= j < to ==> s[j] != needle,
        },
    decreases to,
{
    if to > 0 && s[to - 1] != needle {
        lemma_last_index_before(s, needle, to - 1);
    }
}

/// A first index is unique: any index that has `needle` and nothing before it
/// (from `from`) is the one `first_index_of` names.
pub proof fn lemma_first_index_of_unique(s: Seq<u8>, needle: u8, from: int, i: int)
    requires
        0 <= from <= i < s.len(),
        s[i] == needle,
        forall|j: int| from <= j < i ==> s[j] != needle,
    ensures
        first_index_of(s, needle, from) == Some(i),
    decreases i - from,
{
    if from < i {
        lemma_first_index_of_unique(s, needle, from + 1, i);
    }
}

/// Append `src[from..to]` to `out`.
pub fn push_range(out: &mut Vec<u8>, src: &[u8], from: usize, to: usize)
    requires
        from <= to <= src@.len(),
    ensures
        final(out)@ == old(out)@ + src@.subrange(from as int, to as int),
{
    let mut i = from;
    while i < to
        invariant
            from <= i <= to <= src@.len(),
            out@ == old(out)@ + src@.subrange(from as int, i as int),
        decreases to - i,
    {
        out.push(src[i]);
        assert(src@.subrange(from as int, i + 1) =~= src@.subrange(from as int, i as int).push(
            src@[i as int],
        ));
        i = i + 1;
    }
}

/// `memchr::memchr`: the position of the first `needle` in `haystack`.
#[verifier::external_body]
fn memchr_first(needle: u8, haystack: &[u8]) -> (r: Option<usize>)
    ensures
        r == (match first_index_of(haystack@, needle, 0) {
            Some(i) => Some(i as usize),
            None => None::<usize>,
        }),
{
    memchr::memchr(needle, haystack)
}

/// `memchr::memrchr`: the position of the last `needle` in `haystack`.
#[verifier::external_body]
fn memchr_last(needle: u8, haystack: &[u8]) -> (r: Option<usize>)
    ensures
        r == (match last_index_before(haystack@, needle, haystack@.len() as int) {
            Some(i) => Some(i as usize),
            None => None::<usize>,
        }),
{
    memchr::memrchr(needle, haystack)
}

/// The first `needle` in `s[from..to]`, as an index into `s`.
pub fn find_byte(s: &[u8], needle: u8, from: usize, to: usize) -> (r: Option<usize>)
    requires
        from <= to <= s@.len(),
    ensures
        r == (match first_index_of(s@.subrange(0, to as int), needle, from as int) {
            Some(i) => Some(i as usize),
            None => None::<usize>,
        }),
        match r {
            Some(i) => from <= i < to && s@[i as int] == needle && forall|j: int|
                from <= j < i ==> s@[j] != needle,
            None => forall|j: int| from <= j < to ==> s@[j] != needle,
        },
{
    let window = vstd::slice::slice_subrange(s, from, to);
    let found = memchr_first(needle, window);
    let ghost t = s@.subrange(0, to as int);
    proof {
        lemma_first_index_of(window@, needle, 0);
        lemma_first_index_of(t, needle, from as int);
    }
    match found {
        Some(i) => {
            proof {
                assert(window@[i as int] == t[from + i]);
                assert(t[from + i] == s@[from + i]);
                assert forall|j: int| from <= j < from + i implies t[j] != needle by {
                    assert(window@[j - from] == t[j]);
                }
                assert forall|j: int| from <= j < from + i implies s@[j] != needle by {
                    assert(window@[j - from] == s@[j]);
                }
                lemma_first_index_of_unique(t, needle, from as int, from + i);
            }
            Some(from + i)
        },
        None => {
            proof {
                if first_index_of(t, needle, from as int) is Some {
                    let k = first_index_of(t, needle, from as int)->0;
                    assert(window@[k - from] == t[k]);
                }
                assert forall|j: int| from <= j < to implies s@[j] != needle by {
                    assert(window@[j - from] == s@[j]);
                }
            }
            None
        },
    }
}

/// The last `needle` in `s[from..to]`, as an index into `s`.
pub fn rfind_byte(s: &[u8], needle: u8, from: usize, to: usize) -> (r: Option<usize>)
    requires
        from <= to <= s@.len(),
    ensures
        match r {
            Some(i) => from <= i < to && s@[i as int] == needle && forall|j: int|
                i < j < to ==> s@[j] != needle,
            None => forall|j: int| from <= j < to ==> s@[j] != needle,
        },
{
    let window = vstd::slice::slice_subrange(s, from, to);
    let found = memchr_last(needle, window);
    proof {
        lemma_last_index_before(window@, needle, window@.len() as int);
    }
    match found {
        Some(i) => {
            proof {
                assert forall|j: int| from + i < j < to implies s@[j] != needle by {
                    assert(window@[j - from] == s@[j]);
                }
            }
            Some(from + i)
        },
        None => {
            proof {
                assert forall|j: int| from <= j < to implies s@[j] != needle by {
                    assert(window@[j - from] == s@[j]);
                }
            }
            None
        },
    }
}

/// Whether two byte strings are equal.
pub fn same_bytes(a: &[u8], b: &[u8]) -> (r: bool)
    ensures
        r == (a@ == b@),
{
    if a.len() != b.len() {
        return false;
    }
    let mut k: usize = 0;
    while k < a.len()
        invariant
            a@.len() == b@.len(),
            k <= a@.len(),
            forall|m: int| 0 <= m < k ==> a@[m] == b@[m],
        decreases a@.len() - k,
    {
        if a[k] != b[k] {
            return false;
        }
        k = k + 1;
    }
    assert(a@ =~= b@);
    true
}

} // verus!
