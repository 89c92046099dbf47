//! Verified operations on byte strings that the other modules share.

use vstd::prelude::*;

verus! {

/// The first position at or after `from` at which `s` holds `b`, or the
/// length of `s` where no such position exists.
pub open spec fn find_byte(s: Seq<u8>, b: u8, from: int) -> int
    decreases s.len() - from,
{
    if from < 0 || from >= s.len() {
        s.len() as int
    } else if s[from] == b {
        from
    } else {
        find_byte(s, b, from + 1)
    }
}

/// Whether `b` occurs nowhere in `s`.
pub open spec fn lacks(s: Seq<u8>, b: u8) -> bool {
    forall|i: int| 0 <= i < s.len() ==> s[i] != b
}

/// `find_byte` returns a position between `from` and the end, skips only
/// bytes other than `b`, and stops on `b` unless it reaches the end.
pub proof fn lemma_find_byte(s: Seq<u8>, b: u8, from: int)
    requires
        0 <= from <= s.len(),
    ensures
        from <= find_byte(s, b, from) <= s.len(),
        find_byte(s, b, from) < s.len() ==> s[find_byte(s, b, from)] == b,
        forall|j: int| from <= j < find_byte(s, b, from) ==> s[j] != b,
    decreases s.len() - from,
{
    if from < s.len() && s[from] != b {
        lemma_find_byte(s, b, from + 1);
    }
}

/// A position that is reached over bytes other than `b`, and that holds `b`
/// or is the end, is the one that `find_byte` returns.
pub proof fn lemma_find_byte_is(s: Seq<u8>, b: u8, from: int, at: int)
    requires
        0 <= from <= at <= s.len(),
        forall|j: int| from <= j < at ==> s[j] != b,
        at < s.len() ==> s[at] == b,
    ensures
        find_byte(s, b, from) == at,
    decreases at - from,
{
    if from < at {
        lemma_find_byte_is(s, b, from + 1, at);
    }
}

/// Looks for `b` in `data` from position `from` on.
pub fn find(data: &[u8], b: u8, from: usize) -> (at: usize)
    ensures
        at == find_byte(data@, b, from as int),
{
    let n = data.len();
    if from >= n {
        return n;
    }
    let mut i: usize = from;
    while i < n && data[i] != b
        invariant
            from <= i <= n,
            n == data@.len(),
            find_byte(data@, b, from as int) == find_byte(data@, b, i as int),
        decreases n - i,
    {
        i = i + 1;
    }
    i
}

/// Copies the bytes of `data` from `start` up to `end`.
pub fn copy_range(data: &[u8], start: usize, end: usize) -> (out: Vec<u8>)
    requires
        start <= end <= data@.len(),
    ensures
        out@ == data@.subrange(start as int, end as int),
{
    let mut out: Vec<u8> = Vec::new();
    let mut i: usize = start;
    while i < end
        invariant
            start <= i <= end <= data@.len(),
            out@ == data@.subrange(start as int, i as int),
        decreases end - i,
    {
        out.push(data[i]);
        i = i + 1;
        assert(out@ =~= data@.subrange(start as int, i as int));
    }
    out
}

/// Appends the bytes of `tail` to `buffer`.
pub fn extend(buffer: &mut Vec<u8>, tail: &[u8])
    ensures
        final(buffer)@ == old(buffer)@ + tail@,
{
    let n = tail.len();
    let mut i: usize = 0;
    assert(buffer@ =~= old(buffer)@ + tail@.subrange(0, 0));
    while i < n
        invariant
            i <= n,
            n == tail@.len(),
            buffer@ == old(buffer)@ + tail@.subrange(0, i as int),
        decreases n - i,
    {
        buffer.push(tail[i]);
        i = i + 1;
        assert(buffer@ =~= old(buffer)@ + tail@.subrange(0, i as int));
    }
    assert(tail@.subrange(0, n as int) =~= tail@);
}

/// Whether two byte strings are equal.
pub fn same(a: &[u8], b: &[u8]) -> (equal: bool)
    ensures
        equal == (a@ == b@),
{
    let n = a.len();
    if n != b.len() {
        return false;
    }
    let mut i: usize = 0;
    while i < n
        invariant
            i <= n,
            n == a@.len(),
            n == b@.len(),
            forall|j: int| 0 <= j < i ==> a@[j] == b@[j],
        decreases n - i,
    {
        if a[i] != b[i] {
            return false;
        }
        i = i + 1;
    }
    assert(a@ =~= b@);
    true
}

} // verus!
