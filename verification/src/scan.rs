//! Searching a sequence for a delimiter, and copying bytes.

use vstd::prelude::*;

verus! {

/// Position of the first occurrence of `x` in `s`, or `s.len()` when `s` does
/// not contain it.
pub open spec fn index_of<T>(s: Seq<T>, x: T) -> int
    decreases s.len(),
{
    if s.len() == 0 {
        0
    } else if s[0] == x {
        0
    } else {
        1 + index_of(s.skip(1), x)
    }
}

/// `p` is where the first `x` of `s` stands, or the length of `s` if there is
/// none.
pub open spec fn is_first_index<T>(s: Seq<T>, x: T, p: int) -> bool {
    &&& 0 <= p <= s.len()
    &&& forall|i: int| 0 <= i < p ==> s[i] != x
    &&& p < s.len() ==> s[p] == x
}

/// `index_of` returns the first position of the element.
pub proof fn lemma_index_of<T>(s: Seq<T>, x: T)
    ensures
        is_first_index(s, x, index_of(s, x)),
    decreases s.len(),
{
    if s.len() > 0 && s[0] != x {
        let t = s.skip(1);
        lemma_index_of(t, x);
        let p = index_of(t, x);
        assert forall|i: int| 0 <= i < p + 1 implies s[i] != x by {
            if i > 0 {
                assert(s[i] == t[i - 1]);
            }
        }
        if p + 1 < s.len() {
            assert(s[p + 1] == t[p]);
        }
    }
}

/// The first position of an element is unique.
pub proof fn lemma_index_of_unique<T>(s: Seq<T>, x: T, p: int)
    requires
        is_first_index(s, x, p),
    ensures
        index_of(s, x) == p,
{
    lemma_index_of(s, x);
    let q = index_of(s, x);
    if q < p {
        assert(s[q] == x);
    } else if p < q {
        assert(s[p] == x);
    }
}

/// Finds the first `byte` in `data` at or after `start`.
///
/// Returns its position, or `data.len()` when there is none.
pub fn find_byte(data: &[u8], start: usize, byte: u8) -> (pos: usize)
    requires
        start <= data@.len(),
    ensures
        pos == start + index_of(data@.skip(start as int), byte),
        start <= pos <= data@.len(),
{
    let mut pos: usize = start;
    while pos < data.len() && data[pos] != byte
        invariant
            start <= pos <= data@.len(),
            forall|i: int| start <= i < pos ==> data@[i] != byte,
        decreases data@.len() - pos,
    {
        pos += 1;
    }
    proof {
        let tail = data@.skip(start as int);
        assert(is_first_index(tail, byte, pos - start)) by {
            assert forall|i: int| 0 <= i < pos - start implies tail[i] != byte by {
                assert(tail[i] == data@[start + i]);
            }
        }
        lemma_index_of_unique(tail, byte, pos - start);
    }
    pos
}

/// Finds the first `c` in `text` at or after `start`, but before `end`.
///
/// Returns its position, or `end` when there is none.
pub fn find_char(text: &[char], start: usize, end: usize, c: char) -> (pos: usize)
    requires
        start <= end <= text@.len(),
    ensures
        pos == start + index_of(text@.subrange(start as int, end as int), c),
        start <= pos <= end,
{
    let mut pos: usize = start;
    while pos < end && text[pos] != c
        invariant
            start <= pos <= end <= text@.len(),
            forall|i: int| start <= i < pos ==> text@[i] != c,
        decreases end - pos,
    {
        pos += 1;
    }
    proof {
        let part = text@.subrange(start as int, end as int);
        assert(is_first_index(part, c, pos - start)) by {
            assert forall|i: int| 0 <= i < pos - start implies part[i] != c by {
                assert(part[i] == text@[start + i]);
            }
        }
        lemma_index_of_unique(part, c, pos - start);
    }
    pos
}

/// Appends `bytes` to `out`.
pub fn push_bytes(out: &mut Vec<u8>, bytes: &[u8])
    ensures
        final(out)@ == old(out)@ + bytes@,
{
    let ghost before = out@;
    let mut i: usize = 0;
    while i < bytes.len()
        invariant
            0 <= i <= bytes@.len(),
            out@ == before + bytes@.take(i as int),
        decreases bytes@.len() - i,
    {
        out.push(bytes[i]);
        assert(bytes@.take(i + 1) =~= bytes@.take(i as int).push(bytes@[i as int]));
        i += 1;
    }
    assert(bytes@.take(i as int) =~= bytes@);
}

} // verus!
