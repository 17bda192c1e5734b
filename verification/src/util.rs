//! Small byte-level helpers shared by the codec and the store: copying,
//! comparing and searching byte ranges.

use vstd::prelude::*;

verus! {

/// Copies `s[from..to]` into a fresh vector.
pub fn copy_range(s: &[u8], from: usize, to: usize) -> (r: Vec<u8>)
    requires
        from <= to <= s@.len(),
    ensures
        r@ == s@.subrange(from as int, to as int),
{
    let mut r: Vec<u8> = Vec::new();
    let mut i: usize = from;
    while i < to
        invariant
            from <= i <= to <= s@.len(),
            r@ == s@.subrange(from as int, i as int),
        decreases to - i,
    {
        r.push(s[i]);
        proof {
            assert(r@ =~= s@.subrange(from as int, (i + 1) as int));
        }
        i = i + 1;
    }
    r
}

/// Appends all of `s` to `out`.
pub fn push_all(out: &mut Vec<u8>, s: &[u8])
    ensures
        final(out)@ == old(out)@ + s@,
{
    let mut i: usize = 0;
    while i < s.len()
        invariant
            i <= s@.len(),
            out@ == old(out)@ + s@.subrange(0, i as int),
        decreases s@.len() - i,
    {
        out.push(s[i]);
        proof {
            assert(out@ =~= old(out)@ + s@.subrange(0, (i + 1) as int));
        }
        i = i + 1;
    }
    proof {
        assert(s@.subrange(0, s@.len() as int) =~= s@);
    }
}

/// Exact byte-for-byte equality of two byte strings.
pub fn bytes_eq(a: &[u8], b: &[u8]) -> (r: bool)
    ensures
        r == (a@ == b@),
{
    if a.len() != b.len() {
        return false;
    }
    let mut i: usize = 0;
    while i < a.len()
        invariant
            i <= a@.len(),
            a@.len() == b@.len(),
            forall|j: int| 0 <= j < i ==> a@[j] == b@[j],
        decreases a@.len() - i,
    {
        if a[i] != b[i] {
            return false;
        }
        i = i + 1;
    }
    proof {
        assert(a@ =~= b@);
    }
    true
}

/// Finds the first occurrence of `b` in `s`, as `Seq::index_of_first`.
pub fn find_byte(s: &[u8], b: u8) -> (r: Option<usize>)
    ensures
        match r {
            Some(i) => s@.index_of_first(b) == Some(i as int),
            None => s@.index_of_first(b) is None,
        },
{
    let mut i: usize = 0;
    while i < s.len()
        invariant
            i <= s@.len(),
            forall|j: int| 0 <= j < i ==> s@[j] != b,
        decreases s@.len() - i,
    {
        if s[i] == b {
            proof {
                s@.index_of_first_ensures(b);
                assert(s@.contains(b)) by {
                    assert(s@[i as int] == b);
                }
                let idx = s@.index_of_first(b)->Some_0;
                assert(idx == i as int) by {
                    if idx < i as int {
                        assert(s@[idx] != b);
                    }
                    if idx > i as int {
                        assert(s@[i as int] != b);
                    }
                }
            }
            return Some(i);
        }
        i = i + 1;
    }
    proof {
        s@.index_of_first_ensures(b);
        if s@.contains(b) {
            let w = choose|k: int| 0 <= k < s@.len() && s@[k] == b;
            assert(s@[w] != b);
        }
    }
    None
}

} // verus!
