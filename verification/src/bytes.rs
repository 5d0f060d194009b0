//! Helpers for byte-string keys: executable equality and membership tests
//! for sequences of keys, proved against their `Seq` views.

use vstd::prelude::*;

verus! {

/// True iff the sequence of keys `s` contains the key `k`.
pub open spec fn contains_key(s: Seq<Seq<u8>>, k: Seq<u8>) -> bool {
    exists|i: int| 0 <= i < s.len() && s[i] == k
}

/// Membership in a key sequence after appending one key.
pub proof fn lemma_contains_push(s: Seq<Seq<u8>>, x: Seq<u8>, y: Seq<u8>)
    ensures
        contains_key(s.push(x), y) <==> (contains_key(s, y) || y == x),
{
    if contains_key(s.push(x), y) {
        let w = choose|w: int| 0 <= w < s.push(x).len() && s.push(x)[w] == y;
        if w < s.len() {
            assert(s[w] == y);
        }
    }
    if contains_key(s, y) {
        let w = choose|w: int| 0 <= w < s.len() && s[w] == y;
        assert(s.push(x)[w] == y);
    }
    assert(s.push(x)[s.len() as int] == x);
}

/// Byte-for-byte equality of two byte strings.
pub fn bytes_eq(a: &[u8], b: &[u8]) -> (r: bool)
    ensures
        r == (a@ == b@),
{
    if a.len() != b.len() {
        return false;
    }
    let mut i: usize = 0;
    while i < a.len()
        invariant
            a@.len() == b@.len(),
            0 <= i <= a@.len(),
            forall|j: int| 0 <= j < i ==> a@[j] == b@[j],
        decreases a@.len() - i,
    {
        if a[i] != b[i] {
            return false;
        }
        i = i + 1;
    }
    proof {
        assert(a@ =~= b@);
    }
    true
}

/// Position of `k` in `keys`, if present.
pub fn find_key(keys: &Vec<Vec<u8>>, k: &[u8]) -> (r: Option<usize>)
    ensures
        match r {
            Some(i) => 0 <= i < keys@.len() && keys@[i as int]@ == k@,
            None => !contains_key(keys.deep_view(), k@),
        },
{
    let mut i: usize = 0;
    while i < keys.len()
        invariant
            0 <= i <= keys@.len(),
            forall|j: int| 0 <= j < i ==> keys@[j]@ != k@,
        decreases keys@.len() - i,
    {
        if bytes_eq(keys[i].as_slice(), k) {
            return Some(i);
        }
        i = i + 1;
    }
    proof {
        assert forall|j: int| 0 <= j < keys.deep_view().len() implies keys.deep_view()[j] != k@ by {
            assert(keys.deep_view()[j] == keys@[j]@);
        }
    }
    None
}

} // verus!
