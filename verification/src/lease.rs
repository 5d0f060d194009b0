//! The lease record: one named, time-bounded grant together with the user
//! keys currently attached to it.
//!
//! Instants are modelled as seconds on a monotonic clock, carried as `u64`
//! values. An expiry of `None` means "never": the lease belongs to a follower
//! or a demoted node and no timer runs for it.

use vstd::prelude::*;

use crate::bytes::{bytes_eq, contains_key, find_key};

verus! {

/// Mathematical model of a lease record.
#[verifier::ext_equal]
pub struct LeaseData {
    pub id: i64,
    /// Time to live, in seconds; at least one.
    pub ttl: u64,
    /// Remaining time to live, in seconds; zero when unset, in which case
    /// `ttl` governs refreshes.
    pub remaining_ttl: u64,
    /// Expiry instant, or `None` for "never".
    pub expiry: Option<u64>,
    /// Attached keys, in attachment order, without duplicates.
    pub keys: Seq<Seq<u8>>,
}

/// Well-formedness of a lease record: a positive time to live, a non-zero id
/// and no key attached twice.
pub open spec fn lease_wf(l: LeaseData) -> bool {
    &&& 1 <= l.ttl <= i64::MAX as u64
    &&& l.remaining_ttl <= i64::MAX as u64
    &&& l.id != 0
    &&& l.keys.no_duplicates()
}

/// The duration a refresh extends the lease by: the remaining time to live
/// when one is set, the time to live otherwise.
pub open spec fn effective_ttl(l: LeaseData) -> u64 {
    if l.remaining_ttl > 0 {
        l.remaining_ttl
    } else {
        l.ttl
    }
}

/// True iff the lease carries a finite expiry that has passed at `now`.
pub open spec fn lease_expired(l: LeaseData, now: u64) -> bool {
    match l.expiry {
        Some(e) => e <= now,
        None => false,
    }
}

/// Sort key for ordering leases by remaining time: a finite expiry instant,
/// or the maximum value for "never".
pub open spec fn expiry_key(l: LeaseData) -> u64 {
    match l.expiry {
        Some(e) => e,
        None => u64::MAX,
    }
}

/// `a + b + c` saturated at `u64::MAX`.
pub open spec fn sat_add3(a: u64, b: u64, c: u64) -> u64 {
    if a + b + c > u64::MAX {
        u64::MAX
    } else {
        (a + b + c) as u64
    }
}

/// Executable saturating three-way addition.
pub fn saturating_add3(a: u64, b: u64, c: u64) -> (r: u64)
    ensures
        r == sat_add3(a, b, c),
{
    if a > u64::MAX - b {
        u64::MAX
    } else {
        let ab = a + b;
        if ab > u64::MAX - c {
            u64::MAX
        } else {
            ab + c
        }
    }
}

/// One lease: id, time to live, expiry and the set of attached keys.
#[derive(Debug)]
pub struct Lease {
    id: i64,
    ttl: u64,
    remaining_ttl: u64,
    expiry: Option<u64>,
    keys: Vec<Vec<u8>>,
}

impl View for Lease {
    type V = LeaseData;

    closed spec fn view(&self) -> LeaseData {
        LeaseData {
            id: self.id,
            ttl: self.ttl,
            remaining_ttl: self.remaining_ttl,
            expiry: self.expiry,
            keys: self.keys.deep_view(),
        }
    }
}

impl Lease {
    /// A fresh lease with no expiry and no attached keys.
    pub fn new(id: i64, ttl: u64) -> (r: Lease)
        requires
            1 <= ttl <= i64::MAX as u64,
            id != 0,
        ensures
            r@ == (LeaseData { id, ttl, remaining_ttl: 0, expiry: None, keys: Seq::empty() }),
            lease_wf(r@),
    {
        let r = Lease { id, ttl, remaining_ttl: 0, expiry: None, keys: Vec::new() };
        proof {
            assert(r@.keys =~~= Seq::<Seq<u8>>::empty());
        }
        r
    }

    /// The lease id.
    pub fn id(&self) -> (r: i64)
        ensures
            r == self@.id,
    {
        self.id
    }

    /// The time to live, in seconds.
    pub fn ttl(&self) -> (r: u64)
        ensures
            r == self@.ttl,
    {
        self.ttl
    }

    /// The remaining time to live, in seconds; zero when unset.
    pub fn remaining_ttl(&self) -> (r: u64)
        ensures
            r == self@.remaining_ttl,
    {
        self.remaining_ttl
    }

    /// An exact copy of the record.
    pub fn duplicate(&self) -> (r: Lease)
        ensures
            r@ == self@,
    {
        let mut keys: Vec<Vec<u8>> = Vec::new();
        let mut i: usize = 0;
        while i < self.keys.len()
            invariant
                0 <= i <= self.keys@.len(),
                keys.deep_view() == self.keys.deep_view().take(i as int),
            decreases self.keys@.len() - i,
        {
            let ghost prefix = self.keys.deep_view().take(i as int);
            let ghost elem = self.keys.deep_view()[i as int];
            let c = self.keys[i].clone();
            proof {
                assert(c@ =~= self.keys@[i as int]@);
                assert(c.deep_view() =~= elem);
            }
            keys.push(c);
            proof {
                assert(self.keys.deep_view().take(i + 1) =~= prefix.push(elem));
                assert(keys.deep_view() =~= prefix.push(elem));
            }
            i = i + 1;
        }
        proof {
            assert(self.keys.deep_view().take(self.keys@.len() as int) =~= self.keys.deep_view());
        }
        Lease { id: self.id, ttl: self.ttl, remaining_ttl: self.remaining_ttl, expiry: self.expiry, keys }
    }

    /// Set the expiry to `now + extend + effective ttl` (saturated) and
    /// return it.
    pub fn refresh_at(&mut self, extend: u64, now: u64) -> (expiry: u64)
        ensures
            expiry == sat_add3(now, extend, effective_ttl(old(self)@)),
            final(self)@ == (LeaseData { expiry: Some(expiry), ..old(self)@ }),
    {
        let eff = if self.remaining_ttl > 0 {
            self.remaining_ttl
        } else {
            self.ttl
        };
        let expiry = saturating_add3(now, extend, eff);
        self.expiry = Some(expiry);
        expiry
    }

    /// Clear the expiry: the lease never expires until refreshed again.
    pub fn forever(&mut self)
        ensures
            final(self)@ == (LeaseData { expiry: None, ..old(self)@ }),
    {
        self.expiry = None;
    }

    /// True iff the expiry is finite and has passed at `now`.
    pub fn expired_at(&self, now: u64) -> (r: bool)
        ensures
            r == lease_expired(self@, now),
    {
        match self.expiry {
            Some(e) => e <= now,
            None => false,
        }
    }

    /// Seconds until the expiry at `now`; the maximum value when the lease
    /// never expires.
    pub fn remaining_at(&self, now: u64) -> (r: u64)
        ensures
            r == (match self@.expiry {
                Some(e) => if e > now { (e - now) as u64 } else { 0u64 },
                None => u64::MAX,
            }),
    {
        match self.expiry {
            Some(e) => if e > now {
                e - now
            } else {
                0
            },
            None => u64::MAX,
        }
    }

    /// Attach `key`; a key already attached is left as it is.
    pub fn insert_key(&mut self, key: Vec<u8>)
        requires
            lease_wf(old(self)@),
        ensures
            lease_wf(final(self)@),
            final(self)@ == (LeaseData {
                keys: if contains_key(old(self)@.keys, key@) {
                    old(self)@.keys
                } else {
                    old(self)@.keys.push(key@)
                },
                ..old(self)@
            }),
    {
        match find_key(&self.keys, key.as_slice()) {
            Some(i) => {
                proof {
                    assert(self.keys.deep_view()[i as int] =~= key@);
                    assert(contains_key(self@.keys, key@));
                }
            },
            None => {
                proof {
                    assert(key.deep_view() =~= key@);
                }
                self.keys.push(key);
                proof {
                    assert(self@.keys =~~= old(self)@.keys.push(key@));
                }
            },
        }
    }

    /// Detach `key`; a key not attached is ignored.
    pub fn remove_key(&mut self, key: &[u8])
        requires
            lease_wf(old(self)@),
        ensures
            lease_wf(final(self)@),
            final(self)@ == (LeaseData {
                keys: remove_key_seq(old(self)@.keys, key@),
                ..old(self)@
            }),
    {
        let mut out: Vec<Vec<u8>> = Vec::new();
        let mut i: usize = 0;
        proof {
            assert(self.keys.deep_view().take(0int) =~= Seq::<Seq<u8>>::empty());
        }
        while i < self.keys.len()
            invariant
                0 <= i <= self.keys@.len(),
                out.deep_view() == remove_key_seq(self.keys.deep_view().take(i as int), key@),
            decreases self.keys@.len() - i,
        {
            let ghost prefix = self.keys.deep_view().take(i as int);
            let ghost elem = self.keys.deep_view()[i as int];
            proof {
                assert(elem =~= self.keys@[i as int]@);
                assert(self.keys.deep_view().take(i + 1) =~= prefix.push(elem));
                assert(prefix.push(elem).drop_last() =~= prefix);
                assert(prefix.push(elem).last() == elem);
            }
            if !bytes_eq(self.keys[i].as_slice(), key) {
                let c = self.keys[i].clone();
                proof {
                    assert(c@ =~= self.keys@[i as int]@);
                    assert(c.deep_view() =~= elem);
                }
                out.push(c);
                proof {
                    assert(out.deep_view() =~= remove_key_seq(prefix, key@).push(elem));
                    assert(remove_key_seq(prefix.push(elem), key@) == remove_key_seq(
                        prefix,
                        key@,
                    ).push(elem));
                }
            } else {
                proof {
                    assert(elem == key@);
                    assert(remove_key_seq(prefix.push(elem), key@) == remove_key_seq(prefix, key@));
                }
            }
            i = i + 1;
        }
        proof {
            assert(self.keys.deep_view().take(self.keys@.len() as int) =~= self.keys.deep_view());
        }
        self.keys = out;
        proof {
            lemma_remove_key_no_duplicates(old(self)@.keys, key@);
        }
    }

    /// The attached keys, in attachment order.
    pub fn keys(&self) -> (r: Vec<Vec<u8>>)
        ensures
            r.deep_view() == self@.keys,
    {
        let mut out: Vec<Vec<u8>> = Vec::new();
        let mut i: usize = 0;
        while i < self.keys.len()
            invariant
                0 <= i <= self.keys@.len(),
                out.deep_view() == self.keys.deep_view().take(i as int),
            decreases self.keys@.len() - i,
        {
            let ghost prefix = self.keys.deep_view().take(i as int);
            let ghost elem = self.keys.deep_view()[i as int];
            let c = self.keys[i].clone();
            proof {
                assert(c@ =~= self.keys@[i as int]@);
                assert(c.deep_view() =~= elem);
            }
            out.push(c);
            proof {
                assert(self.keys.deep_view().take(i + 1) =~= prefix.push(elem));
                assert(out.deep_view() =~= prefix.push(elem));
            }
            i = i + 1;
        }
        proof {
            assert(self.keys.deep_view().take(self.keys@.len() as int) =~= self.keys.deep_view());
        }
        out
    }

    /// The number of attached keys.
    pub fn key_count(&self) -> (r: usize)
        ensures
            r == self@.keys.len(),
    {
        self.keys.len()
    }

    /// True iff `key` is attached.
    pub fn has_key(&self, key: &[u8]) -> (r: bool)
        ensures
            r == contains_key(self@.keys, key@),
    {
        match find_key(&self.keys, key) {
            Some(i) => {
                proof {
                    assert(self.keys.deep_view()[i as int] =~= key@);
                }
                true
            },
            None => false,
        }
    }

    /// The key this record sorts under when leases are listed by remaining
    /// time.
    pub fn sort_key(&self) -> (r: u64)
        ensures
            r == expiry_key(self@),
    {
        match self.expiry {
            Some(e) => e,
            None => u64::MAX,
        }
    }
}

/// The key sequence after detaching `k`: every occurrence of `k` goes, the
/// rest keep their order.
pub open spec fn remove_key_seq(s: Seq<Seq<u8>>, k: Seq<u8>) -> Seq<Seq<u8>>
    decreases s.len(),
{
    if s.len() == 0 {
        Seq::empty()
    } else if s.last() == k {
        remove_key_seq(s.drop_last(), k)
    } else {
        remove_key_seq(s.drop_last(), k).push(s.last())
    }
}

/// A key is attached after a detach iff it was attached before and is not
/// the detached key.
pub proof fn lemma_remove_key_membership(s: Seq<Seq<u8>>, k: Seq<u8>, x: Seq<u8>)
    ensures
        contains_key(remove_key_seq(s, k), x) <==> (contains_key(s, x) && x != k),
    decreases s.len(),
{
    if s.len() == 0 {
    } else {
        let sd = s.drop_last();
        let rd = remove_key_seq(sd, k);
        lemma_remove_key_membership(sd, k, x);
        assert(contains_key(s, x) <==> (contains_key(sd, x) || x == s.last())) by {
            if contains_key(s, x) {
                let i = choose|i: int| 0 <= i < s.len() && s[i] == x;
                if i < s.len() - 1 {
                    assert(sd[i] == x);
                }
            }
            if contains_key(sd, x) {
                let i = choose|i: int| 0 <= i < sd.len() && sd[i] == x;
                assert(s[i] == x);
            }
            assert(s[s.len() - 1] == s.last());
        }
        if s.last() == k {
            assert(remove_key_seq(s, k) == rd);
        } else {
            let r = rd.push(s.last());
            assert(remove_key_seq(s, k) == r);
            assert(contains_key(r, x) <==> (contains_key(rd, x) || x == s.last())) by {
                if contains_key(r, x) {
                    let i = choose|i: int| 0 <= i < r.len() && r[i] == x;
                    if i < rd.len() {
                        assert(rd[i] == x);
                    }
                }
                if contains_key(rd, x) {
                    let i = choose|i: int| 0 <= i < rd.len() && rd[i] == x;
                    assert(r[i] == x);
                }
                assert(r[r.len() - 1] == s.last());
            }
        }
    }
}

/// Detaching from a duplicate-free key sequence leaves it duplicate-free.
pub proof fn lemma_remove_key_no_duplicates(s: Seq<Seq<u8>>, k: Seq<u8>)
    requires
        s.no_duplicates(),
    ensures
        remove_key_seq(s, k).no_duplicates(),
    decreases s.len(),
{
    if s.len() > 0 {
        let sd = s.drop_last();
        assert(sd.no_duplicates()) by {
            assert forall|i: int, j: int| 0 <= i < j < sd.len() implies sd[i] != sd[j] by {
                assert(s[i] == sd[i] && s[j] == sd[j]);
            }
        }
        lemma_remove_key_no_duplicates(sd, k);
        let rd = remove_key_seq(sd, k);
        if s.last() != k {
            assert(!contains_key(rd, s.last())) by {
                lemma_remove_key_membership(sd, k, s.last());
                if contains_key(sd, s.last()) {
                    let i = choose|i: int| 0 <= i < sd.len() && sd[i] == s.last();
                    assert(s[i] == s[s.len() - 1]);
                }
            }
            let r = rd.push(s.last());
            assert forall|i: int, j: int| 0 <= i < j < r.len() implies r[i] != r[j] by {
                if j == rd.len() {
                    if r[i] == s.last() {
                        assert(rd[i] == s.last());
                        assert(contains_key(rd, s.last()));
                    }
                }
            }
        }
    }
}

/// Detaching a key that is not attached changes nothing.
pub proof fn lemma_remove_key_identity(s: Seq<Seq<u8>>, k: Seq<u8>)
    requires
        !contains_key(s, k),
    ensures
        remove_key_seq(s, k) == s,
    decreases s.len(),
{
    if s.len() > 0 {
        let sd = s.drop_last();
        assert(!contains_key(sd, k)) by {
            if contains_key(sd, k) {
                let i = choose|i: int| 0 <= i < sd.len() && sd[i] == k;
                assert(s[i] == k);
            }
        }
        assert(s.last() != k) by {
            assert(s[s.len() - 1] == s.last());
        }
        lemma_remove_key_identity(sd, k);
        assert(remove_key_seq(s, k) =~= s);
    }
}

/// Detaching the first key of a duplicate-free key sequence leaves exactly
/// the rest.
pub proof fn lemma_remove_first(s: Seq<Seq<u8>>)
    requires
        s.len() > 0,
        s.no_duplicates(),
    ensures
        remove_key_seq(s, s[0]) == s.skip(1),
    decreases s.len(),
{
    if s.len() == 1 {
        assert(s.last() == s[0]);
        assert(remove_key_seq(s, s[0]) == remove_key_seq(s.drop_last(), s[0]));
        assert(s.drop_last().len() == 0);
        assert(remove_key_seq(s, s[0]) =~= s.skip(1));
    } else {
        let sd = s.drop_last();
        assert(sd.no_duplicates()) by {
            assert forall|i: int, j: int| 0 <= i < j < sd.len() implies sd[i] != sd[j] by {
                assert(s[i] == sd[i] && s[j] == sd[j]);
            }
        }
        assert(sd[0] == s[0]);
        lemma_remove_first(sd);
        assert(s.last() != s[0]) by {
            assert(s[s.len() - 1] == s.last());
        }
        assert(remove_key_seq(s, s[0]) == remove_key_seq(sd, s[0]).push(s.last()));
        assert(sd.skip(1).push(s.last()) =~= s.skip(1));
    }
}

} // verus!