//! Lexicographic ordering of byte strings and of listing entries.
//!
//! Entries are ordered by the pair (link, display name), which makes
//! the listing deterministic whatever order the filesystem hands its
//! children back in.

use vstd::prelude::*;

use vstd::relations::total_ordering;

verus! {

/// Byte-wise lexicographic `<=` on byte strings.
pub open spec fn bytes_le(a: Seq<u8>, b: Seq<u8>) -> bool
    decreases a.len(),
{
    if a.len() == 0 {
        true
    } else if b.len() == 0 {
        false
    } else if a[0] < b[0] {
        true
    } else if a[0] > b[0] {
        false
    } else {
        bytes_le(a.skip(1), b.skip(1))
    }
}

pub proof fn lemma_bytes_le_refl(a: Seq<u8>)
    ensures
        bytes_le(a, a),
    decreases a.len(),
{
    if a.len() != 0 {
        lemma_bytes_le_refl(a.skip(1));
    }
}

pub proof fn lemma_bytes_le_total(a: Seq<u8>, b: Seq<u8>)
    ensures
        bytes_le(a, b) || bytes_le(b, a),
    decreases a.len(),
{
    if a.len() != 0 && b.len() != 0 && a[0] == b[0] {
        lemma_bytes_le_total(a.skip(1), b.skip(1));
    }
}

pub proof fn lemma_bytes_le_antisym(a: Seq<u8>, b: Seq<u8>)
    requires
        bytes_le(a, b),
        bytes_le(b, a),
    ensures
        a == b,
    decreases a.len(),
{
    if a.len() == 0 {
        assert(b.len() == 0);
        assert(a =~= b);
    } else {
        assert(b.len() != 0);
        assert(a[0] == b[0]);
        lemma_bytes_le_antisym(a.skip(1), b.skip(1));
        assert(a =~= b) by {
            assert(a.skip(1) =~= b.skip(1));
            assert forall|i: int| 0 <= i < a.len() implies a[i] == b[i] by {
                if i > 0 {
                    assert(a[i] == a.skip(1)[i - 1]);
                    assert(b[i] == b.skip(1)[i - 1]);
                }
            }
        }
    }
}

pub proof fn lemma_bytes_le_trans(a: Seq<u8>, b: Seq<u8>, c: Seq<u8>)
    requires
        bytes_le(a, b),
        bytes_le(b, c),
    ensures
        bytes_le(a, c),
    decreases a.len(),
{
    if a.len() != 0 {
        assert(b.len() != 0);
        assert(c.len() != 0);
        if a[0] == b[0] && b[0] == c[0] {
            lemma_bytes_le_trans(a.skip(1), b.skip(1), c.skip(1));
        }
    }
}

/// Ordering of listing entries, viewed as (link, display name) pairs:
/// by link first, display name breaking ties.
pub open spec fn entry_le(a: (Seq<u8>, Seq<u8>), b: (Seq<u8>, Seq<u8>)) -> bool {
    if a.0 != b.0 {
        bytes_le(a.0, b.0)
    } else {
        bytes_le(a.1, b.1)
    }
}

/// The entry ordering as a relation value, for use with sorting.
pub open spec fn entry_leq() -> spec_fn((Seq<u8>, Seq<u8>), (Seq<u8>, Seq<u8>)) -> bool {
    |a: (Seq<u8>, Seq<u8>), b: (Seq<u8>, Seq<u8>)| entry_le(a, b)
}

/// The entry ordering is a total ordering, so sorting by it yields one
/// well-defined sequence.
pub proof fn lemma_entry_le_total_ordering()
    ensures
        total_ordering(entry_leq()),
{
    let leq = entry_leq();
    assert forall|a: (Seq<u8>, Seq<u8>)| #[trigger] leq(a, a) by {
        lemma_bytes_le_refl(a.0);
        lemma_bytes_le_refl(a.1);
    }
    assert forall|a: (Seq<u8>, Seq<u8>), b: (Seq<u8>, Seq<u8>)|
        #[trigger] leq(a, b) && #[trigger] leq(b, a) implies a == b by {
        if a.0 != b.0 {
            lemma_bytes_le_antisym(a.0, b.0);
        } else {
            lemma_bytes_le_antisym(a.1, b.1);
        }
    }
    assert forall|a: (Seq<u8>, Seq<u8>), b: (Seq<u8>, Seq<u8>), c: (Seq<u8>, Seq<u8>)|
        #[trigger] leq(a, b) && #[trigger] leq(b, c) implies leq(a, c) by {
        lemma_entry_le_trans(a, b, c);
    }
    assert forall|a: (Seq<u8>, Seq<u8>), b: (Seq<u8>, Seq<u8>)| #[trigger]
        leq(a, b) || #[trigger] leq(b, a) by {
        if a.0 != b.0 {
            lemma_bytes_le_total(a.0, b.0);
        } else {
            lemma_bytes_le_total(a.1, b.1);
        }
    }
}

/// Transitivity of the entry ordering.
pub proof fn lemma_entry_le_trans(a: (Seq<u8>, Seq<u8>), b: (Seq<u8>, Seq<u8>), c: (
    Seq<u8>,
    Seq<u8>,
))
    requires
        entry_le(a, b),
        entry_le(b, c),
    ensures
        entry_le(a, c),
{
    if a.0 == b.0 && b.0 == c.0 {
        lemma_bytes_le_trans(a.1, b.1, c.1);
    } else if a.0 == b.0 {
        // a.0 == b.0 < c.0
    } else if b.0 == c.0 {
        // a.0 < b.0 == c.0
    } else {
        lemma_bytes_le_trans(a.0, b.0, c.0);
        if a.0 == c.0 {
            lemma_bytes_le_antisym(a.0, b.0);
        }
    }
}

/// Decide `bytes_le` on two byte strings.
pub fn bytes_le_exec(a: &Vec<u8>, b: &Vec<u8>) -> (r: bool)
    ensures
        r == bytes_le(a@, b@),
{
    let mut i: usize = 0;
    let n = if a.len() < b.len() {
        a.len()
    } else {
        b.len()
    };
    proof {
        assert(a@.skip(0) =~= a@);
        assert(b@.skip(0) =~= b@);
    }
    while i < n
        invariant
            i <= n,
            n == if a@.len() < b@.len() {
                a@.len()
            } else {
                b@.len()
            },
            bytes_le(a@, b@) == bytes_le(a@.skip(i as int), b@.skip(i as int)),
        decreases n - i,
    {
        proof {
            assert(a@.skip(i as int)[0] == a@[i as int]);
            assert(b@.skip(i as int)[0] == b@[i as int]);
        }
        if a[i] < b[i] {
            return true;
        }
        if a[i] > b[i] {
            return false;
        }
        proof {
            assert(a@.skip(i as int).skip(1) =~= a@.skip(i + 1));
            assert(b@.skip(i as int).skip(1) =~= b@.skip(i + 1));
        }
        i = i + 1;
    }
    proof {
        if a@.len() <= b@.len() {
            assert(a@.skip(i as int).len() == 0);
        } else {
            assert(b@.skip(i as int).len() == 0);
            assert(a@.skip(i as int).len() > 0);
        }
    }
    a.len() <= b.len()
}

/// Decide whether two byte strings are equal.
pub fn bytes_eq_exec(a: &Vec<u8>, b: &Vec<u8>) -> (r: bool)
    ensures
        r == (a@ == b@),
{
    if a.len() != b.len() {
        proof {
            assert(a@ != b@);
        }
        return false;
    }
    let mut i: usize = 0;
    while i < a.len()
        invariant
            i <= a.len(),
            a@.len() == b@.len(),
            forall|j: int| 0 <= j < i ==> a@[j] == b@[j],
        decreases a.len() - i,
    {
        if a[i] != b[i] {
            return false;
        }
        i = i + 1;
    }
    proof {
        assert(a@ =~= b@);
    }
    true
}

} // verus!
