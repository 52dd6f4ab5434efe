//! A sample record type with multi-key comparators, showing how to implement
//! [`Comparator`] for a compound element type: users ranked by sign-in
//! count, then activity, then username.

use vstd::prelude::*;
use vstd::string::StringSliceAdditionalSpecFns;

use crate::compare::{Comparator, ComparatorResult};

verus! {

/// Lexicographic "less than or equal" on byte strings; a shorter string
/// precedes its extensions.
pub open spec fn bytes_le(a: Seq<u8>, b: Seq<u8>) -> bool
    decreases a.len(),
{
    if a.len() == 0 {
        true
    } else if b.len() == 0 {
        false
    } else if a[0] < b[0] {
        true
    } else if a[0] > b[0] {
        false
    } else {
        bytes_le(a.drop_first(), b.drop_first())
    }
}

/// Any two byte strings are lexicographically comparable.
pub proof fn lemma_bytes_le_total(a: Seq<u8>, b: Seq<u8>)
    ensures
        bytes_le(a, b) || bytes_le(b, a),
    decreases a.len(),
{
    if a.len() > 0 && b.len() > 0 && a[0] == b[0] {
        lemma_bytes_le_total(a.drop_first(), b.drop_first());
    }
}

/// Lexicographic order on byte strings is transitive.
pub proof fn lemma_bytes_le_trans(a: Seq<u8>, b: Seq<u8>, c: Seq<u8>)
    requires
        bytes_le(a, b),
        bytes_le(b, c),
    ensures
        bytes_le(a, c),
    decreases a.len(),
{
    if a.len() == 0 {
    } else {
        // bytes_le(a, b) forces b to be non-empty, and then bytes_le(b, c)
        // forces c to be non-empty as well
        assert(b.len() > 0);
        assert(c.len() > 0);
        if a[0] == b[0] && b[0] == c[0] {
            lemma_bytes_le_trans(a.drop_first(), b.drop_first(), c.drop_first());
        }
    }
}

/// Equal prefixes of length `i` do not affect the lexicographic comparison
/// of what follows.
proof fn lemma_bytes_le_skip(a: Seq<u8>, b: Seq<u8>, i: int)
    requires
        0 <= i <= a.len(),
        i <= b.len(),
        forall|k: int| 0 <= k < i ==> a[k] == b[k],
    ensures
        bytes_le(a, b) == bytes_le(a.skip(i), b.skip(i)),
    decreases i,
{
    if i == 0 {
        assert(a.skip(0) =~= a);
        assert(b.skip(0) =~= b);
    } else {
        assert(a.len() > 0 && b.len() > 0 && a[0] == b[0]);
        assert(bytes_le(a, b) == bytes_le(a.drop_first(), b.drop_first()));
        assert forall|k: int| 0 <= k < i - 1 implies a.drop_first()[k] == b.drop_first()[k] by {
            assert(a[k + 1] == b[k + 1]);
        }
        lemma_bytes_le_skip(a.drop_first(), b.drop_first(), i - 1);
        assert(a.drop_first().skip(i - 1) =~= a.skip(i));
        assert(b.drop_first().skip(i - 1) =~= b.skip(i));
    }
}

/// Three-way lexicographic comparison of byte strings, faithful to
/// [`bytes_le`].
fn bytes_compare(a: &Vec<u8>, b: &Vec<u8>) -> (r: ComparatorResult)
    ensures
        (r == ComparatorResult::Greater <==> bytes_le(b@, a@) && !bytes_le(a@, b@)),
        (r == ComparatorResult::Less <==> bytes_le(a@, b@) && !bytes_le(b@, a@)),
        (r == ComparatorResult::Equal <==> bytes_le(a@, b@) && bytes_le(b@, a@)),
{
    let alen = a.len();
    let blen = b.len();
    let mut i: usize = 0;
    while i < alen && i < blen
        invariant
            alen == a@.len(),
            blen == b@.len(),
            i <= alen,
            i <= blen,
            forall|k: int| 0 <= k < i ==> a@[k] == b@[k],
        decreases alen - i,
    {
        if a[i] < b[i] {
            proof {
                lemma_bytes_le_skip(a@, b@, i as int);
                lemma_bytes_le_skip(b@, a@, i as int);
                assert(a@.skip(i as int)[0] == a@[i as int]);
                assert(b@.skip(i as int)[0] == b@[i as int]);
            }
            return ComparatorResult::Less;
        }
        if a[i] > b[i] {
            proof {
                lemma_bytes_le_skip(a@, b@, i as int);
                lemma_bytes_le_skip(b@, a@, i as int);
                assert(a@.skip(i as int)[0] == a@[i as int]);
                assert(b@.skip(i as int)[0] == b@[i as int]);
            }
            return ComparatorResult::Greater;
        }
        i = i + 1;
    }
    proof {
        lemma_bytes_le_skip(a@, b@, i as int);
        lemma_bytes_le_skip(b@, a@, i as int);
    }
    if alen == blen {
        ComparatorResult::Equal
    } else if alen < blen {
        proof {
            assert(a@.skip(i as int).len() == 0);
            assert(b@.skip(i as int).len() > 0);
        }
        ComparatorResult::Less
    } else {
        proof {
            assert(b@.skip(i as int).len() == 0);
            assert(a@.skip(i as int).len() > 0);
        }
        ComparatorResult::Greater
    }
}

/// A user record; usernames and mail addresses are kept as UTF-8 bytes so
/// that comparators can order them lexicographically.
#[derive(Clone, Debug, PartialEq, Eq)]
pub struct User {
    pub username: Vec<u8>,
    pub email: Vec<u8>,
    pub sign_in_count: u64,
    pub is_active: bool,
}

impl User {
    pub fn new(username: &str, email: &str, sign_in_count: u64, is_active: bool) -> (r: Self)
        ensures
            r.username@ == username.spec_bytes(),
            r.email@ == email.spec_bytes(),
            r.sign_in_count == sign_in_count,
            r.is_active == is_active,
    {
        User {
            username: vstd::slice::slice_to_vec(username.as_bytes()),
            email: vstd::slice::slice_to_vec(email.as_bytes()),
            sign_in_count,
            is_active,
        }
    }
}

/// How active a user counts in comparisons: active users rank above
/// inactive ones when sign-in counts tie.
pub open spec fn active_rank(b: bool) -> int {
    if b {
        1
    } else {
        0
    }
}

/// Ranks users by sign-in count (more is higher), then activity, then
/// username, the alphabetically earlier name ranking higher.
#[derive(Clone, Copy, Debug, PartialEq, Eq, Structural)]
pub struct UserByActivity;

impl Comparator<User> for UserByActivity {
    open spec fn le(&self, a: User, b: User) -> bool {
        ||| a.sign_in_count < b.sign_in_count
        ||| (a.sign_in_count == b.sign_in_count && (active_rank(a.is_active) < active_rank(
            b.is_active,
        ) || (a.is_active == b.is_active && bytes_le(b.username@, a.username@))))
    }

    proof fn total(&self, a: User, b: User) {
        lemma_bytes_le_total(a.username@, b.username@);
    }

    proof fn transitive(&self, a: User, b: User, c: User) {
        if a.sign_in_count == c.sign_in_count && a.is_active == c.is_active && bytes_le(
            b.username@,
            a.username@,
        ) && bytes_le(c.username@, b.username@) {
            lemma_bytes_le_trans(c.username@, b.username@, a.username@);
        }
    }

    fn compare(&self, a: &User, b: &User) -> (r: ComparatorResult) {
        if a.sign_in_count < b.sign_in_count {
            ComparatorResult::Less
        } else if a.sign_in_count > b.sign_in_count {
            ComparatorResult::Greater
        } else if !a.is_active && b.is_active {
            ComparatorResult::Less
        } else if a.is_active && !b.is_active {
            ComparatorResult::Greater
        } else {
            bytes_compare(&b.username, &a.username)
        }
    }
}

/// The reverse activity ranking: fewer sign-ins rank higher, inactivity
/// ranks higher, and ties still go to the alphabetically earlier username.
#[derive(Clone, Copy, Debug, PartialEq, Eq, Structural)]
pub struct UserByActivityRev;

impl Comparator<User> for UserByActivityRev {
    open spec fn le(&self, a: User, b: User) -> bool {
        ||| b.sign_in_count < a.sign_in_count
        ||| (a.sign_in_count == b.sign_in_count && (active_rank(b.is_active) < active_rank(
            a.is_active,
        ) || (a.is_active == b.is_active && bytes_le(b.username@, a.username@))))
    }

    proof fn total(&self, a: User, b: User) {
        lemma_bytes_le_total(a.username@, b.username@);
    }

    proof fn transitive(&self, a: User, b: User, c: User) {
        if a.sign_in_count == c.sign_in_count && a.is_active == c.is_active && bytes_le(
            b.username@,
            a.username@,
        ) && bytes_le(c.username@, b.username@) {
            lemma_bytes_le_trans(c.username@, b.username@, a.username@);
        }
    }

    fn compare(&self, a: &User, b: &User) -> (r: ComparatorResult) {
        if a.sign_in_count > b.sign_in_count {
            ComparatorResult::Less
        } else if a.sign_in_count < b.sign_in_count {
            ComparatorResult::Greater
        } else if a.is_active && !b.is_active {
            ComparatorResult::Less
        } else if !a.is_active && b.is_active {
            ComparatorResult::Greater
        } else {
            bytes_compare(&b.username, &a.username)
        }
    }
}

} // verus!
