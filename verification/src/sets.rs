//! Complement resolver: produces the effective search set, either the
//! expanded search set itself or its complement against the universe of
//! byte values 0-255, listed in increasing order.

use vstd::prelude::*;

verus! {

/// The bytes below `n` that do not occur in `s`, in increasing order.
pub open spec fn complement_upto(s: Seq<u8>, n: int) -> Seq<u8>
    decreases n,
{
    if n <= 0 {
        Seq::empty()
    } else {
        complement_upto(s, n - 1) + (if s.contains((n - 1) as u8) {
            Seq::<u8>::empty()
        } else {
            seq![(n - 1) as u8]
        })
    }
}

/// The bytes of the universe 0-255 that do not occur in `s`, in increasing
/// order.
pub open spec fn complement_spec(s: Seq<u8>) -> Seq<u8> {
    complement_upto(s, 256)
}

/// Every element of `complement_upto(s, n)` is below `n` and outside `s`,
/// and the elements are strictly increasing.
proof fn lemma_complement_upto(s: Seq<u8>, n: int)
    requires
        0 <= n <= 256,
    ensures
        forall|j: int|
            0 <= j < complement_upto(s, n).len() ==> (#[trigger] complement_upto(s, n)[j] < n
                && !s.contains(complement_upto(s, n)[j])),
        forall|b: u8| b < n && !s.contains(b) ==> complement_upto(s, n).contains(b),
        forall|j: int, k: int|
            0 <= j < k < complement_upto(s, n).len() ==> complement_upto(s, n)[j]
                < complement_upto(s, n)[k],
    decreases n,
{
    if n > 0 {
        lemma_complement_upto(s, n - 1);
        let prev = complement_upto(s, n - 1);
        let cur = complement_upto(s, n);
        if !s.contains((n - 1) as u8) {
            assert(cur =~= prev.push((n - 1) as u8));
        } else {
            assert(cur =~= prev);
        }
        assert forall|b: u8| b < n && !s.contains(b) implies cur.contains(b) by {
            if b < n - 1 {
                assert(prev.contains(b));
                let j = choose|j: int| 0 <= j < prev.len() && prev[j] == b;
                assert(cur[j] == b);
            } else {
                assert(b == (n - 1) as u8);
                assert(cur[cur.len() - 1] == b);
            }
        }
    }
}

/// Membership in the complement: a byte is in the complement of `s` exactly
/// when it does not occur in `s`.
pub proof fn lemma_complement_membership(s: Seq<u8>, b: u8)
    ensures
        complement_spec(s).contains(b) <==> !s.contains(b),
{
    lemma_complement_upto(s, 256);
    if !s.contains(b) {
        assert(b < 256);
        assert(complement_spec(s).contains(b));
    }
    if complement_spec(s).contains(b) {
        let j = choose|j: int|
            0 <= j < complement_spec(s).len() && complement_spec(s)[j] == b;
        assert(!s.contains(complement_spec(s)[j]));
    }
}

/// The complement is strictly increasing: ascending order, no duplicates.
pub proof fn lemma_complement_sorted(s: Seq<u8>)
    ensures
        forall|j: int, k: int|
            0 <= j < k < complement_spec(s).len() ==> complement_spec(s)[j] < complement_spec(
                s,
            )[k],
{
    lemma_complement_upto(s, 256);
}

/// The distinct bytes of `s` whose value is below `n`.
pub open spec fn members_below(s: Seq<u8>, n: int) -> Set<u8> {
    Set::new(|b: u8| (b as int) < n && s.contains(b))
}

/// `complement_upto(s, n)` and the distinct members of `s` below `n`
/// together account for every byte value below `n` exactly once.
proof fn lemma_complement_upto_len(s: Seq<u8>, n: int)
    requires
        0 <= n <= 256,
    ensures
        members_below(s, n).finite(),
        complement_upto(s, n).len() + members_below(s, n).len() == n,
    decreases n,
{
    broadcast use vstd::seq_lib::seq_to_set_is_finite;

    vstd::set_lib::lemma_len_subset(members_below(s, n), s.to_set());
    if n == 0 {
        assert(members_below(s, 0) =~= Set::<u8>::empty());
    } else {
        lemma_complement_upto_len(s, n - 1);
        let x = (n - 1) as u8;
        if s.contains(x) {
            assert(members_below(s, n) =~= members_below(s, n - 1).insert(x));
            assert(!members_below(s, n - 1).contains(x));
        } else {
            assert(members_below(s, n) =~= members_below(s, n - 1));
        }
    }
}

/// The complement's length: the size of the universe, 256, minus the number
/// of distinct bytes occurring in `s`.
pub proof fn lemma_complement_len(s: Seq<u8>)
    ensures
        complement_spec(s).len() + s.to_set().len() == 256,
{
    lemma_complement_upto_len(s, 256);
    assert(members_below(s, 256) =~= s.to_set());
}

/// Whether the byte `b` occurs in the vector `v`.
pub fn contains_byte(v: &Vec<u8>, b: u8) -> (r: bool)
    ensures
        r == v@.contains(b),
{
    let n = v.len();
    let mut j: usize = 0;
    while j < n
        invariant
            j <= n,
            n == v@.len(),
            forall|k: int| 0 <= k < j ==> v@[k] != b,
        decreases n - j,
    {
        if v[j] == b {
            proof {
                assert(v@[j as int] == b);
            }
            return true;
        }
        j = j + 1;
    }
    false
}

/// Resolves the effective search set: `search` itself, or, when `complement`
/// is set, the bytes of the universe 0-255 that do not occur in `search`, in
/// increasing order.
pub fn resolve(search: Vec<u8>, complement: bool) -> (r: Vec<u8>)
    ensures
        r@ == if complement {
            complement_spec(search@)
        } else {
            search@
        },
{
    if !complement {
        return search;
    }
    let mut out: Vec<u8> = Vec::new();
    let mut b: usize = 0;
    proof {
        assert(out@ =~= complement_upto(search@, 0));
    }
    while b < 256
        invariant
            b <= 256,
            out@ == complement_upto(search@, b as int),
        decreases 256 - b,
    {
        let ghost out0 = out@;
        if !contains_byte(&search, b as u8) {
            out.push(b as u8);
            proof {
                assert(out@ =~= out0 + seq![b as u8]);
            }
        } else {
            proof {
                assert(out@ =~= out0 + Seq::<u8>::empty());
            }
        }
        b = b + 1;
    }
    out
}

} // verus!
