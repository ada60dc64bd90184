//! Mapping builder: turns the effective search set and the expanded replace
//! set into a total byte-to-action translation table.
//!
//! When `delete` is set, every byte of the search set maps to `Delete` and
//! the replace set is ignored. Otherwise the replace set is padded to the
//! length of the search set by repeating its last element, and the byte at
//! position `i` of the search set maps to the padded byte at position `i`;
//! when the search set holds a byte more than once, the last occurrence
//! wins. An empty replace set (squeeze-only use) yields the identity table,
//! as does an empty search set. Bytes outside the search set always map to
//! `Pass`.

use vstd::prelude::*;
use vstd::pervasive::VecAdditionalExecFns;

verus! {

/// What the table prescribes for one input byte.
#[derive(Clone, Copy, PartialEq, Eq, Structural, Debug)]
pub enum Action {
    /// Copy the byte through unchanged.
    Pass,
    /// Produce no output for the byte.
    Delete,
    /// Produce the held byte instead.
    MapTo(u8),
}

/// `r` padded to the length of `s` by repeating its last element; a longer
/// `r` is truncated to the length of `s`.
pub open spec fn padded<T>(s: Seq<T>, r: Seq<T>) -> Seq<T> {
    Seq::new(
        s.len(),
        |i: int|
            if i < r.len() {
                r[i]
            } else {
                r[r.len() - 1]
            },
    )
}

/// The action for byte `b` given positionally aligned `search` and `rep`
/// sequences: the mapping at the last position of `search` holding `b`, or
/// `Pass` when `b` does not occur.
pub open spec fn lookup(search: Seq<u8>, rep: Seq<u8>, b: u8) -> Action
    decreases search.len(),
{
    if search.len() == 0 {
        Action::Pass
    } else if search.last() == b {
        Action::MapTo(rep.last())
    } else {
        lookup(search.drop_last(), rep.drop_last(), b)
    }
}

/// The action the built table prescribes for byte `b`.
pub open spec fn table_spec(search: Seq<u8>, rep: Seq<u8>, delete: bool, b: u8) -> Action {
    if delete {
        if search.contains(b) {
            Action::Delete
        } else {
            Action::Pass
        }
    } else if rep.len() == 0 {
        Action::Pass
    } else {
        lookup(search, padded(search, rep), b)
    }
}

/// A total translation table: one action per byte value 0-255.
pub struct MappingTable {
    actions: Vec<Action>,
}

impl View for MappingTable {
    type V = Seq<Action>;

    closed spec fn view(&self) -> Seq<Action> {
        self.actions@
    }
}

impl MappingTable {
    /// The table covers every byte value.
    pub open spec fn wf(&self) -> bool {
        self@.len() == 256
    }

    /// The action prescribed for byte `b`.
    pub open spec fn spec_action(&self, b: u8) -> Action {
        self@[b as int]
    }

    /// Looks up the action for byte `b`.
    pub fn action(&self, b: u8) -> (a: Action)
        requires
            self.wf(),
        ensures
            a == self.spec_action(b),
    {
        self.actions[b as usize]
    }
}

/// The padded replace sequence keeps `r` as its prefix, has the length of
/// `s`, and repeats the last element of `r` over its whole tail: when
/// `r` is no longer than `s`, the last `s.len() - r.len() + 1` positions all
/// hold the last element of `r`.
pub proof fn lemma_padded(s: Seq<u8>, r: Seq<u8>)
    requires
        1 <= r.len() <= s.len(),
    ensures
        padded(s, r).len() == s.len(),
        forall|i: int| 0 <= i < r.len() ==> padded(s, r)[i] == r[i],
        forall|i: int| r.len() - 1 <= i < s.len() ==> padded(s, r)[i] == r.last(),
{
}

/// When the search and replace sequences are the same, every lookup either
/// passes the byte through or maps it to itself.
pub proof fn lemma_lookup_aligned_identity(s: Seq<u8>, b: u8)
    ensures
        lookup(s, s, b) == Action::Pass || lookup(s, s, b) == Action::MapTo(b),
    decreases s.len(),
{
    if s.len() > 0 && s.last() != b {
        lemma_lookup_aligned_identity(s.drop_last(), b);
    }
}

/// Builds the translation table from the effective search set, the expanded
/// replace set and the delete flag.
pub fn build(effective_search: &Vec<u8>, replace: &Vec<u8>, delete: bool) -> (t: MappingTable)
    ensures
        t.wf(),
        forall|b: u8| t.spec_action(b) == table_spec(effective_search@, replace@, delete, b),
{
    let mut actions: Vec<Action> = Vec::new();
    let mut j: usize = 0;
    while j < 256
        invariant
            j <= 256,
            actions@.len() == j,
            forall|k: int| 0 <= k < j ==> actions@[k] == Action::Pass,
        decreases 256 - j,
    {
        actions.push(Action::Pass);
        j = j + 1;
    }
    let n = effective_search.len();
    if delete {
        let mut i: usize = 0;
        while i < n
            invariant
                i <= n,
                n == effective_search@.len(),
                actions@.len() == 256,
                forall|b: u8|
                    #[trigger] actions@[b as int] == (if effective_search@.take(
                        i as int,
                    ).contains(b) {
                        Action::Delete
                    } else {
                        Action::Pass
                    }),
            decreases n - i,
        {
            let ghost pre = actions@;
            let ghost tk = effective_search@.take(i as int);
            let s = effective_search[i];
            actions.set(s as usize, Action::Delete);
            i = i + 1;
            proof {
                let tk1 = effective_search@.take(i as int);
                assert(tk1 =~= tk.push(s));
                assert forall|b: u8| #[trigger] actions@[b as int] == (if tk1.contains(b) {
                    Action::Delete
                } else {
                    Action::Pass
                }) by {
                    if b == s {
                        assert(tk1[tk1.len() - 1] == s);
                        assert(tk1.contains(b));
                    } else {
                        assert(actions@[b as int] == pre[b as int]);
                        assert(tk1.contains(b) <==> tk.contains(b)) by {
                            if tk1.contains(b) {
                                let j2 = choose|j2: int|
                                    0 <= j2 < tk1.len() && tk1[j2] == b;
                                assert(tk[j2] == b);
                            }
                            if tk.contains(b) {
                                let j2 = choose|j2: int| 0 <= j2 < tk.len() && tk[j2] == b;
                                assert(tk1[j2] == b);
                            }
                        }
                    }
                }
            }
        }
        let t = MappingTable { actions };
        proof {
            assert(effective_search@.take(n as int) =~= effective_search@);
        }
        t
    } else if replace.len() == 0 {
        MappingTable { actions }
    } else {
        let rlen = replace.len();
        let mut pad: Vec<u8> = Vec::new();
        let mut i: usize = 0;
        while i < n
            invariant
                i <= n,
                n == effective_search@.len(),
                rlen == replace@.len(),
                rlen >= 1,
                pad@.len() == i,
                forall|k: int| 0 <= k < i ==> pad@[k] == padded(effective_search@, replace@)[k],
            decreases n - i,
        {
            if i < rlen {
                pad.push(replace[i]);
            } else {
                pad.push(replace[rlen - 1]);
            }
            i = i + 1;
        }
        proof {
            assert(pad@ =~= padded(effective_search@, replace@));
        }
        let mut i: usize = 0;
        while i < n
            invariant
                i <= n,
                n == effective_search@.len(),
                pad@.len() == n,
                pad@ == padded(effective_search@, replace@),
                actions@.len() == 256,
                forall|b: u8|
                    #[trigger] actions@[b as int] == lookup(
                        effective_search@.take(i as int),
                        pad@.take(i as int),
                        b,
                    ),
            decreases n - i,
        {
            let ghost pre = actions@;
            let ghost tk = effective_search@.take(i as int);
            let ghost pk = pad@.take(i as int);
            let s = effective_search[i];
            let p = pad[i];
            actions.set(s as usize, Action::MapTo(p));
            i = i + 1;
            proof {
                let tk1 = effective_search@.take(i as int);
                let pk1 = pad@.take(i as int);
                assert(tk1.drop_last() =~= tk);
                assert(pk1.drop_last() =~= pk);
                assert(tk1.last() == s);
                assert(pk1.last() == p);
                assert forall|b: u8| #[trigger] actions@[b as int] == lookup(tk1, pk1, b) by {
                    if b == s {
                        assert(lookup(tk1, pk1, b) == Action::MapTo(p));
                    } else {
                        assert(actions@[b as int] == pre[b as int]);
                        assert(lookup(tk1, pk1, b) == lookup(tk, pk, b));
                    }
                }
            }
        }
        let t = MappingTable { actions };
        proof {
            assert(effective_search@.take(n as int) =~= effective_search@);
            assert(pad@.take(n as int) =~= pad@);
        }
        t
    }
}

} // verus!
