//! Stream translator: applies a translation table to a byte stream one byte
//! at a time, with delete and squeeze semantics.
//!
//! The only carried state is the most recently written output byte. A byte
//! whose action is `Delete` produces nothing and leaves that state alone. A
//! byte whose action is `Pass` or `MapTo` yields an output byte; when
//! squeezing is enabled, that output byte is a member of the squeeze set,
//! and it equals the most recently written byte, the write is suppressed
//! (collapsing a run); otherwise it is written and becomes the most recently
//! written byte.

use vstd::prelude::*;
use vstd::seq_lib::group_seq_properties;

use crate::table::Action;
use crate::table::MappingTable;
use crate::sets::contains_byte;

verus! {

/// One output step: `prev` extended by the output byte `o`, unless squeezing
/// suppresses the write.
pub open spec fn step_emit(
    prev: Seq<u8>,
    last: Option<u8>,
    o: u8,
    squeeze: bool,
    sset: Seq<u8>,
) -> Seq<u8> {
    if squeeze && sset.contains(o) && last == Some(o) {
        prev
    } else {
        prev.push(o)
    }
}

/// The most recently written output byte after processing `input`, or `None`
/// when nothing has been written.
pub open spec fn trans_last(
    input: Seq<u8>,
    acts: Seq<Action>,
    squeeze: bool,
    sset: Seq<u8>,
) -> Option<u8>
    decreases input.len(),
{
    if input.len() == 0 {
        None
    } else {
        match acts[input.last() as int] {
            Action::Delete => trans_last(input.drop_last(), acts, squeeze, sset),
            Action::Pass => Some(input.last()),
            Action::MapTo(r) => Some(r),
        }
    }
}

/// The output stream produced by processing `input` under the actions
/// `acts`, squeezing members of `sset` when `squeeze` is set.
pub open spec fn trans_out(
    input: Seq<u8>,
    acts: Seq<Action>,
    squeeze: bool,
    sset: Seq<u8>,
) -> Seq<u8>
    decreases input.len(),
{
    if input.len() == 0 {
        Seq::empty()
    } else {
        let prev = trans_out(input.drop_last(), acts, squeeze, sset);
        let last = trans_last(input.drop_last(), acts, squeeze, sset);
        match acts[input.last() as int] {
            Action::Delete => prev,
            Action::Pass => step_emit(prev, last, input.last(), squeeze, sset),
            Action::MapTo(r) => step_emit(prev, last, r, squeeze, sset),
        }
    }
}

/// Applies `table` to `input` and returns the translated output stream.
pub fn translate(
    input: &Vec<u8>,
    table: &MappingTable,
    squeeze: bool,
    squeeze_set: &Vec<u8>,
) -> (out: Vec<u8>)
    requires
        table.wf(),
    ensures
        out@ == trans_out(input@, table@, squeeze, squeeze_set@),
{
    let n = input.len();
    let mut out: Vec<u8> = Vec::new();
    let mut last: Option<u8> = None;
    let mut i: usize = 0;
    proof {
        assert(input@.take(0) =~= Seq::<u8>::empty());
    }
    while i < n
        invariant
            i <= n,
            n == input@.len(),
            table.wf(),
            out@ == trans_out(input@.take(i as int), table@, squeeze, squeeze_set@),
            last == trans_last(input@.take(i as int), table@, squeeze, squeeze_set@),
        decreases n - i,
    {
        let ghost tk = input@.take(i as int);
        let b = input[i];
        i = i + 1;
        proof {
            let tk1 = input@.take(i as int);
            assert(tk1.drop_last() =~= tk);
            assert(tk1.last() == b);
        }
        match table.action(b) {
            Action::Delete => {
            },
            Action::Pass => {
                let suppress = squeeze && contains_byte(squeeze_set, b) && match last {
                    Some(p) => p == b,
                    None => false,
                };
                if !suppress {
                    out.push(b);
                }
                last = Some(b);
            },
            Action::MapTo(r) => {
                let suppress = squeeze && contains_byte(squeeze_set, r) && match last {
                    Some(p) => p == r,
                    None => false,
                };
                if !suppress {
                    out.push(r);
                }
                last = Some(r);
            },
        }
    }
    proof {
        assert(input@.take(n as int) =~= input@);
    }
    out
}

/// The carried state always names the last written byte: it is `None` while
/// the output is empty and `Some` of the output's last byte afterwards.
pub proof fn lemma_last_is_last_of_out(
    input: Seq<u8>,
    acts: Seq<Action>,
    squeeze: bool,
    sset: Seq<u8>,
)
    ensures
        trans_last(input, acts, squeeze, sset) == (if trans_out(
            input,
            acts,
            squeeze,
            sset,
        ).len() == 0 {
            Option::<u8>::None
        } else {
            Some(trans_out(input, acts, squeeze, sset).last())
        }),
    decreases input.len(),
{
    if input.len() > 0 {
        lemma_last_is_last_of_out(input.drop_last(), acts, squeeze, sset);
    }
}

/// No two adjacent bytes of `s` that belong to `sset` are equal.
pub open spec fn no_adjacent_squeezable(s: Seq<u8>, sset: Seq<u8>) -> bool {
    forall|j: int| 0 < j < s.len() && sset.contains(#[trigger] s[j]) ==> s[j] != s[j - 1]
}

/// Squeeze law: with squeezing enabled, the output never holds two equal
/// adjacent bytes that are members of the squeeze set — every maximal run of
/// such a byte collapses to a single occurrence.
pub proof fn lemma_squeeze_no_adjacent(input: Seq<u8>, acts: Seq<Action>, sset: Seq<u8>)
    ensures
        no_adjacent_squeezable(trans_out(input, acts, true, sset), sset),
    decreases input.len(),
{
    if input.len() > 0 {
        lemma_squeeze_no_adjacent(input.drop_last(), acts, sset);
        lemma_last_is_last_of_out(input.drop_last(), acts, true, sset);
        let prev = trans_out(input.drop_last(), acts, true, sset);
        let out = trans_out(input, acts, true, sset);
        match acts[input.last() as int] {
            Action::Delete => {
            },
            Action::Pass => {
                lemma_step_no_adjacent(prev, input.last(), sset, trans_last(
                    input.drop_last(),
                    acts,
                    true,
                    sset,
                ));
            },
            Action::MapTo(r) => {
                lemma_step_no_adjacent(prev, r, sset, trans_last(
                    input.drop_last(),
                    acts,
                    true,
                    sset,
                ));
            },
        }
    }
}

/// One emission step preserves the no-adjacent-squeezable-duplicates
/// property.
proof fn lemma_step_no_adjacent(prev: Seq<u8>, o: u8, sset: Seq<u8>, last: Option<u8>)
    requires
        no_adjacent_squeezable(prev, sset),
        last == (if prev.len() == 0 {
            Option::<u8>::None
        } else {
            Some(prev.last())
        }),
    ensures
        no_adjacent_squeezable(step_emit(prev, last, o, true, sset), sset),
{
    let out = step_emit(prev, last, o, true, sset);
    if !(sset.contains(o) && last == Some(o)) {
        assert(out == prev.push(o));
        assert forall|j: int|
            0 < j < out.len() && sset.contains(#[trigger] out[j]) implies out[j] != out[j - 1] by {
            if j < prev.len() {
                assert(out[j] == prev[j] && out[j - 1] == prev[j - 1]);
            } else {
                assert(j == prev.len());
                assert(out[j] == o && out[j - 1] == prev.last());
                if sset.contains(o) {
                    assert(last != Some(o));
                }
            }
        }
    }
}

/// `s` with every byte that equals its immediate predecessor and belongs to
/// `sset` removed: each maximal run of a squeezable byte keeps exactly its
/// first occurrence.
pub open spec fn collapsed(s: Seq<u8>, sset: Seq<u8>) -> Seq<u8>
    decreases s.len(),
{
    if s.len() == 0 {
        Seq::empty()
    } else if s.len() >= 2 && s.last() == s[s.len() - 2] && sset.contains(s.last()) {
        collapsed(s.drop_last(), sset)
    } else {
        collapsed(s.drop_last(), sset).push(s.last())
    }
}

/// Squeeze law for a table that passes every byte through: the output is the
/// input with each maximal run of a squeeze-set member collapsed to its
/// first byte.
pub proof fn lemma_squeeze_pass_collapses(input: Seq<u8>, acts: Seq<Action>, sset: Seq<u8>)
    requires
        acts.len() == 256,
        forall|b: u8| #[trigger] acts[b as int] == Action::Pass,
    ensures
        trans_out(input, acts, true, sset) == collapsed(input, sset),
    decreases input.len(),
{
    if input.len() > 0 {
        lemma_squeeze_pass_collapses(input.drop_last(), acts, sset);
        if input.len() >= 2 {
            assert(input.drop_last().last() == input[input.len() - 2]);
        }
    }
}

/// Identity law: under a table that passes every byte through or maps it to
/// itself, and with squeezing disabled, the output equals the input.
pub proof fn lemma_identity_table(input: Seq<u8>, acts: Seq<Action>, sset: Seq<u8>)
    requires
        acts.len() == 256,
        forall|b: u8|
            #[trigger] acts[b as int] == Action::Pass || acts[b as int] == Action::MapTo(b),
    ensures
        trans_out(input, acts, false, sset) == input,
    decreases input.len(),
{
    if input.len() > 0 {
        lemma_identity_table(input.drop_last(), acts, sset);
        assert(input.drop_last().push(input.last()) =~= input);
    }
}

/// Delete law: under a table that deletes exactly the members of `del` and
/// passes everything else, and with squeezing disabled, the output is the
/// input with the members of `del` removed: it is the subsequence of bytes
/// outside `del`, no output byte lies in `del`, and the output length is the
/// input length minus the number of input bytes in `del`.
pub proof fn lemma_delete_filter(input: Seq<u8>, acts: Seq<Action>, del: Seq<u8>, sset: Seq<u8>)
    requires
        acts.len() == 256,
        forall|b: u8|
            #[trigger] acts[b as int] == (if del.contains(b) {
                Action::Delete
            } else {
                Action::Pass
            }),
    ensures
        trans_out(input, acts, false, sset) == input.filter(|b: u8| !del.contains(b)),
        forall|j: int|
            0 <= j < trans_out(input, acts, false, sset).len() ==> !del.contains(
                #[trigger] trans_out(input, acts, false, sset)[j],
            ),
        trans_out(input, acts, false, sset).len() + input.filter(
            |b: u8| del.contains(b),
        ).len() == input.len(),
    decreases input.len(),
{
    broadcast use group_seq_properties;

    reveal(Seq::filter);
    let keep = |b: u8| !del.contains(b);
    let drop = |b: u8| del.contains(b);
    if input.len() == 0 {
        assert(input.filter(keep) =~= Seq::<u8>::empty());
        assert(input.filter(drop) =~= Seq::<u8>::empty());
    } else {
        lemma_delete_filter(input.drop_last(), acts, del, sset);
        let b = input.last();
        assert(input.drop_last().filter(keep) == trans_out(input, acts, false, sset) || (
        !del.contains(b) && input.drop_last().filter(keep).push(b) == trans_out(
            input,
            acts,
            false,
            sset,
        )));
    }
    assert forall|j: int|
        0 <= j < trans_out(input, acts, false, sset).len() implies !del.contains(
        #[trigger] trans_out(input, acts, false, sset)[j],
    ) by {
        input.lemma_filter_pred(keep, j);
    }
}

} // verus!
