//! The resolved invocation configuration and the end-to-end engine entry
//! point.
//!
//! `Translation` carries the three flags and the two raw operand strings.
//! `append_replace` pads (or truncates) the replace string to the length of
//! the search string by repeating its last character. `check_opts` states
//! when the configuration is acceptable. `run` drives the whole engine on a
//! byte stream: expand both operands, resolve the complement, build the
//! table, and translate.
//!
//! Squeeze-set rule: the squeeze set is the expansion of the replace operand
//! when that expansion is non-empty, and otherwise the effective (possibly
//! complemented) search set.

use vstd::prelude::*;
use vstd::string::StrSliceExecFns;

use crate::expand::ParseError;
use crate::expand::expand;
use crate::expand::expand_spec;
use crate::expand::view_result;
use crate::sets::complement_spec;
use crate::sets::resolve;
use crate::table::Action;
use crate::table::build;
use crate::table::padded;
use crate::table::table_spec;
use crate::translate::trans_out;
use crate::translate::translate;

verus! {

/// The fully resolved configuration of one invocation: three flags and the
/// two raw operand strings.
pub struct Translation {
    /// Complement the search set against the universe of bytes 0-255.
    pub complement: bool,
    /// Delete every input byte in the effective search set.
    pub delete: bool,
    /// Collapse runs of repeated output bytes that are in the squeeze set.
    pub squeeze: bool,
    /// The raw search set specification.
    pub search: String,
    /// The raw replace set specification.
    pub replace: String,
}

/// Relies on `String::push`: appends the given character to the end of the
/// string.
#[verifier::external_body]
fn push_char(s: &mut String, c: char)
    ensures
        final(s)@ == old(s)@.push(c),
{
    s.push(c);
}

impl Translation {
    /// Pads the replace string to the length of the search string by
    /// repeating its last character; a longer replace string is truncated.
    /// The flags and the search string are left unchanged.
    pub fn append_replace(&mut self)
        requires
            old(self).replace@.len() == 0 ==> old(self).search@.len() == 0,
        ensures
            final(self).complement == old(self).complement,
            final(self).delete == old(self).delete,
            final(self).squeeze == old(self).squeeze,
            final(self).search == old(self).search,
            final(self).replace@ == padded(old(self).search@, old(self).replace@),
    {
        let n = self.search.as_str().unicode_len();
        let rlen = self.replace.as_str().unicode_len();
        let mut out = String::new();
        let mut i: usize = 0;
        while i < n
            invariant
                i <= n,
                n == self.search@.len(),
                rlen == self.replace@.len(),
                n > 0 ==> rlen > 0,
                out@.len() == i,
                forall|k: int|
                    0 <= k < i ==> out@[k] == padded(self.search@, self.replace@)[k],
            decreases n - i,
        {
            let c = if i < rlen {
                self.replace.as_str().get_char(i)
            } else {
                self.replace.as_str().get_char(rlen - 1)
            };
            push_char(&mut out, c);
            i = i + 1;
        }
        proof {
            assert(out@ =~= padded(self.search@, self.replace@));
        }
        self.replace = out;
    }

    /// Whether the configuration is acceptable: the replace operand may be
    /// empty only when deleting or squeezing.
    pub fn check_opts(&self) -> (ok: bool)
        ensures
            ok == (self.delete || self.squeeze || self.replace@.len() > 0),
    {
        self.delete || self.squeeze || self.replace.as_str().unicode_len() > 0
    }
}

/// The squeeze set of an invocation: the expanded replace set when it is
/// non-empty, and otherwise the effective search set.
pub open spec fn squeeze_set_spec(effective: Seq<u8>, rep: Seq<u8>) -> Seq<u8> {
    if rep.len() > 0 {
        rep
    } else {
        effective
    }
}

/// What a whole invocation produces from a given input stream: the first
/// operand error scanning the search and then the replace specification, or
/// the translated output stream.
pub open spec fn run_spec(
    search: Seq<u8>,
    replace: Seq<u8>,
    complement: bool,
    delete: bool,
    squeeze: bool,
    input: Seq<u8>,
) -> Result<Seq<u8>, ParseError> {
    match expand_spec(search) {
        Err(e) => Err(e),
        Ok(s) => match expand_spec(replace) {
            Err(e) => Err(e),
            Ok(rep) => {
                let eff = if complement {
                    complement_spec(s)
                } else {
                    s
                };
                let acts = Seq::new(256, |b: int| table_spec(eff, rep, delete, b as u8));
                Ok(trans_out(input, acts, squeeze, squeeze_set_spec(eff, rep)))
            },
        },
    }
}

/// Identity law: an invocation whose replace operand equals its search
/// operand (with no flags set) maps every matched byte to itself, and so
/// leaves any input stream unchanged.
pub proof fn lemma_same_operands_identity(oper: Seq<u8>, input: Seq<u8>)
    requires
        expand_spec(oper) is Ok,
    ensures
        run_spec(oper, oper, false, false, false, input) == Ok::<Seq<u8>, ParseError>(input),
{
    let s = expand_spec(oper)->Ok_0;
    let acts = Seq::new(256, |b: int| table_spec(s, s, false, b as u8));
    assert forall|b: u8|
        #[trigger] acts[b as int] == Action::Pass || acts[b as int] == Action::MapTo(b) by {
        if s.len() > 0 {
            assert(padded(s, s) =~= s);
            crate::table::lemma_lookup_aligned_identity(s, b);
        }
    }
    crate::translate::lemma_identity_table(input, acts, squeeze_set_spec(s, s));
}

/// Delete law: an invocation that deletes the bytes of an expanded search
/// set `s` (no complement, no squeeze) outputs exactly the input bytes that
/// are not in `s`: it filters them out, so no member of `s` survives and
/// the output length is the input length minus the number of members of `s`
/// in the input.
pub proof fn lemma_delete_run(search: Seq<u8>, replace: Seq<u8>, s: Seq<u8>, input: Seq<u8>)
    requires
        expand_spec(search) == Ok::<Seq<u8>, ParseError>(s),
        expand_spec(replace) is Ok,
    ensures
        run_spec(search, replace, false, true, false, input) == Ok::<Seq<u8>, ParseError>(
            input.filter(|b: u8| !s.contains(b)),
        ),
{
    let rep = expand_spec(replace)->Ok_0;
    let acts = Seq::new(256, |b: int| table_spec(s, rep, true, b as u8));
    crate::translate::lemma_delete_filter(input, acts, s, squeeze_set_spec(s, rep));
}

/// Squeeze-only law: an invocation whose replace operand expands to nothing
/// and that only squeezes (no complement, no delete) outputs the input with
/// each maximal run of a byte of the expanded search set `s` collapsed to
/// its first occurrence.
pub proof fn lemma_squeeze_only_run(search: Seq<u8>, replace: Seq<u8>, s: Seq<u8>, input: Seq<u8>)
    requires
        expand_spec(search) == Ok::<Seq<u8>, ParseError>(s),
        expand_spec(replace) == Ok::<Seq<u8>, ParseError>(Seq::empty()),
    ensures
        run_spec(search, replace, false, false, true, input) == Ok::<Seq<u8>, ParseError>(
            crate::translate::collapsed(input, s),
        ),
{
    let acts = Seq::new(256, |b: int| table_spec(s, Seq::empty(), false, b as u8));
    crate::translate::lemma_squeeze_pass_collapses(input, acts, s);
}

/// Runs the whole engine: expands the search and replace specifications,
/// resolves the complement, builds the mapping table, and translates
/// `input`, squeezing when requested.
pub fn run(
    search: &Vec<u8>,
    replace: &Vec<u8>,
    complement: bool,
    delete: bool,
    squeeze: bool,
    input: &Vec<u8>,
) -> (r: Result<Vec<u8>, ParseError>)
    ensures
        view_result(r) == run_spec(search@, replace@, complement, delete, squeeze, input@),
{
    let s = match expand(search) {
        Ok(s) => s,
        Err(e) => {
            return Err(e);
        },
    };
    let rep = match expand(replace) {
        Ok(rep) => rep,
        Err(e) => {
            return Err(e);
        },
    };
    let eff = resolve(s, complement);
    let table = build(&eff, &rep, delete);
    proof {
        assert(table@ =~= Seq::new(
            256,
            |b: int| table_spec(eff@, rep@, delete, b as u8),
        )) by {
            assert(forall|b: int|
                0 <= b < 256 ==> table@[b] == table.spec_action(b as u8));
        }
    }
    let out = if rep.len() > 0 {
        translate(input, &table, squeeze, &rep)
    } else {
        translate(input, &table, squeeze, &eff)
    };
    Ok(out)
}

} // verus!
