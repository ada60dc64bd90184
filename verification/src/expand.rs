//! Set expander: turns a raw operand string (given as bytes) into the ordered
//! sequence of concrete byte values it denotes.
//!
//! Grammar, scanned left to right:
//! - A backslash followed by 1-3 octal digits (`0`-`7`) consumes the maximal
//!   run of up to 3 such digits and denotes the byte with that octal value;
//!   a value above 255 is an `InvalidEscape` error.
//! - A backslash followed by any other byte denotes that byte literally.
//! - A backslash at the very end of the input denotes a literal backslash.
//! - A plain byte `lo` followed by `-` followed by a plain byte `hi` (neither
//!   `lo` nor the leading byte of an escape) denotes every byte from `lo` to
//!   `hi` inclusive, in increasing order; `lo > hi` is an `InvalidRange`
//!   error. A `-` that starts the input, follows a completed token, or has
//!   nothing after it is a literal `-`; a `-` followed by a backslash does not
//!   form a range.
//! - Any other byte denotes itself.
//!
//! The emission order is significant: it defines the position of each byte
//! for positional mapping.

use vstd::prelude::*;

verus! {

/// The byte value of `\`.
pub const BACKSLASH: u8 = 92;

/// The byte value of `-`.
pub const DASH: u8 = 45;

/// An error in the syntax of a set specification.
#[derive(Clone, Copy, PartialEq, Eq, Structural, Debug)]
pub enum ParseError {
    /// A range `lo-hi` with `lo > hi`.
    InvalidRange,
    /// An octal escape denoting a value above 255.
    InvalidEscape,
}

/// Whether `b` is an ASCII octal digit, `0` through `7`.
pub open spec fn is_octal(b: u8) -> bool {
    48 <= b <= 55
}

/// The number of leading octal digits of `s`, capped at 3: how many digits
/// a maximal escape run consumes.
pub open spec fn oct_digits(s: Seq<u8>) -> int {
    if s.len() >= 1 && is_octal(s[0]) {
        if s.len() >= 2 && is_octal(s[1]) {
            if s.len() >= 3 && is_octal(s[2]) {
                3
            } else {
                2
            }
        } else {
            1
        }
    } else {
        0
    }
}

/// The value of the first `k` bytes of `s` read as octal digits.
pub open spec fn oct_val(s: Seq<u8>, k: int) -> int
    decreases k,
{
    if k <= 0 {
        0
    } else {
        oct_val(s, k - 1) * 8 + (s[k - 1] - 48)
    }
}

/// The bytes from `lo` to `hi` inclusive, in increasing order.
pub open spec fn range_seq(lo: u8, hi: u8) -> Seq<u8> {
    Seq::new((hi - lo + 1) as nat, |i: int| (lo + i) as u8)
}

/// Prefixes `p` to the payload of `r`; an error passes through unchanged.
pub open spec fn prepend(p: Seq<u8>, r: Result<Seq<u8>, ParseError>) -> Result<
    Seq<u8>,
    ParseError,
> {
    match r {
        Ok(t) => Ok(p + t),
        Err(e) => Err(e),
    }
}

/// The sequence of byte values denoted by the specification `s`, or the
/// first syntax error encountered scanning left to right.
pub open spec fn expand_spec(s: Seq<u8>) -> Result<Seq<u8>, ParseError>
    decreases s.len(),
{
    if s.len() == 0 {
        Ok(Seq::empty())
    } else if s[0] == BACKSLASH {
        if s.len() == 1 {
            Ok(seq![BACKSLASH])
        } else if is_octal(s[1]) {
            let k = oct_digits(s.skip(1));
            let v = oct_val(s.skip(1), k);
            if v > 255 {
                Err(ParseError::InvalidEscape)
            } else {
                prepend(seq![v as u8], expand_spec(s.skip(1 + k)))
            }
        } else {
            prepend(seq![s[1]], expand_spec(s.skip(2)))
        }
    } else if s[0] != DASH && s.len() >= 3 && s[1] == DASH && s[2] != BACKSLASH {
        if s[0] > s[2] {
            Err(ParseError::InvalidRange)
        } else {
            prepend(range_seq(s[0], s[2]), expand_spec(s.skip(3)))
        }
    } else {
        prepend(seq![s[0]], expand_spec(s.skip(1)))
    }
}

/// The view of an expansion result: the sequence the vector denotes, or the
/// error unchanged.
pub open spec fn view_result(r: Result<Vec<u8>, ParseError>) -> Result<Seq<u8>, ParseError> {
    match r {
        Ok(v) => Ok(v@),
        Err(e) => Err(e),
    }
}

/// Prefixing by `a` and then by `b` is prefixing by `a + b`.
proof fn lemma_prepend_assoc(a: Seq<u8>, b: Seq<u8>, r: Result<Seq<u8>, ParseError>)
    ensures
        prepend(a, prepend(b, r)) == prepend(a + b, r),
{
    match r {
        Ok(t) => {
            assert(a + (b + t) =~= (a + b) + t);
        },
        Err(_) => {
        },
    }
}

/// Dropping `i` elements and then `d` more drops `i + d` elements.
proof fn lemma_skip_skip(s: Seq<u8>, i: int, d: int)
    requires
        0 <= i,
        0 <= d,
        i + d <= s.len(),
    ensures
        s.skip(i).skip(d) == s.skip(i + d),
{
    assert(s.skip(i).skip(d) =~= s.skip(i + d));
}

/// Whether `b` is an ASCII octal digit.
fn is_octal_byte(b: u8) -> (r: bool)
    ensures
        r == is_octal(b),
{
    48 <= b && b <= 55
}

/// Expands the set specification `raw` into the ordered sequence of byte
/// values it denotes, or reports the first syntax error found scanning left
/// to right.
pub fn expand(raw: &Vec<u8>) -> (r: Result<Vec<u8>, ParseError>)
    ensures
        view_result(r) == expand_spec(raw@),
{
    let n = raw.len();
    let mut out: Vec<u8> = Vec::new();
    let mut i: usize = 0;
    proof {
        assert(raw@.skip(0) =~= raw@);
        match expand_spec(raw@) {
            Ok(t) => {
                assert(Seq::<u8>::empty() + t =~= t);
            },
            Err(_) => {
            },
        }
    }
    while i < n
        invariant
            i <= n,
            n == raw@.len(),
            expand_spec(raw@) == prepend(out@, expand_spec(raw@.skip(i as int))),
        decreases n - i,
    {
        let ghost rest = raw@.skip(i as int);
        let ghost out0 = out@;
        proof {
            assert(rest.len() == n - i);
            assert(forall|j: int| 0 <= j < rest.len() ==> rest[j] == raw@[i + j]);
        }
        let b = raw[i];
        if b == BACKSLASH {
            if i + 1 == n {
                proof {
                    assert(expand_spec(rest) == Ok::<Seq<u8>, ParseError>(seq![BACKSLASH]));
                    lemma_skip_skip(raw@, i as int, 1);
                    assert(expand_spec(rest) == prepend(
                        seq![BACKSLASH],
                        expand_spec(raw@.skip(i + 1)),
                    ));
                    lemma_prepend_assoc(out0, seq![BACKSLASH], expand_spec(raw@.skip(i + 1)));
                }
                out.push(BACKSLASH);
                i = i + 1;
                proof {
                    assert(out@ =~= out0 + seq![BACKSLASH]);
                }
            } else {
                let d1 = raw[i + 1];
                if is_octal_byte(d1) {
                    let ghost rest1 = raw@.skip(i + 1);
                    proof {
                        lemma_skip_skip(raw@, i as int, 1);
                        assert(forall|j: int|
                            0 <= j < rest1.len() ==> rest1[j] == raw@[i + 1 + j]);
                    }
                    let mut k: usize = 1;
                    let mut v: usize = (d1 - 48) as usize;
                    if n - i > 2 && is_octal_byte(raw[i + 2]) {
                        k = 2;
                        v = v * 8 + (raw[i + 2] - 48) as usize;
                        if n - i > 3 && is_octal_byte(raw[i + 3]) {
                            k = 3;
                            v = v * 8 + (raw[i + 3] - 48) as usize;
                        }
                    }
                    proof {
                        reveal_with_fuel(oct_val, 4);
                        assert(k == oct_digits(rest1));
                        assert(v == oct_val(rest1, k as int));
                    }
                    if v > 255 {
                        proof {
                            assert(expand_spec(rest) == Err::<Seq<u8>, ParseError>(
                                ParseError::InvalidEscape,
                            ));
                        }
                        return Err(ParseError::InvalidEscape);
                    }
                    proof {
                        assert(expand_spec(rest) == prepend(
                            seq![v as u8],
                            expand_spec(rest.skip(1 + k as int)),
                        ));
                        lemma_skip_skip(raw@, i as int, 1 + k as int);
                        lemma_prepend_assoc(
                            out0,
                            seq![v as u8],
                            expand_spec(raw@.skip(i + 1 + k as int)),
                        );
                    }
                    out.push(v as u8);
                    i = i + 1 + k;
                    proof {
                        assert(out@ =~= out0 + seq![v as u8]);
                    }
                } else {
                    proof {
                        assert(expand_spec(rest) == prepend(
                            seq![rest[1]],
                            expand_spec(rest.skip(2)),
                        ));
                        lemma_skip_skip(raw@, i as int, 2);
                        lemma_prepend_assoc(out0, seq![rest[1]], expand_spec(raw@.skip(i + 2)));
                    }
                    out.push(d1);
                    i = i + 2;
                    proof {
                        assert(out@ =~= out0 + seq![rest[1]]);
                    }
                }
            }
        } else if b != DASH && n - i > 2 && raw[i + 1] == DASH && raw[i + 2] != BACKSLASH {
            let hi = raw[i + 2];
            if b > hi {
                proof {
                    assert(expand_spec(rest) == Err::<Seq<u8>, ParseError>(
                        ParseError::InvalidRange,
                    ));
                }
                return Err(ParseError::InvalidRange);
            }
            proof {
                assert(expand_spec(rest) == prepend(
                    range_seq(b, hi),
                    expand_spec(rest.skip(3)),
                ));
                lemma_skip_skip(raw@, i as int, 3);
                lemma_prepend_assoc(out0, range_seq(b, hi), expand_spec(raw@.skip(i + 3)));
            }
            let mut c: usize = b as usize;
            while c <= hi as usize
                invariant
                    b <= hi,
                    b as usize <= c <= hi as usize + 1,
                    out@ == out0 + range_seq(b, hi).take(c - b as int),
                decreases hi as usize + 1 - c,
            {
                let ghost outp = out@;
                out.push(c as u8);
                c = c + 1;
                proof {
                    assert(range_seq(b, hi).take(c - b as int) =~= range_seq(b, hi).take(
                        c - 1 - b as int,
                    ).push((c - 1) as u8));
                    assert(out@ =~= outp + seq![(c - 1) as u8]);
                }
            }
            i = i + 3;
            proof {
                assert(range_seq(b, hi).take(hi + 1 - b as int) =~= range_seq(b, hi));
            }
        } else {
            proof {
                assert(expand_spec(rest) == prepend(seq![rest[0]], expand_spec(rest.skip(1))));
                lemma_skip_skip(raw@, i as int, 1);
                lemma_prepend_assoc(out0, seq![rest[0]], expand_spec(raw@.skip(i + 1)));
            }
            out.push(b);
            i = i + 1;
            proof {
                assert(out@ =~= out0 + seq![rest[0]]);
            }
        }
    }
    proof {
        assert(raw@.skip(n as int).len() == 0);
        assert(expand_spec(raw@.skip(n as int)) == Ok::<Seq<u8>, ParseError>(Seq::empty()));
        assert(out@ + Seq::<u8>::empty() =~= out@);
    }
    Ok(out)
}

} // verus!
