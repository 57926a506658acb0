//! The byte encoding of the policy model: a fixed little-endian layout whose
//! decoder is proved to invert the encoder, so tokens round-trip losslessly.
//!
//! Every number is eight little-endian bytes; strings are a character count
//! followed by one scalar value per character; lists are a count followed by
//! the elements.

use vstd::prelude::*;
use crate::datalog::{Term, TermV, Predicate, PredV, Constraint, ConstraintV, ConstraintCheck,
    CheckV, Rule, RuleV, lemma_deep_view_push};
use vstd::string::StrSliceExecFns;
use vstd::utf8::is_scalar;
pub use crate::wire::spec_enc_u64;
use crate::wire::lemma_enc_u64_len;

verus! {

broadcast use vstd::utf8::char_is_scalar, vstd::utf8::char_u32_cast, lemma_enc_u64_len;


// ---------------------------------------------------------------------------
// Numbers
// ---------------------------------------------------------------------------

/// The number eight little-endian bytes denote.
pub open spec fn spec_combine_u64(
    b0: u8,
    b1: u8,
    b2: u8,
    b3: u8,
    b4: u8,
    b5: u8,
    b6: u8,
    b7: u8,
) -> u64 {
    (b0 as u64) | ((b1 as u64) << 8) | ((b2 as u64) << 16) | ((b3 as u64) << 24) | ((b4 as u64)
        << 32) | ((b5 as u64) << 40) | ((b6 as u64) << 48) | ((b7 as u64) << 56)
}

/// Reads a number at `pos`.
pub open spec fn spec_dec_u64(s: Seq<u8>, pos: int) -> Option<(u64, int)> {
    if 0 <= pos && pos + 8 <= s.len() {
        Some(
            (
                spec_combine_u64(
                    s[pos],
                    s[pos + 1],
                    s[pos + 2],
                    s[pos + 3],
                    s[pos + 4],
                    s[pos + 5],
                    s[pos + 6],
                    s[pos + 7],
                ),
                pos + 8,
            ),
        )
    } else {
        None
    }
}

/// Decoding inverts encoding for numbers.
pub proof fn lemma_dec_enc_u64(s: Seq<u8>, pos: int, v: u64)
    requires
        0 <= pos,
        pos + 8 <= s.len(),
        s.subrange(pos, pos + 8) == spec_enc_u64(v),
    ensures
        spec_dec_u64(s, pos) == Some((v, pos + 8)),
{
    reveal(crate::wire::spec_enc_u64);
    assert forall|k: int| 0 <= k < 8 implies s[pos + k] == spec_enc_u64(v)[k] by {
        assert(s.subrange(pos, pos + 8)[k] == s[pos + k]);
    }
    assert((((v & 0xff) as u8) as u64) | (((((v >> 8) & 0xff) as u8) as u64) << 8) | (((((v >> 16)
        & 0xff) as u8) as u64) << 16) | (((((v >> 24) & 0xff) as u8) as u64) << 24) | (((((v >> 32)
        & 0xff) as u8) as u64) << 32) | (((((v >> 40) & 0xff) as u8) as u64) << 40) | (((((v >> 48)
        & 0xff) as u8) as u64) << 48) | (((((v >> 56) & 0xff) as u8) as u64) << 56) == v)
        by (bit_vector);
}

/// Appends the encoding of `v` to `out`.
pub fn enc_u64(out: &mut Vec<u8>, v: u64)
    ensures
        final(out)@ == old(out)@ + spec_enc_u64(v),
{
    out.push((v & 0xff) as u8);
    out.push(((v >> 8) & 0xff) as u8);
    out.push(((v >> 16) & 0xff) as u8);
    out.push(((v >> 24) & 0xff) as u8);
    out.push(((v >> 32) & 0xff) as u8);
    out.push(((v >> 40) & 0xff) as u8);
    out.push(((v >> 48) & 0xff) as u8);
    out.push(((v >> 56) & 0xff) as u8);
    proof {
        reveal(crate::wire::spec_enc_u64);
    }
    assert(out@ =~= old(out)@ + spec_enc_u64(v));
}

/// Reads a number at `pos`, exactly as the specification decoder does.
pub fn dec_u64(data: &Vec<u8>, pos: usize) -> (r: Option<(u64, usize)>)
    ensures
        match r {
            Some(vp) => spec_dec_u64(data@, pos as int) == Some((vp.0, vp.1 as int)),
            None => spec_dec_u64(data@, pos as int) is None,
        },
{
    if data.len() >= 8 && pos <= data.len() - 8 {
        let v = (data[pos] as u64) | ((data[pos + 1] as u64) << 8) | ((data[pos + 2] as u64) << 16)
            | ((data[pos + 3] as u64) << 24) | ((data[pos + 4] as u64) << 32) | ((data[pos
            + 5] as u64) << 40) | ((data[pos + 6] as u64) << 48) | ((data[pos + 7] as u64) << 56);
        Some((v, pos + 8))
    } else {
        None
    }
}

/// A signed value rides as its two's-complement bits.
pub proof fn lemma_i64_cast_roundtrip(i: i64)
    ensures
        (i as u64) as i64 == i,
{
    assert((i as u64) as i64 == i) by (bit_vector);
}

// ---------------------------------------------------------------------------
// Characters and strings
// ---------------------------------------------------------------------------

/// Whether a number is the scalar value of a character.
pub open spec fn valid_char_code(v: u64) -> bool {
    v <= u32::MAX && is_scalar(v as u32)
}

/// Relies on std's char::from_u32: `Some` exactly for Unicode scalar values,
/// and the character returned has the given scalar value.
#[verifier::external_body]
fn char_from_u32(v: u32) -> (r: Option<char>)
    ensures
        r matches Some(c) ==> is_scalar(v) && c as u32 == v,
        r is None ==> !is_scalar(v),
{
    char::from_u32(v)
}

/// The encoding of a character sequence, one number per character.
pub open spec fn spec_enc_chars(s: Seq<char>) -> Seq<u8>
    decreases s.len(),
{
    if s.len() == 0 {
        Seq::empty()
    } else {
        spec_enc_u64((s[0] as u32) as u64) + spec_enc_chars(s.drop_first())
    }
}

/// Character sequences occupy eight bytes per character.
pub proof fn lemma_enc_chars_len(s: Seq<char>)
    ensures
        spec_enc_chars(s).len() == 8 * s.len(),
    decreases s.len(),
{
    if s.len() > 0 {
        lemma_enc_chars_len(s.drop_first());
    }
}

/// Reads `n` characters at `pos`.
pub open spec fn spec_dec_chars(s: Seq<u8>, pos: int, n: nat) -> Option<(Seq<char>, int)>
    decreases n,
{
    if n == 0 {
        Some((Seq::empty(), pos))
    } else {
        match spec_dec_u64(s, pos) {
            None => None,
            Some((v, p)) => if valid_char_code(v) {
                match spec_dec_chars(s, p, (n - 1) as nat) {
                    None => None,
                    Some((cs, p2)) => Some((seq![(v as u32) as char] + cs, p2)),
                }
            } else {
                None
            },
        }
    }
}

/// Decoding inverts encoding for character sequences.
pub proof fn lemma_dec_enc_chars(s: Seq<u8>, pos: int, cs: Seq<char>)
    requires
        0 <= pos,
        pos + spec_enc_chars(cs).len() <= s.len(),
        s.subrange(pos, pos + spec_enc_chars(cs).len()) == spec_enc_chars(cs),
    ensures
        spec_dec_chars(s, pos, cs.len()) == Some((cs, pos + spec_enc_chars(cs).len())),
    decreases cs.len(),
{
    lemma_enc_chars_len(cs);
    if cs.len() > 0 {
        let c = cs[0];
        let v = (c as u32) as u64;
        let rest = cs.drop_first();
        lemma_enc_chars_len(rest);
        assert(s.subrange(pos, pos + 8) =~= spec_enc_u64(v)) by {
            assert forall|k: int| 0 <= k < 8 implies s.subrange(pos, pos + 8)[k] == spec_enc_u64(
                v,
            )[k] by {
                assert(s[pos + k] == s.subrange(
                    pos,
                    pos + spec_enc_chars(cs).len(),
                )[k]);
                assert(spec_enc_chars(cs)[k] == spec_enc_u64(v)[k]);
            }
        }
        lemma_dec_enc_u64(s, pos, v);
        assert(valid_char_code(v)) by {
            vstd::utf8::char_is_scalar(c);
            assert(v as u32 == c as u32);
        }
        assert(s.subrange(pos + 8, pos + 8 + spec_enc_chars(rest).len()) =~= spec_enc_chars(
            rest,
        )) by {
            assert forall|k: int| 0 <= k < spec_enc_chars(rest).len() implies s.subrange(
                pos + 8,
                pos + 8 + spec_enc_chars(rest).len(),
            )[k] == spec_enc_chars(rest)[k] by {
                assert(s[pos + 8 + k] == s.subrange(pos, pos + spec_enc_chars(cs).len())[8 + k]);
                assert(spec_enc_chars(cs)[8 + k] == spec_enc_chars(rest)[k]);
            }
        }
        lemma_dec_enc_chars(s, pos + 8, rest);
        assert((v as u32) as char == c) by {
            vstd::utf8::char_is_scalar(c);
            assert(v as u32 == c as u32);
            vstd::utf8::char_u32_cast(c, v as u32);
        }
        assert(seq![(v as u32) as char] + rest =~= cs);
    }
}

/// The encoding of a string: its character count, then its characters.
pub open spec fn spec_enc_str(s: Seq<char>) -> Seq<u8> {
    spec_enc_u64(s.len() as u64) + spec_enc_chars(s)
}

/// Reads a string at `pos`.
pub open spec fn spec_dec_str(s: Seq<u8>, pos: int) -> Option<(Seq<char>, int)> {
    match spec_dec_u64(s, pos) {
        None => None,
        Some((n, p)) => spec_dec_chars(s, p, n as nat),
    }
}

/// Decoding inverts encoding for strings whose length fits the count field.
pub proof fn lemma_dec_enc_str(s: Seq<u8>, pos: int, cs: Seq<char>)
    requires
        0 <= pos,
        cs.len() <= u64::MAX,
        pos + spec_enc_str(cs).len() <= s.len(),
        s.subrange(pos, pos + spec_enc_str(cs).len()) == spec_enc_str(cs),
    ensures
        spec_dec_str(s, pos) == Some((cs, pos + spec_enc_str(cs).len())),
{
    lemma_enc_chars_len(cs);
    assert(s.subrange(pos, pos + 8) =~= spec_enc_u64(cs.len() as u64)) by {
        assert forall|k: int| #![trigger s.subrange(pos, pos + 8)[k]] 0 <= k < 8 implies s.subrange(
            pos,
            pos + 8,
        )[k] == spec_enc_u64(cs.len() as u64)[k] by {
            assert(s[pos + k] == s.subrange(pos, pos + spec_enc_str(cs).len())[k]);
            assert(spec_enc_str(cs)[k] == spec_enc_u64(cs.len() as u64)[k]);
        }
    }
    lemma_dec_enc_u64(s, pos, cs.len() as u64);
    assert(s.subrange(pos + 8, pos + 8 + spec_enc_chars(cs).len()) =~= spec_enc_chars(cs)) by {
        assert forall|k: int| 0 <= k < spec_enc_chars(cs).len() implies s.subrange(
            pos + 8,
            pos + 8 + spec_enc_chars(cs).len(),
        )[k] == spec_enc_chars(cs)[k] by {
            assert(s[pos + 8 + k] == s.subrange(pos, pos + spec_enc_str(cs).len())[8 + k]);
            assert(spec_enc_str(cs)[8 + k] == spec_enc_chars(cs)[k]);
        }
    }
    lemma_dec_enc_chars(s, pos + 8, cs);
    assert((cs.len() as u64) as nat == cs.len());
}

/// Appends the encoding of a string to `out`.
pub fn enc_str(out: &mut Vec<u8>, s: &String)
    ensures
        final(out)@ == old(out)@ + spec_enc_str(s@),
{
    let n = s.as_str().unicode_len();
    enc_u64(out, n as u64);
    let ghost mid = out@;
    for i in 0..n
        invariant
            n == s@.len(),
            mid == old(out)@ + spec_enc_u64(n as u64),
            out@ == mid + spec_enc_chars(s@.take(i as int)),
    {
        let c = s.as_str().get_char(i);
        let v = (c as u32) as u64;
        enc_u64(out, v);
        proof {
            lemma_enc_chars_concat(s@.take(i as int), seq![c]);
            assert(s@.take(i as int) + seq![c] =~= s@.take(i as int + 1));
            assert(spec_enc_chars(seq![c]) =~= spec_enc_u64(v)) by {
                assert(seq![c][0] == c);
                assert(seq![c].drop_first() =~= Seq::<char>::empty());
                assert(spec_enc_chars(seq![c]) == spec_enc_u64((c as u32) as u64)
                    + spec_enc_chars(Seq::<char>::empty()));
                assert(spec_enc_u64(v) + Seq::<u8>::empty() =~= spec_enc_u64(v));
            }
        }
    }
    proof {
        assert(s@.take(n as int) =~= s@);
    }
}

/// Encoding distributes over concatenation of character sequences.
pub proof fn lemma_enc_chars_concat(a: Seq<char>, b: Seq<char>)
    ensures
        spec_enc_chars(a + b) == spec_enc_chars(a) + spec_enc_chars(b),
    decreases a.len(),
{
    if a.len() == 0 {
        assert(a + b =~= b);
        assert(spec_enc_chars(a) + spec_enc_chars(b) =~= spec_enc_chars(b));
    } else {
        assert((a + b).drop_first() =~= a.drop_first() + b);
        lemma_enc_chars_concat(a.drop_first(), b);
        assert((a + b)[0] == a[0]);
        assert(spec_enc_chars(a + b) =~= spec_enc_chars(a) + spec_enc_chars(b));
    }
}

/// Reads a string at `pos`, exactly as the specification decoder does.
pub fn dec_str(data: &Vec<u8>, pos: usize) -> (r: Option<(String, usize)>)
    ensures
        match r {
            Some(vp) => spec_dec_str(data@, pos as int) == Some((vp.0@, vp.1 as int)),
            None => spec_dec_str(data@, pos as int) is None,
        },
{
    let (n, mut p) = match dec_u64(data, pos) {
        None => {
            return None;
        },
        Some(vp) => vp,
    };
    let mut chars: Vec<char> = Vec::new();
    let mut remaining = n;
    while remaining > 0
        invariant
            remaining <= n,
            spec_dec_chars(data@, p as int, remaining as nat) matches Some(t) ==> (spec_dec_chars(
                data@,
                spec_dec_u64(data@, pos as int)->Some_0.1,
                spec_dec_u64(data@, pos as int)->Some_0.0 as nat,
            ) matches Some(whole) && whole.0 == chars@ + t.0 && whole.1 == t.1),
            spec_dec_chars(data@, p as int, remaining as nat) is None ==> spec_dec_chars(
                data@,
                spec_dec_u64(data@, pos as int)->Some_0.1,
                spec_dec_u64(data@, pos as int)->Some_0.0 as nat,
            ) is None,
            spec_dec_u64(data@, pos as int) == Some(
                (n, spec_dec_u64(data@, pos as int)->Some_0.1),
            ),
            p <= usize::MAX,
        decreases remaining,
    {
        let (v, p2) = match dec_u64(data, p) {
            None => {
                return None;
            },
            Some(vp) => vp,
        };
        if v > u32::MAX as u64 {
            return None;
        }
        let c = match char_from_u32(v as u32) {
            None => {
                assert(!valid_char_code(v));
                return None;
            },
            Some(c) => c,
        };
        proof {
            assert(valid_char_code(v));
            assert((v as u32) as char == c) by {
                vstd::utf8::char_u32_cast(c, v as u32);
            }
            let t = spec_dec_chars(data@, p as int, remaining as nat);
            assert(t matches Some(tt) ==> tt.0 == seq![c] + spec_dec_chars(
                data@,
                p2 as int,
                (remaining - 1) as nat,
            )->Some_0.0);
        }
        let ghost chars_pre = chars@;
        chars.push(c);
        proof {
            assert(chars@ =~= chars_pre.push(c));
            if spec_dec_chars(data@, p2 as int, (remaining - 1) as nat) is Some {
                let t0 = spec_dec_chars(data@, p2 as int, (remaining - 1) as nat)->Some_0.0;
                assert(chars_pre + (seq![c] + t0) =~= chars@ + t0);
            }
        }
        p = p2;
        remaining = remaining - 1;
    }
    proof {
        assert(spec_dec_chars(data@, p as int, 0) == Some((Seq::<char>::empty(), p as int)));
        assert(chars@ + Seq::<char>::empty() =~= chars@);
    }
    let s = chars_to_string(&chars);
    Some((s, p))
}

/// Relies on std's FromIterator for String over characters: collecting
/// characters yields the string of exactly those characters.
#[verifier::external_body]
pub(crate) fn chars_to_string(v: &Vec<char>) -> (r: String)
    ensures
        r@ == v@,
{
    v.iter().collect()
}

// ---------------------------------------------------------------------------
// Raw byte strings
// ---------------------------------------------------------------------------

/// The encoding of a raw byte string: its length, then its bytes.
pub open spec fn spec_enc_bytes(b: Seq<u8>) -> Seq<u8> {
    spec_enc_u64(b.len() as u64) + b
}

/// Reads a raw byte string at `pos`.
pub open spec fn spec_dec_bytes(s: Seq<u8>, pos: int) -> Option<(Seq<u8>, int)> {
    match spec_dec_u64(s, pos) {
        None => None,
        Some((n, p)) => if p + n <= s.len() {
            Some((s.subrange(p, p + n as int), p + n as int))
        } else {
            None
        },
    }
}

/// Decoding inverts encoding for byte strings whose length fits the count
/// field.
pub proof fn lemma_dec_enc_bytes(s: Seq<u8>, pos: int, b: Seq<u8>)
    requires
        0 <= pos,
        b.len() <= u64::MAX,
        pos + spec_enc_bytes(b).len() <= s.len(),
        s.subrange(pos, pos + spec_enc_bytes(b).len()) == spec_enc_bytes(b),
    ensures
        spec_dec_bytes(s, pos) == Some((b, pos + spec_enc_bytes(b).len())),
{
    assert(s.subrange(pos, pos + 8) =~= spec_enc_u64(b.len() as u64)) by {
        assert forall|k: int| #![trigger s.subrange(pos, pos + 8)[k]] 0 <= k < 8 implies s.subrange(
            pos,
            pos + 8,
        )[k] == spec_enc_u64(b.len() as u64)[k] by {
            assert(s[pos + k] == s.subrange(pos, pos + spec_enc_bytes(b).len())[k]);
            assert(spec_enc_bytes(b)[k] == spec_enc_u64(b.len() as u64)[k]);
        }
    }
    lemma_dec_enc_u64(s, pos, b.len() as u64);
    assert(s.subrange(pos + 8, pos + 8 + b.len()) =~= b) by {
        assert forall|k: int| 0 <= k < b.len() implies s.subrange(pos + 8, pos + 8 + b.len())[k]
            == b[k] by {
            assert(s[pos + 8 + k] == s.subrange(pos, pos + spec_enc_bytes(b).len())[8 + k]);
            assert(spec_enc_bytes(b)[8 + k] == b[k]);
        }
    }
}

/// Appends the encoding of a byte string to `out`.
pub fn enc_bytes(out: &mut Vec<u8>, b: &Vec<u8>)
    ensures
        final(out)@ == old(out)@ + spec_enc_bytes(b@),
{
    let n = b.len();
    enc_u64(out, n as u64);
    let ghost mid = out@;
    for i in 0..n
        invariant
            n == b@.len(),
            mid == old(out)@ + spec_enc_u64(n as u64),
            out@ == mid + b@.take(i as int),
    {
        out.push(b[i]);
        assert(out@ =~= mid + b@.take(i as int + 1));
    }
    proof {
        assert(b@.take(n as int) =~= b@);
    }
}

/// Reads a raw byte string at `pos`, exactly as the specification decoder
/// does.
#[verifier::loop_isolation(false)]
pub fn dec_bytes(data: &Vec<u8>, pos: usize) -> (r: Option<(Vec<u8>, usize)>)
    ensures
        match r {
            Some(vp) => spec_dec_bytes(data@, pos as int) == Some((vp.0@, vp.1 as int)),
            None => spec_dec_bytes(data@, pos as int) is None,
        },
{
    let (n, p) = match dec_u64(data, pos) {
        None => {
            return None;
        },
        Some(vp) => vp,
    };
    if n > (data.len() - p) as u64 {
        return None;
    }
    let n_us = n as usize;
    assert(p + n_us <= data@.len());
    let mut b: Vec<u8> = Vec::new();
    for i in 0..n_us
        invariant
            p + n_us <= data@.len(),
            b@ =~= data@.subrange(p as int, p as int + i as int),
    {
        b.push(data[p + i]);
        assert(b@ =~= data@.subrange(p as int, p as int + i as int + 1));
    }
    Some((b, p + n_us))
}

// ---------------------------------------------------------------------------
// Slicing helper
// ---------------------------------------------------------------------------

/// A part of an encoding located inside a larger buffer keeps its place.
pub proof fn lemma_slice_at(s: Seq<u8>, pos: int, whole: Seq<u8>, off: int, part: Seq<u8>)
    requires
        0 <= pos,
        pos + whole.len() <= s.len(),
        s.subrange(pos, pos + whole.len()) == whole,
        0 <= off,
        off + part.len() <= whole.len(),
        whole.subrange(off, off + part.len()) == part,
    ensures
        s.subrange(pos + off, pos + off + part.len()) == part,
{
    assert forall|k: int|
        #![trigger s.subrange(pos + off, pos + off + part.len())[k]]
        0 <= k < part.len() implies s.subrange(pos + off, pos + off + part.len())[k] == part[k] by {
        assert(s[pos + off + k] == s.subrange(pos, pos + whole.len())[off + k]);
        assert(whole[off + k] == whole.subrange(off, off + part.len())[k]);
    }
    assert(s.subrange(pos + off, pos + off + part.len()) =~= part);
}

// ---------------------------------------------------------------------------
// Size bounds the count fields impose
// ---------------------------------------------------------------------------

/// A term fits the encoding's count fields.
pub open spec fn termv_wf(t: TermV) -> bool {
    t matches TermV::Str(s) ==> s.len() <= u64::MAX
}

/// A predicate fits the encoding's count fields.
pub open spec fn predv_wf(p: PredV) -> bool {
    &&& p.args.len() <= u64::MAX
    &&& forall|i: int| 0 <= i < p.args.len() ==> termv_wf(#[trigger] p.args[i])
}

/// A constraint check fits the encoding's count fields.
pub open spec fn checkv_wf(c: CheckV) -> bool {
    match c {
        CheckV::IntIn(s) => s.len() <= u64::MAX,
        CheckV::IntNotIn(s) => s.len() <= u64::MAX,
        CheckV::StrPrefix(s) => s.len() <= u64::MAX,
        CheckV::StrSuffix(s) => s.len() <= u64::MAX,
        CheckV::StrEqual(s) => s.len() <= u64::MAX,
        CheckV::StrIn(s) => s.len() <= u64::MAX && forall|i: int|
            0 <= i < s.len() ==> (#[trigger] s[i]).len() <= u64::MAX,
        CheckV::StrNotIn(s) => s.len() <= u64::MAX && forall|i: int|
            0 <= i < s.len() ==> (#[trigger] s[i]).len() <= u64::MAX,
        CheckV::SymIn(s) => s.len() <= u64::MAX,
        CheckV::SymNotIn(s) => s.len() <= u64::MAX,
        _ => true,
    }
}

/// A rule fits the encoding's count fields.
pub open spec fn rulev_wf(r: RuleV) -> bool {
    &&& predv_wf(r.head)
    &&& r.body.len() <= u64::MAX
    &&& forall|i: int| 0 <= i < r.body.len() ==> predv_wf(#[trigger] r.body[i])
    &&& r.constraints.len() <= u64::MAX
    &&& forall|i: int| 0 <= i < r.constraints.len() ==> checkv_wf((#[trigger] r.constraints[i]).check)
}

// ---------------------------------------------------------------------------
// Terms
// ---------------------------------------------------------------------------

/// The encoding of one term: a tag byte, then the payload.
pub open spec fn spec_enc_term(t: TermV) -> Seq<u8> {
    match t {
        TermV::Integer(i) => seq![0u8] + spec_enc_u64(i as u64),
        TermV::Str(s) => seq![1u8] + spec_enc_str(s),
        TermV::Symbol(y) => seq![2u8] + spec_enc_u64(y),
        TermV::Date(d) => seq![3u8] + spec_enc_u64(d),
        TermV::Variable(x) => seq![4u8] + spec_enc_u64(x as u64),
    }
}

/// Reads one term at `pos`.
pub open spec fn spec_dec_term(s: Seq<u8>, pos: int) -> Option<(TermV, int)> {
    if 0 <= pos && pos < s.len() {
        let tag = s[pos];
        if tag == 0u8 {
            match spec_dec_u64(s, pos + 1) {
                Some((v, p)) => Some((TermV::Integer(v as i64), p)),
                None => None,
            }
        } else if tag == 1u8 {
            match spec_dec_str(s, pos + 1) {
                Some((cs, p)) => Some((TermV::Str(cs), p)),
                None => None,
            }
        } else if tag == 2u8 {
            match spec_dec_u64(s, pos + 1) {
                Some((v, p)) => Some((TermV::Symbol(v), p)),
                None => None,
            }
        } else if tag == 3u8 {
            match spec_dec_u64(s, pos + 1) {
                Some((v, p)) => Some((TermV::Date(v), p)),
                None => None,
            }
        } else if tag == 4u8 {
            match spec_dec_u64(s, pos + 1) {
                Some((v, p)) => if v <= u32::MAX {
                    Some((TermV::Variable(v as u32), p))
                } else {
                    None
                },
                None => None,
            }
        } else {
            None
        }
    } else {
        None
    }
}

/// Decoding inverts encoding for terms.
pub proof fn lemma_dec_enc_term(s: Seq<u8>, pos: int, t: TermV)
    requires
        termv_wf(t),
        0 <= pos,
        pos + spec_enc_term(t).len() <= s.len(),
        s.subrange(pos, pos + spec_enc_term(t).len()) == spec_enc_term(t),
    ensures
        spec_dec_term(s, pos) == Some((t, pos + spec_enc_term(t).len())),
{
    let whole = spec_enc_term(t);
    assert(s[pos] == whole[0]) by {
        assert(s.subrange(pos, pos + whole.len())[0] == s[pos]);
    }
    match t {
        TermV::Integer(i) => {
            assert(whole.subrange(1, 9) =~= spec_enc_u64(i as u64));
            lemma_slice_at(s, pos, whole, 1, spec_enc_u64(i as u64));
            lemma_dec_enc_u64(s, pos + 1, i as u64);
            lemma_i64_cast_roundtrip(i);
        },
        TermV::Str(cs) => {
            assert(whole.subrange(1, 1 + spec_enc_str(cs).len() as int) =~= spec_enc_str(cs));
            lemma_slice_at(s, pos, whole, 1, spec_enc_str(cs));
            lemma_dec_enc_str(s, pos + 1, cs);
        },
        TermV::Symbol(y) => {
            assert(whole.subrange(1, 9) =~= spec_enc_u64(y));
            lemma_slice_at(s, pos, whole, 1, spec_enc_u64(y));
            lemma_dec_enc_u64(s, pos + 1, y);
        },
        TermV::Date(d) => {
            assert(whole.subrange(1, 9) =~= spec_enc_u64(d));
            lemma_slice_at(s, pos, whole, 1, spec_enc_u64(d));
            lemma_dec_enc_u64(s, pos + 1, d);
        },
        TermV::Variable(x) => {
            assert(whole.subrange(1, 9) =~= spec_enc_u64(x as u64));
            lemma_slice_at(s, pos, whole, 1, spec_enc_u64(x as u64));
            lemma_dec_enc_u64(s, pos + 1, x as u64);
        },
    }
}

/// Appends the encoding of a term to `out`.
pub fn enc_term(out: &mut Vec<u8>, t: &Term)
    ensures
        final(out)@ == old(out)@ + spec_enc_term(t@),
{
    match t {
        Term::Integer(i) => {
            out.push(0u8);
            enc_u64(out, *i as u64);
        },
        Term::Str(st) => {
            out.push(1u8);
            enc_str(out, st);
        },
        Term::Symbol(y) => {
            out.push(2u8);
            enc_u64(out, *y);
        },
        Term::Date(d) => {
            out.push(3u8);
            enc_u64(out, *d);
        },
        Term::Variable(x) => {
            out.push(4u8);
            enc_u64(out, *x as u64);
        },
    }
    assert(out@ =~= old(out)@ + spec_enc_term(t@));
}

/// Reads one term at `pos`, exactly as the specification decoder does.
pub fn dec_term(data: &Vec<u8>, pos: usize) -> (r: Option<(Term, usize)>)
    ensures
        match r {
            Some(vp) => spec_dec_term(data@, pos as int) == Some((vp.0@, vp.1 as int)),
            None => spec_dec_term(data@, pos as int) is None,
        },
{
    if pos >= data.len() {
        return None;
    }
    let tag = data[pos];
    if tag == 0u8 {
        match dec_u64(data, pos + 1) {
            Some((v, p)) => Some((Term::Integer(v as i64), p)),
            None => None,
        }
    } else if tag == 1u8 {
        match dec_str(data, pos + 1) {
            Some((st, p)) => Some((Term::Str(st), p)),
            None => None,
        }
    } else if tag == 2u8 {
        match dec_u64(data, pos + 1) {
            Some((v, p)) => Some((Term::Symbol(v), p)),
            None => None,
        }
    } else if tag == 3u8 {
        match dec_u64(data, pos + 1) {
            Some((v, p)) => Some((Term::Date(v), p)),
            None => None,
        }
    } else if tag == 4u8 {
        match dec_u64(data, pos + 1) {
            Some((v, p)) => if v <= u32::MAX as u64 {
                Some((Term::Variable(v as u32), p))
            } else {
                None
            },
            None => None,
        }
    } else {
        None
    }
}

// ---------------------------------------------------------------------------
// Term lists and predicates
// ---------------------------------------------------------------------------

/// The encoding of a term list, one term after another.
pub open spec fn spec_enc_terms(ts: Seq<TermV>) -> Seq<u8>
    decreases ts.len(),
{
    if ts.len() == 0 {
        Seq::empty()
    } else {
        spec_enc_term(ts[0]) + spec_enc_terms(ts.drop_first())
    }
}

/// Encoding distributes over concatenation of term lists.
pub proof fn lemma_enc_terms_concat(a: Seq<TermV>, b: Seq<TermV>)
    ensures
        spec_enc_terms(a + b) == spec_enc_terms(a) + spec_enc_terms(b),
    decreases a.len(),
{
    if a.len() == 0 {
        assert(a + b =~= b);
        assert(spec_enc_terms(a) + spec_enc_terms(b) =~= spec_enc_terms(b));
    } else {
        assert((a + b).drop_first() =~= a.drop_first() + b);
        lemma_enc_terms_concat(a.drop_first(), b);
        assert((a + b)[0] == a[0]);
        assert(spec_enc_terms(a + b) =~= spec_enc_terms(a) + spec_enc_terms(b));
    }
}

/// Reads `n` terms at `pos`.
pub open spec fn spec_dec_terms(s: Seq<u8>, pos: int, n: nat) -> Option<(Seq<TermV>, int)>
    decreases n,
{
    if n == 0 {
        Some((Seq::empty(), pos))
    } else {
        match spec_dec_term(s, pos) {
            None => None,
            Some((t, p)) => match spec_dec_terms(s, p, (n - 1) as nat) {
                None => None,
                Some((ts, p2)) => Some((seq![t] + ts, p2)),
            },
        }
    }
}

/// Decoding inverts encoding for term lists.
pub proof fn lemma_dec_enc_terms(s: Seq<u8>, pos: int, ts: Seq<TermV>)
    requires
        forall|i: int| 0 <= i < ts.len() ==> termv_wf(#[trigger] ts[i]),
        0 <= pos,
        pos + spec_enc_terms(ts).len() <= s.len(),
        s.subrange(pos, pos + spec_enc_terms(ts).len()) == spec_enc_terms(ts),
    ensures
        spec_dec_terms(s, pos, ts.len()) == Some((ts, pos + spec_enc_terms(ts).len())),
    decreases ts.len(),
{
    if ts.len() > 0 {
        let whole = spec_enc_terms(ts);
        let first = spec_enc_term(ts[0]);
        let rest = spec_enc_terms(ts.drop_first());
        assert(whole.subrange(0, first.len() as int) =~= first);
        lemma_slice_at(s, pos, whole, 0, first);
        lemma_dec_enc_term(s, pos, ts[0]);
        assert(whole.subrange(first.len() as int, first.len() as int + rest.len() as int) =~= rest);
        lemma_slice_at(s, pos, whole, first.len() as int, rest);
        lemma_dec_enc_terms(s, pos + first.len(), ts.drop_first());
        assert(seq![ts[0]] + ts.drop_first() =~= ts);
    }
}

/// Appends the encoding of a term list to `out`.
pub fn enc_terms(out: &mut Vec<u8>, ts: &Vec<Term>)
    ensures
        final(out)@ == old(out)@ + spec_enc_terms(ts.deep_view()),
{
    let n = ts.len();
    for i in 0..n
        invariant
            n == ts@.len(),
            out@ == old(out)@ + spec_enc_terms(ts.deep_view().take(i as int)),
    {
        enc_term(out, &ts[i]);
        proof {
            lemma_enc_terms_concat(ts.deep_view().take(i as int), seq![ts.deep_view()[i as int]]);
            assert(ts.deep_view().take(i as int) + seq![ts.deep_view()[i as int]]
                =~= ts.deep_view().take(i as int + 1));
            assert(spec_enc_terms(seq![ts.deep_view()[i as int]]) =~= spec_enc_term(
                ts.deep_view()[i as int],
            )) by {
                let single = seq![ts.deep_view()[i as int]];
                assert(single[0] == ts.deep_view()[i as int]);
                assert(single.drop_first() =~= Seq::<TermV>::empty());
                assert(spec_enc_terms(single) == spec_enc_term(single[0]) + spec_enc_terms(
                    Seq::<TermV>::empty(),
                ));
                assert(spec_enc_term(ts.deep_view()[i as int]) + Seq::<u8>::empty()
                    =~= spec_enc_term(ts.deep_view()[i as int]));
            }
        }
    }
    proof {
        assert(ts.deep_view().take(n as int) =~= ts.deep_view());
    }
}

/// Reads `n` terms at `pos`, exactly as the specification decoder does.
pub fn dec_terms(data: &Vec<u8>, pos: usize, n: u64) -> (r: Option<(Vec<Term>, usize)>)
    ensures
        match r {
            Some(vp) => spec_dec_terms(data@, pos as int, n as nat) == Some(
                (vp.0.deep_view(), vp.1 as int),
            ),
            None => spec_dec_terms(data@, pos as int, n as nat) is None,
        },
    decreases n,
{
    if n == 0 {
        let empty: Vec<Term> = Vec::new();
        assert(empty.deep_view() =~= Seq::<TermV>::empty());
        return Some((empty, pos));
    }
    let (t, p) = match dec_term(data, pos) {
        None => {
            return None;
        },
        Some(vp) => vp,
    };
    let (mut rest, p2) = match dec_terms(data, p, n - 1) {
        None => {
            return None;
        },
        Some(vp) => vp,
    };
    let ghost rest_pre = rest;
    let ghost tg = t;
    rest.insert(0, t);
    proof {
        assert(rest@ == rest_pre@.insert(0, tg));
        assert forall|k: int| 0 <= k < rest@.len() implies rest.deep_view()[k] == (seq![tg@]
            + rest_pre.deep_view())[k] by {
            if k == 0 {
                assert(rest@[0] == tg);
            } else {
                assert(rest@[k] == rest_pre@[k - 1]);
            }
        }
        assert(rest.deep_view() =~= seq![tg@] + rest_pre.deep_view());
    }
    Some((rest, p2))
}

/// The encoding of a predicate: name, argument count, arguments.
pub open spec fn spec_enc_pred(p: PredV) -> Seq<u8> {
    spec_enc_u64(p.name) + spec_enc_u64(p.args.len() as u64) + spec_enc_terms(p.args)
}

/// Reads a predicate at `pos`.
pub open spec fn spec_dec_pred(s: Seq<u8>, pos: int) -> Option<(PredV, int)> {
    match spec_dec_u64(s, pos) {
        None => None,
        Some((name, p)) => match spec_dec_u64(s, p) {
            None => None,
            Some((n, p2)) => match spec_dec_terms(s, p2, n as nat) {
                None => None,
                Some((ts, p3)) => Some((PredV { name, args: ts }, p3)),
            },
        },
    }
}

/// Decoding inverts encoding for predicates.
pub proof fn lemma_dec_enc_pred(s: Seq<u8>, pos: int, p: PredV)
    requires
        predv_wf(p),
        0 <= pos,
        pos + spec_enc_pred(p).len() <= s.len(),
        s.subrange(pos, pos + spec_enc_pred(p).len()) == spec_enc_pred(p),
    ensures
        spec_dec_pred(s, pos) == Some((p, pos + spec_enc_pred(p).len())),
{
    let whole = spec_enc_pred(p);
    let terms = spec_enc_terms(p.args);
    assert(whole.subrange(0, 8) =~= spec_enc_u64(p.name));
    lemma_slice_at(s, pos, whole, 0, spec_enc_u64(p.name));
    lemma_dec_enc_u64(s, pos, p.name);
    assert(whole.subrange(8, 16) =~= spec_enc_u64(p.args.len() as u64));
    lemma_slice_at(s, pos, whole, 8, spec_enc_u64(p.args.len() as u64));
    lemma_dec_enc_u64(s, pos + 8, p.args.len() as u64);
    assert(whole.subrange(16, 16 + terms.len() as int) =~= terms);
    lemma_slice_at(s, pos, whole, 16, terms);
    lemma_dec_enc_terms(s, pos + 16, p.args);
    assert((p.args.len() as u64) as nat == p.args.len());
    assert(PredV { name: p.name, args: p.args } =~= p);
}

/// Appends the encoding of a predicate to `out`.
pub fn enc_pred(out: &mut Vec<u8>, p: &Predicate)
    ensures
        final(out)@ == old(out)@ + spec_enc_pred(p@),
{
    enc_u64(out, p.name);
    enc_u64(out, p.args.len() as u64);
    enc_terms(out, &p.args);
    assert(out@ =~= old(out)@ + spec_enc_pred(p@));
}

/// Reads a predicate at `pos`, exactly as the specification decoder does.
pub fn dec_pred(data: &Vec<u8>, pos: usize) -> (r: Option<(Predicate, usize)>)
    ensures
        match r {
            Some(vp) => spec_dec_pred(data@, pos as int) == Some((vp.0@, vp.1 as int)),
            None => spec_dec_pred(data@, pos as int) is None,
        },
{
    let (name, p) = match dec_u64(data, pos) {
        None => {
            return None;
        },
        Some(vp) => vp,
    };
    let (n, p2) = match dec_u64(data, p) {
        None => {
            return None;
        },
        Some(vp) => vp,
    };
    let (args, p3) = match dec_terms(data, p2, n) {
        None => {
            return None;
        },
        Some(vp) => vp,
    };
    let r = Predicate { name, args };
    assert(r@ =~= spec_dec_pred(data@, pos as int)->Some_0.0);
    Some((r, p3))
}


// ---------------------------------------------------------------------------
// Homogeneous lists
// ---------------------------------------------------------------------------

/// The encoding of a signed number: its two's-complement bits.
pub open spec fn spec_enc_i64(v: i64) -> Seq<u8> {
    spec_enc_u64(v as u64)
}

/// Reads a signed number at `pos`.
pub open spec fn spec_dec_i64(s: Seq<u8>, pos: int) -> Option<(i64, int)> {
    match spec_dec_u64(s, pos) {
        None => None,
        Some((v, p)) => Some((v as i64, p)),
    }
}

/// Decoding inverts encoding for signed numbers.
pub proof fn lemma_dec_enc_i64(s: Seq<u8>, pos: int, v: i64)
    requires
        0 <= pos,
        pos + spec_enc_i64(v).len() <= s.len(),
        s.subrange(pos, pos + spec_enc_i64(v).len()) == spec_enc_i64(v),
    ensures
        spec_dec_i64(s, pos) == Some((v, pos + spec_enc_i64(v).len())),
{
    lemma_dec_enc_u64(s, pos, v as u64);
    lemma_i64_cast_roundtrip(v);
}

/// Appends the encoding of a signed number to `out`.
pub fn enc_i64(out: &mut Vec<u8>, v: &i64)
    ensures
        final(out)@ == old(out)@ + spec_enc_i64(*v),
{
    enc_u64(out, *v as u64);
}

/// Reads a signed number at `pos`, exactly as the specification decoder does.
pub fn dec_i64(data: &Vec<u8>, pos: usize) -> (r: Option<(i64, usize)>)
    ensures
        match r {
            Some(vp) => spec_dec_i64(data@, pos as int) == Some((vp.0, vp.1 as int)),
            None => spec_dec_i64(data@, pos as int) is None,
        },
{
    match dec_u64(data, pos) {
        None => None,
        Some((v, p)) => Some((v as i64, p)),
    }
}

/// The encoding of a symbol-index list, one element after another.
pub open spec fn spec_enc_u64s(ts: Seq<u64>) -> Seq<u8>
    decreases ts.len(),
{
    if ts.len() == 0 {
        Seq::empty()
    } else {
        spec_enc_u64(ts[0]) + spec_enc_u64s(ts.drop_first())
    }
}

/// Encoding distributes over concatenation of symbol-index lists.
pub proof fn lemma_enc_u64s_concat(a: Seq<u64>, b: Seq<u64>)
    ensures
        spec_enc_u64s(a + b) == spec_enc_u64s(a) + spec_enc_u64s(b),
    decreases a.len(),
{
    if a.len() == 0 {
        assert(a + b =~= b);
        assert(spec_enc_u64s(a) + spec_enc_u64s(b) =~= spec_enc_u64s(b));
    } else {
        assert((a + b).drop_first() =~= a.drop_first() + b);
        lemma_enc_u64s_concat(a.drop_first(), b);
        assert((a + b)[0] == a[0]);
        assert(spec_enc_u64s(a + b) =~= spec_enc_u64s(a) + spec_enc_u64s(b));
    }
}

/// Reads `n` elements at `pos`.
pub open spec fn spec_dec_u64s(s: Seq<u8>, pos: int, n: nat) -> Option<(Seq<u64>, int)>
    decreases n,
{
    if n == 0 {
        Some((Seq::empty(), pos))
    } else {
        match spec_dec_u64(s, pos) {
            None => None,
            Some((t, p)) => match spec_dec_u64s(s, p, (n - 1) as nat) {
                None => None,
                Some((ts, p2)) => Some((seq![t] + ts, p2)),
            },
        }
    }
}

/// Decoding inverts encoding for symbol-index lists.
pub proof fn lemma_dec_enc_u64s(s: Seq<u8>, pos: int, ts: Seq<u64>)
    requires
        0 <= pos,
        pos + spec_enc_u64s(ts).len() <= s.len(),
        s.subrange(pos, pos + spec_enc_u64s(ts).len()) == spec_enc_u64s(ts),
    ensures
        spec_dec_u64s(s, pos, ts.len()) == Some((ts, pos + spec_enc_u64s(ts).len())),
    decreases ts.len(),
{
    if ts.len() > 0 {
        let whole = spec_enc_u64s(ts);
        let first = spec_enc_u64(ts[0]);
        let rest = spec_enc_u64s(ts.drop_first());
        assert(whole.subrange(0, first.len() as int) =~= first);
        lemma_slice_at(s, pos, whole, 0, first);
        lemma_dec_enc_u64(s, pos, ts[0]);
        assert(whole.subrange(first.len() as int, first.len() as int + rest.len() as int) =~= rest);
        lemma_slice_at(s, pos, whole, first.len() as int, rest);
        lemma_dec_enc_u64s(s, pos + first.len(), ts.drop_first());
        assert(seq![ts[0]] + ts.drop_first() =~= ts);
    }
}

/// Appends the encoding of a symbol-index list to `out`.
pub fn enc_u64s(out: &mut Vec<u8>, ts: &Vec<u64>)
    ensures
        final(out)@ == old(out)@ + spec_enc_u64s(ts.deep_view()),
{
    let n = ts.len();
    for i in 0..n
        invariant
            n == ts@.len(),
            out@ == old(out)@ + spec_enc_u64s(ts.deep_view().take(i as int)),
    {
        enc_u64(out, ts[i]);
        proof {
            lemma_enc_u64s_concat(ts.deep_view().take(i as int), seq![ts.deep_view()[i as int]]);
            assert(ts.deep_view().take(i as int) + seq![ts.deep_view()[i as int]]
                =~= ts.deep_view().take(i as int + 1));
            assert(spec_enc_u64s(seq![ts.deep_view()[i as int]]) =~= spec_enc_u64(
                ts.deep_view()[i as int],
            )) by {
                let single = seq![ts.deep_view()[i as int]];
                assert(single[0] == ts.deep_view()[i as int]);
                assert(single.drop_first() =~= Seq::<u64>::empty());
                assert(spec_enc_u64s(single) == spec_enc_u64(single[0]) + spec_enc_u64s(
                    Seq::<u64>::empty(),
                ));
                assert(spec_enc_u64(ts.deep_view()[i as int]) + Seq::<u8>::empty()
                    =~= spec_enc_u64(ts.deep_view()[i as int]));
            }
        }
    }
    proof {
        assert(ts.deep_view().take(n as int) =~= ts.deep_view());
    }
}

/// Reads `n` elements at `pos`, exactly as the specification decoder does.
pub fn dec_u64s(data: &Vec<u8>, pos: usize, n: u64) -> (r: Option<(Vec<u64>, usize)>)
    ensures
        match r {
            Some(vp) => spec_dec_u64s(data@, pos as int, n as nat) == Some(
                (vp.0.deep_view(), vp.1 as int),
            ),
            None => spec_dec_u64s(data@, pos as int, n as nat) is None,
        },
    decreases n,
{
    if n == 0 {
        let empty: Vec<u64> = Vec::new();
        assert(empty.deep_view() =~= Seq::<u64>::empty());
        return Some((empty, pos));
    }
    let (t, p) = match dec_u64(data, pos) {
        None => {
            return None;
        },
        Some(vp) => vp,
    };
    let (mut rest, p2) = match dec_u64s(data, p, n - 1) {
        None => {
            return None;
        },
        Some(vp) => vp,
    };
    let ghost rest_pre = rest;
    let ghost tg = t;
    rest.insert(0, t);
    proof {
        assert(rest@ == rest_pre@.insert(0, tg));
        assert forall|k: int| 0 <= k < rest@.len() implies rest.deep_view()[k] == (seq![
            tg.deep_view(),
        ] + rest_pre.deep_view())[k] by {
            if k == 0 {
                assert(rest@[0] == tg);
            } else {
                assert(rest@[k] == rest_pre@[k - 1]);
            }
        }
        assert(rest.deep_view() =~= seq![tg.deep_view()] + rest_pre.deep_view());
    }
    Some((rest, p2))
}

/// The encoding of a signed-number list, one element after another.
pub open spec fn spec_enc_i64s(ts: Seq<i64>) -> Seq<u8>
    decreases ts.len(),
{
    if ts.len() == 0 {
        Seq::empty()
    } else {
        spec_enc_i64(ts[0]) + spec_enc_i64s(ts.drop_first())
    }
}

/// Encoding distributes over concatenation of signed-number lists.
pub proof fn lemma_enc_i64s_concat(a: Seq<i64>, b: Seq<i64>)
    ensures
        spec_enc_i64s(a + b) == spec_enc_i64s(a) + spec_enc_i64s(b),
    decreases a.len(),
{
    if a.len() == 0 {
        assert(a + b =~= b);
        assert(spec_enc_i64s(a) + spec_enc_i64s(b) =~= spec_enc_i64s(b));
    } else {
        assert((a + b).drop_first() =~= a.drop_first() + b);
        lemma_enc_i64s_concat(a.drop_first(), b);
        assert((a + b)[0] == a[0]);
        assert(spec_enc_i64s(a + b) =~= spec_enc_i64s(a) + spec_enc_i64s(b));
    }
}

/// Reads `n` elements at `pos`.
pub open spec fn spec_dec_i64s(s: Seq<u8>, pos: int, n: nat) -> Option<(Seq<i64>, int)>
    decreases n,
{
    if n == 0 {
        Some((Seq::empty(), pos))
    } else {
        match spec_dec_i64(s, pos) {
            None => None,
            Some((t, p)) => match spec_dec_i64s(s, p, (n - 1) as nat) {
                None => None,
                Some((ts, p2)) => Some((seq![t] + ts, p2)),
            },
        }
    }
}

/// Decoding inverts encoding for signed-number lists.
pub proof fn lemma_dec_enc_i64s(s: Seq<u8>, pos: int, ts: Seq<i64>)
    requires
        0 <= pos,
        pos + spec_enc_i64s(ts).len() <= s.len(),
        s.subrange(pos, pos + spec_enc_i64s(ts).len()) == spec_enc_i64s(ts),
    ensures
        spec_dec_i64s(s, pos, ts.len()) == Some((ts, pos + spec_enc_i64s(ts).len())),
    decreases ts.len(),
{
    if ts.len() > 0 {
        let whole = spec_enc_i64s(ts);
        let first = spec_enc_i64(ts[0]);
        let rest = spec_enc_i64s(ts.drop_first());
        assert(whole.subrange(0, first.len() as int) =~= first);
        lemma_slice_at(s, pos, whole, 0, first);
        lemma_dec_enc_i64(s, pos, ts[0]);
        assert(whole.subrange(first.len() as int, first.len() as int + rest.len() as int) =~= rest);
        lemma_slice_at(s, pos, whole, first.len() as int, rest);
        lemma_dec_enc_i64s(s, pos + first.len(), ts.drop_first());
        assert(seq![ts[0]] + ts.drop_first() =~= ts);
    }
}

/// Appends the encoding of a signed-number list to `out`.
pub fn enc_i64s(out: &mut Vec<u8>, ts: &Vec<i64>)
    ensures
        final(out)@ == old(out)@ + spec_enc_i64s(ts.deep_view()),
{
    let n = ts.len();
    for i in 0..n
        invariant
            n == ts@.len(),
            out@ == old(out)@ + spec_enc_i64s(ts.deep_view().take(i as int)),
    {
        enc_i64(out, &ts[i]);
        proof {
            lemma_enc_i64s_concat(ts.deep_view().take(i as int), seq![ts.deep_view()[i as int]]);
            assert(ts.deep_view().take(i as int) + seq![ts.deep_view()[i as int]]
                =~= ts.deep_view().take(i as int + 1));
            assert(spec_enc_i64s(seq![ts.deep_view()[i as int]]) =~= spec_enc_i64(
                ts.deep_view()[i as int],
            )) by {
                let single = seq![ts.deep_view()[i as int]];
                assert(single[0] == ts.deep_view()[i as int]);
                assert(single.drop_first() =~= Seq::<i64>::empty());
                assert(spec_enc_i64s(single) == spec_enc_i64(single[0]) + spec_enc_i64s(
                    Seq::<i64>::empty(),
                ));
                assert(spec_enc_i64(ts.deep_view()[i as int]) + Seq::<u8>::empty()
                    =~= spec_enc_i64(ts.deep_view()[i as int]));
            }
        }
    }
    proof {
        assert(ts.deep_view().take(n as int) =~= ts.deep_view());
    }
}

/// Reads `n` elements at `pos`, exactly as the specification decoder does.
pub fn dec_i64s(data: &Vec<u8>, pos: usize, n: u64) -> (r: Option<(Vec<i64>, usize)>)
    ensures
        match r {
            Some(vp) => spec_dec_i64s(data@, pos as int, n as nat) == Some(
                (vp.0.deep_view(), vp.1 as int),
            ),
            None => spec_dec_i64s(data@, pos as int, n as nat) is None,
        },
    decreases n,
{
    if n == 0 {
        let empty: Vec<i64> = Vec::new();
        assert(empty.deep_view() =~= Seq::<i64>::empty());
        return Some((empty, pos));
    }
    let (t, p) = match dec_i64(data, pos) {
        None => {
            return None;
        },
        Some(vp) => vp,
    };
    let (mut rest, p2) = match dec_i64s(data, p, n - 1) {
        None => {
            return None;
        },
        Some(vp) => vp,
    };
    let ghost rest_pre = rest;
    let ghost tg = t;
    rest.insert(0, t);
    proof {
        assert(rest@ == rest_pre@.insert(0, tg));
        assert forall|k: int| 0 <= k < rest@.len() implies rest.deep_view()[k] == (seq![
            tg.deep_view(),
        ] + rest_pre.deep_view())[k] by {
            if k == 0 {
                assert(rest@[0] == tg);
            } else {
                assert(rest@[k] == rest_pre@[k - 1]);
            }
        }
        assert(rest.deep_view() =~= seq![tg.deep_view()] + rest_pre.deep_view());
    }
    Some((rest, p2))
}

/// The encoding of a string list, one element after another.
pub open spec fn spec_enc_strs(ts: Seq<Seq<char>>) -> Seq<u8>
    decreases ts.len(),
{
    if ts.len() == 0 {
        Seq::empty()
    } else {
        spec_enc_str(ts[0]) + spec_enc_strs(ts.drop_first())
    }
}

/// Encoding distributes over concatenation of string lists.
pub proof fn lemma_enc_strs_concat(a: Seq<Seq<char>>, b: Seq<Seq<char>>)
    ensures
        spec_enc_strs(a + b) == spec_enc_strs(a) + spec_enc_strs(b),
    decreases a.len(),
{
    if a.len() == 0 {
        assert(a + b =~= b);
        assert(spec_enc_strs(a) + spec_enc_strs(b) =~= spec_enc_strs(b));
    } else {
        assert((a + b).drop_first() =~= a.drop_first() + b);
        lemma_enc_strs_concat(a.drop_first(), b);
        assert((a + b)[0] == a[0]);
        assert(spec_enc_strs(a + b) =~= spec_enc_strs(a) + spec_enc_strs(b));
    }
}

/// Reads `n` elements at `pos`.
pub open spec fn spec_dec_strs(s: Seq<u8>, pos: int, n: nat) -> Option<(Seq<Seq<char>>, int)>
    decreases n,
{
    if n == 0 {
        Some((Seq::empty(), pos))
    } else {
        match spec_dec_str(s, pos) {
            None => None,
            Some((t, p)) => match spec_dec_strs(s, p, (n - 1) as nat) {
                None => None,
                Some((ts, p2)) => Some((seq![t] + ts, p2)),
            },
        }
    }
}

/// Decoding inverts encoding for string lists.
pub proof fn lemma_dec_enc_strs(s: Seq<u8>, pos: int, ts: Seq<Seq<char>>)
    requires
        forall|i: int| 0 <= i < ts.len() ==> (#[trigger] ts[i]).len() <= u64::MAX,
        0 <= pos,
        pos + spec_enc_strs(ts).len() <= s.len(),
        s.subrange(pos, pos + spec_enc_strs(ts).len()) == spec_enc_strs(ts),
    ensures
        spec_dec_strs(s, pos, ts.len()) == Some((ts, pos + spec_enc_strs(ts).len())),
    decreases ts.len(),
{
    if ts.len() > 0 {
        let whole = spec_enc_strs(ts);
        let first = spec_enc_str(ts[0]);
        let rest = spec_enc_strs(ts.drop_first());
        assert(whole.subrange(0, first.len() as int) =~= first);
        lemma_slice_at(s, pos, whole, 0, first);
        lemma_dec_enc_str(s, pos, ts[0]);
        assert(whole.subrange(first.len() as int, first.len() as int + rest.len() as int) =~= rest);
        lemma_slice_at(s, pos, whole, first.len() as int, rest);
        lemma_dec_enc_strs(s, pos + first.len(), ts.drop_first());
        assert(seq![ts[0]] + ts.drop_first() =~= ts);
    }
}

/// Appends the encoding of a string list to `out`.
pub fn enc_strs(out: &mut Vec<u8>, ts: &Vec<String>)
    ensures
        final(out)@ == old(out)@ + spec_enc_strs(ts.deep_view()),
{
    let n = ts.len();
    for i in 0..n
        invariant
            n == ts@.len(),
            out@ == old(out)@ + spec_enc_strs(ts.deep_view().take(i as int)),
    {
        enc_str(out, &ts[i]);
        proof {
            lemma_enc_strs_concat(ts.deep_view().take(i as int), seq![ts.deep_view()[i as int]]);
            assert(ts.deep_view().take(i as int) + seq![ts.deep_view()[i as int]]
                =~= ts.deep_view().take(i as int + 1));
            assert(spec_enc_strs(seq![ts.deep_view()[i as int]]) =~= spec_enc_str(
                ts.deep_view()[i as int],
            )) by {
                let single = seq![ts.deep_view()[i as int]];
                assert(single[0] == ts.deep_view()[i as int]);
                assert(single.drop_first() =~= Seq::<Seq<char>>::empty());
                assert(spec_enc_strs(single) == spec_enc_str(single[0]) + spec_enc_strs(
                    Seq::<Seq<char>>::empty(),
                ));
                assert(spec_enc_str(ts.deep_view()[i as int]) + Seq::<u8>::empty()
                    =~= spec_enc_str(ts.deep_view()[i as int]));
            }
        }
    }
    proof {
        assert(ts.deep_view().take(n as int) =~= ts.deep_view());
    }
}

/// Reads `n` elements at `pos`, exactly as the specification decoder does.
pub fn dec_strs(data: &Vec<u8>, pos: usize, n: u64) -> (r: Option<(Vec<String>, usize)>)
    ensures
        match r {
            Some(vp) => spec_dec_strs(data@, pos as int, n as nat) == Some(
                (vp.0.deep_view(), vp.1 as int),
            ),
            None => spec_dec_strs(data@, pos as int, n as nat) is None,
        },
    decreases n,
{
    if n == 0 {
        let empty: Vec<String> = Vec::new();
        assert(empty.deep_view() =~= Seq::<Seq<char>>::empty());
        return Some((empty, pos));
    }
    let (t, p) = match dec_str(data, pos) {
        None => {
            return None;
        },
        Some(vp) => vp,
    };
    let (mut rest, p2) = match dec_strs(data, p, n - 1) {
        None => {
            return None;
        },
        Some(vp) => vp,
    };
    let ghost rest_pre = rest;
    let ghost tg = t;
    rest.insert(0, t);
    proof {
        assert(rest@ == rest_pre@.insert(0, tg));
        assert forall|k: int| 0 <= k < rest@.len() implies rest.deep_view()[k] == (seq![
            tg.deep_view(),
        ] + rest_pre.deep_view())[k] by {
            if k == 0 {
                assert(rest@[0] == tg);
            } else {
                assert(rest@[k] == rest_pre@[k - 1]);
            }
        }
        assert(rest.deep_view() =~= seq![tg.deep_view()] + rest_pre.deep_view());
    }
    Some((rest, p2))
}

/// The encoding of a predicate list, one element after another.
pub open spec fn spec_enc_preds(ts: Seq<PredV>) -> Seq<u8>
    decreases ts.len(),
{
    if ts.len() == 0 {
        Seq::empty()
    } else {
        spec_enc_pred(ts[0]) + spec_enc_preds(ts.drop_first())
    }
}

/// Encoding distributes over concatenation of predicate lists.
pub proof fn lemma_enc_preds_concat(a: Seq<PredV>, b: Seq<PredV>)
    ensures
        spec_enc_preds(a + b) == spec_enc_preds(a) + spec_enc_preds(b),
    decreases a.len(),
{
    if a.len() == 0 {
        assert(a + b =~= b);
        assert(spec_enc_preds(a) + spec_enc_preds(b) =~= spec_enc_preds(b));
    } else {
        assert((a + b).drop_first() =~= a.drop_first() + b);
        lemma_enc_preds_concat(a.drop_first(), b);
        assert((a + b)[0] == a[0]);
        assert(spec_enc_preds(a + b) =~= spec_enc_preds(a) + spec_enc_preds(b));
    }
}

/// Reads `n` elements at `pos`.
pub open spec fn spec_dec_preds(s: Seq<u8>, pos: int, n: nat) -> Option<(Seq<PredV>, int)>
    decreases n,
{
    if n == 0 {
        Some((Seq::empty(), pos))
    } else {
        match spec_dec_pred(s, pos) {
            None => None,
            Some((t, p)) => match spec_dec_preds(s, p, (n - 1) as nat) {
                None => None,
                Some((ts, p2)) => Some((seq![t] + ts, p2)),
            },
        }
    }
}

/// Decoding inverts encoding for predicate lists.
pub proof fn lemma_dec_enc_preds(s: Seq<u8>, pos: int, ts: Seq<PredV>)
    requires
        forall|i: int| 0 <= i < ts.len() ==> predv_wf(#[trigger] ts[i]),
        0 <= pos,
        pos + spec_enc_preds(ts).len() <= s.len(),
        s.subrange(pos, pos + spec_enc_preds(ts).len()) == spec_enc_preds(ts),
    ensures
        spec_dec_preds(s, pos, ts.len()) == Some((ts, pos + spec_enc_preds(ts).len())),
    decreases ts.len(),
{
    if ts.len() > 0 {
        let whole = spec_enc_preds(ts);
        let first = spec_enc_pred(ts[0]);
        let rest = spec_enc_preds(ts.drop_first());
        assert(whole.subrange(0, first.len() as int) =~= first);
        lemma_slice_at(s, pos, whole, 0, first);
        lemma_dec_enc_pred(s, pos, ts[0]);
        assert(whole.subrange(first.len() as int, first.len() as int + rest.len() as int) =~= rest);
        lemma_slice_at(s, pos, whole, first.len() as int, rest);
        lemma_dec_enc_preds(s, pos + first.len(), ts.drop_first());
        assert(seq![ts[0]] + ts.drop_first() =~= ts);
    }
}

/// Appends the encoding of a predicate list to `out`.
pub fn enc_preds(out: &mut Vec<u8>, ts: &Vec<Predicate>)
    ensures
        final(out)@ == old(out)@ + spec_enc_preds(ts.deep_view()),
{
    let n = ts.len();
    for i in 0..n
        invariant
            n == ts@.len(),
            out@ == old(out)@ + spec_enc_preds(ts.deep_view().take(i as int)),
    {
        enc_pred(out, &ts[i]);
        proof {
            lemma_enc_preds_concat(ts.deep_view().take(i as int), seq![ts.deep_view()[i as int]]);
            assert(ts.deep_view().take(i as int) + seq![ts.deep_view()[i as int]]
                =~= ts.deep_view().take(i as int + 1));
            assert(spec_enc_preds(seq![ts.deep_view()[i as int]]) =~= spec_enc_pred(
                ts.deep_view()[i as int],
            )) by {
                let single = seq![ts.deep_view()[i as int]];
                assert(single[0] == ts.deep_view()[i as int]);
                assert(single.drop_first() =~= Seq::<PredV>::empty());
                assert(spec_enc_preds(single) == spec_enc_pred(single[0]) + spec_enc_preds(
                    Seq::<PredV>::empty(),
                ));
                assert(spec_enc_pred(ts.deep_view()[i as int]) + Seq::<u8>::empty()
                    =~= spec_enc_pred(ts.deep_view()[i as int]));
            }
        }
    }
    proof {
        assert(ts.deep_view().take(n as int) =~= ts.deep_view());
    }
}

/// Reads `n` elements at `pos`, exactly as the specification decoder does.
pub fn dec_preds(data: &Vec<u8>, pos: usize, n: u64) -> (r: Option<(Vec<Predicate>, usize)>)
    ensures
        match r {
            Some(vp) => spec_dec_preds(data@, pos as int, n as nat) == Some(
                (vp.0.deep_view(), vp.1 as int),
            ),
            None => spec_dec_preds(data@, pos as int, n as nat) is None,
        },
    decreases n,
{
    if n == 0 {
        let empty: Vec<Predicate> = Vec::new();
        assert(empty.deep_view() =~= Seq::<PredV>::empty());
        return Some((empty, pos));
    }
    let (t, p) = match dec_pred(data, pos) {
        None => {
            return None;
        },
        Some(vp) => vp,
    };
    let (mut rest, p2) = match dec_preds(data, p, n - 1) {
        None => {
            return None;
        },
        Some(vp) => vp,
    };
    let ghost rest_pre = rest;
    let ghost tg = t;
    rest.insert(0, t);
    proof {
        assert(rest@ == rest_pre@.insert(0, tg));
        assert forall|k: int| 0 <= k < rest@.len() implies rest.deep_view()[k] == (seq![
            tg.deep_view(),
        ] + rest_pre.deep_view())[k] by {
            if k == 0 {
                assert(rest@[0] == tg);
            } else {
                assert(rest@[k] == rest_pre@[k - 1]);
            }
        }
        assert(rest.deep_view() =~= seq![tg.deep_view()] + rest_pre.deep_view());
    }
    Some((rest, p2))
}

/// The encoding of a byte-string list, one element after another.
pub open spec fn spec_enc_byteses(ts: Seq<Seq<u8>>) -> Seq<u8>
    decreases ts.len(),
{
    if ts.len() == 0 {
        Seq::empty()
    } else {
        spec_enc_bytes(ts[0]) + spec_enc_byteses(ts.drop_first())
    }
}

/// Encoding distributes over concatenation of byte-string lists.
pub proof fn lemma_enc_byteses_concat(a: Seq<Seq<u8>>, b: Seq<Seq<u8>>)
    ensures
        spec_enc_byteses(a + b) == spec_enc_byteses(a) + spec_enc_byteses(b),
    decreases a.len(),
{
    if a.len() == 0 {
        assert(a + b =~= b);
        assert(spec_enc_byteses(a) + spec_enc_byteses(b) =~= spec_enc_byteses(b));
    } else {
        assert((a + b).drop_first() =~= a.drop_first() + b);
        lemma_enc_byteses_concat(a.drop_first(), b);
        assert((a + b)[0] == a[0]);
        assert(spec_enc_byteses(a + b) =~= spec_enc_byteses(a) + spec_enc_byteses(b));
    }
}

/// Reads `n` elements at `pos`.
pub open spec fn spec_dec_byteses(s: Seq<u8>, pos: int, n: nat) -> Option<(Seq<Seq<u8>>, int)>
    decreases n,
{
    if n == 0 {
        Some((Seq::empty(), pos))
    } else {
        match spec_dec_bytes(s, pos) {
            None => None,
            Some((t, p)) => match spec_dec_byteses(s, p, (n - 1) as nat) {
                None => None,
                Some((ts, p2)) => Some((seq![t] + ts, p2)),
            },
        }
    }
}

/// Decoding inverts encoding for byte-string lists.
pub proof fn lemma_dec_enc_byteses(s: Seq<u8>, pos: int, ts: Seq<Seq<u8>>)
    requires
        forall|i: int| 0 <= i < ts.len() ==> (#[trigger] ts[i]).len() <= u64::MAX,
        0 <= pos,
        pos + spec_enc_byteses(ts).len() <= s.len(),
        s.subrange(pos, pos + spec_enc_byteses(ts).len()) == spec_enc_byteses(ts),
    ensures
        spec_dec_byteses(s, pos, ts.len()) == Some((ts, pos + spec_enc_byteses(ts).len())),
    decreases ts.len(),
{
    if ts.len() > 0 {
        let whole = spec_enc_byteses(ts);
        let first = spec_enc_bytes(ts[0]);
        let rest = spec_enc_byteses(ts.drop_first());
        assert(whole.subrange(0, first.len() as int) =~= first);
        lemma_slice_at(s, pos, whole, 0, first);
        lemma_dec_enc_bytes(s, pos, ts[0]);
        assert(whole.subrange(first.len() as int, first.len() as int + rest.len() as int) =~= rest);
        lemma_slice_at(s, pos, whole, first.len() as int, rest);
        lemma_dec_enc_byteses(s, pos + first.len(), ts.drop_first());
        assert(seq![ts[0]] + ts.drop_first() =~= ts);
    }
}

/// Appends the encoding of a byte-string list to `out`.
pub fn enc_byteses(out: &mut Vec<u8>, ts: &Vec<Vec<u8>>)
    ensures
        final(out)@ == old(out)@ + spec_enc_byteses(ts.deep_view()),
{
    let n = ts.len();
    for i in 0..n
        invariant
            n == ts@.len(),
            out@ == old(out)@ + spec_enc_byteses(ts.deep_view().take(i as int)),
    {
        enc_bytes(out, &ts[i]);
        proof {
            lemma_enc_byteses_concat(ts.deep_view().take(i as int), seq![ts.deep_view()[i as int]]);
            assert(ts.deep_view().take(i as int) + seq![ts.deep_view()[i as int]]
                =~= ts.deep_view().take(i as int + 1));
            assert(spec_enc_byteses(seq![ts.deep_view()[i as int]]) =~= spec_enc_bytes(
                ts.deep_view()[i as int],
            )) by {
                let single = seq![ts.deep_view()[i as int]];
                assert(single[0] == ts.deep_view()[i as int]);
                assert(single.drop_first() =~= Seq::<Seq<u8>>::empty());
                assert(spec_enc_byteses(single) == spec_enc_bytes(single[0]) + spec_enc_byteses(
                    Seq::<Seq<u8>>::empty(),
                ));
                assert(spec_enc_bytes(ts.deep_view()[i as int]) + Seq::<u8>::empty()
                    =~= spec_enc_bytes(ts.deep_view()[i as int]));
            }
        }
    }
    proof {
        assert(ts.deep_view().take(n as int) =~= ts.deep_view());
    }
}

/// Reads `n` elements at `pos`, exactly as the specification decoder does.
pub fn dec_byteses(data: &Vec<u8>, pos: usize, n: u64) -> (r: Option<(Vec<Vec<u8>>, usize)>)
    ensures
        match r {
            Some(vp) => spec_dec_byteses(data@, pos as int, n as nat) == Some(
                (vp.0.deep_view(), vp.1 as int),
            ),
            None => spec_dec_byteses(data@, pos as int, n as nat) is None,
        },
    decreases n,
{
    if n == 0 {
        let empty: Vec<Vec<u8>> = Vec::new();
        assert(empty.deep_view() =~= Seq::<Seq<u8>>::empty());
        return Some((empty, pos));
    }
    let (t, p) = match dec_bytes(data, pos) {
        None => {
            return None;
        },
        Some(vp) => vp,
    };
    let (mut rest, p2) = match dec_byteses(data, p, n - 1) {
        None => {
            return None;
        },
        Some(vp) => vp,
    };
    let ghost rest_pre = rest;
    let ghost tg = t;
    rest.insert(0, t);
    proof {
        assert(tg.deep_view() =~= tg@);
        assert(rest@ == rest_pre@.insert(0, tg));
        assert forall|k: int| 0 <= k < rest@.len() implies rest.deep_view()[k] == (seq![
            tg.deep_view(),
        ] + rest_pre.deep_view())[k] by {
            if k == 0 {
                assert(rest@[0] == tg);
            } else {
                assert(rest@[k] == rest_pre@[k - 1]);
            }
        }
        assert(rest.deep_view() =~= seq![tg.deep_view()] + rest_pre.deep_view());
    }
    Some((rest, p2))
}


// ---------------------------------------------------------------------------
// Constraint checks, constraints and rules
// ---------------------------------------------------------------------------

/// The encoding of a constraint check: a tag byte, then the operand.
pub open spec fn spec_enc_check(c: CheckV) -> Seq<u8> {
    match c {
        CheckV::IntLower(x) => seq![0u8] + spec_enc_i64(x),
        CheckV::IntLarger(x) => seq![1u8] + spec_enc_i64(x),
        CheckV::IntLowerOrEqual(x) => seq![2u8] + spec_enc_i64(x),
        CheckV::IntLargerOrEqual(x) => seq![3u8] + spec_enc_i64(x),
        CheckV::IntEqual(x) => seq![4u8] + spec_enc_i64(x),
        CheckV::IntIn(x) => seq![5u8] + spec_enc_u64(x.len() as u64) + spec_enc_i64s(x),
        CheckV::IntNotIn(x) => seq![6u8] + spec_enc_u64(x.len() as u64) + spec_enc_i64s(x),
        CheckV::StrPrefix(x) => seq![7u8] + spec_enc_str(x),
        CheckV::StrSuffix(x) => seq![8u8] + spec_enc_str(x),
        CheckV::StrEqual(x) => seq![9u8] + spec_enc_str(x),
        CheckV::StrIn(x) => seq![10u8] + spec_enc_u64(x.len() as u64) + spec_enc_strs(x),
        CheckV::StrNotIn(x) => seq![11u8] + spec_enc_u64(x.len() as u64) + spec_enc_strs(x),
        CheckV::DateBefore(x) => seq![12u8] + spec_enc_u64(x),
        CheckV::DateAfter(x) => seq![13u8] + spec_enc_u64(x),
        CheckV::SymIn(x) => seq![14u8] + spec_enc_u64(x.len() as u64) + spec_enc_u64s(x),
        CheckV::SymNotIn(x) => seq![15u8] + spec_enc_u64(x.len() as u64) + spec_enc_u64s(x),
    }
}

/// Reads a constraint check at `pos`.
pub open spec fn spec_dec_check(s: Seq<u8>, pos: int) -> Option<(CheckV, int)> {
    if 0 <= pos && pos < s.len() {
        let tag = s[pos];
        if tag == 0u8 {
            match spec_dec_i64(s, pos + 1) {
                Some((v, p)) => Some((CheckV::IntLower(v), p)),
                None => None,
            }
        } else if tag == 1u8 {
            match spec_dec_i64(s, pos + 1) {
                Some((v, p)) => Some((CheckV::IntLarger(v), p)),
                None => None,
            }
        } else if tag == 2u8 {
            match spec_dec_i64(s, pos + 1) {
                Some((v, p)) => Some((CheckV::IntLowerOrEqual(v), p)),
                None => None,
            }
        } else if tag == 3u8 {
            match spec_dec_i64(s, pos + 1) {
                Some((v, p)) => Some((CheckV::IntLargerOrEqual(v), p)),
                None => None,
            }
        } else if tag == 4u8 {
            match spec_dec_i64(s, pos + 1) {
                Some((v, p)) => Some((CheckV::IntEqual(v), p)),
                None => None,
            }
        } else if tag == 5u8 {
            match spec_dec_u64(s, pos + 1) {
                None => None,
                Some((n, p)) => match spec_dec_i64s(s, p, n as nat) {
                    Some((v, p2)) => Some((CheckV::IntIn(v), p2)),
                    None => None,
                },
            }
        } else if tag == 6u8 {
            match spec_dec_u64(s, pos + 1) {
                None => None,
                Some((n, p)) => match spec_dec_i64s(s, p, n as nat) {
                    Some((v, p2)) => Some((CheckV::IntNotIn(v), p2)),
                    None => None,
                },
            }
        } else if tag == 7u8 {
            match spec_dec_str(s, pos + 1) {
                Some((v, p)) => Some((CheckV::StrPrefix(v), p)),
                None => None,
            }
        } else if tag == 8u8 {
            match spec_dec_str(s, pos + 1) {
                Some((v, p)) => Some((CheckV::StrSuffix(v), p)),
                None => None,
            }
        } else if tag == 9u8 {
            match spec_dec_str(s, pos + 1) {
                Some((v, p)) => Some((CheckV::StrEqual(v), p)),
                None => None,
            }
        } else if tag == 10u8 {
            match spec_dec_u64(s, pos + 1) {
                None => None,
                Some((n, p)) => match spec_dec_strs(s, p, n as nat) {
                    Some((v, p2)) => Some((CheckV::StrIn(v), p2)),
                    None => None,
                },
            }
        } else if tag == 11u8 {
            match spec_dec_u64(s, pos + 1) {
                None => None,
                Some((n, p)) => match spec_dec_strs(s, p, n as nat) {
                    Some((v, p2)) => Some((CheckV::StrNotIn(v), p2)),
                    None => None,
                },
            }
        } else if tag == 12u8 {
            match spec_dec_u64(s, pos + 1) {
                Some((v, p)) => Some((CheckV::DateBefore(v), p)),
                None => None,
            }
        } else if tag == 13u8 {
            match spec_dec_u64(s, pos + 1) {
                Some((v, p)) => Some((CheckV::DateAfter(v), p)),
                None => None,
            }
        } else if tag == 14u8 {
            match spec_dec_u64(s, pos + 1) {
                None => None,
                Some((n, p)) => match spec_dec_u64s(s, p, n as nat) {
                    Some((v, p2)) => Some((CheckV::SymIn(v), p2)),
                    None => None,
                },
            }
        } else if tag == 15u8 {
            match spec_dec_u64(s, pos + 1) {
                None => None,
                Some((n, p)) => match spec_dec_u64s(s, p, n as nat) {
                    Some((v, p2)) => Some((CheckV::SymNotIn(v), p2)),
                    None => None,
                },
            }
        } else {
            None
        }
    } else {
        None
    }
}

/// Decoding inverts encoding for constraint checks.
pub proof fn lemma_dec_enc_check(s: Seq<u8>, pos: int, c: CheckV)
    requires
        checkv_wf(c),
        0 <= pos,
        pos + spec_enc_check(c).len() <= s.len(),
        s.subrange(pos, pos + spec_enc_check(c).len()) == spec_enc_check(c),
    ensures
        spec_dec_check(s, pos) == Some((c, pos + spec_enc_check(c).len())),
{
    let whole = spec_enc_check(c);
    assert(s[pos] == whole[0]) by {
        assert(s.subrange(pos, pos + whole.len())[0] == s[pos]);
    }
    match c {
        CheckV::IntLower(x) => {
            assert(whole.subrange(1, 1 + spec_enc_i64(x).len() as int) =~= spec_enc_i64(x));
            lemma_slice_at(s, pos, whole, 1, spec_enc_i64(x));
            lemma_dec_enc_i64(s, pos + 1, x);
        },
        CheckV::IntLarger(x) => {
            assert(whole.subrange(1, 1 + spec_enc_i64(x).len() as int) =~= spec_enc_i64(x));
            lemma_slice_at(s, pos, whole, 1, spec_enc_i64(x));
            lemma_dec_enc_i64(s, pos + 1, x);
        },
        CheckV::IntLowerOrEqual(x) => {
            assert(whole.subrange(1, 1 + spec_enc_i64(x).len() as int) =~= spec_enc_i64(x));
            lemma_slice_at(s, pos, whole, 1, spec_enc_i64(x));
            lemma_dec_enc_i64(s, pos + 1, x);
        },
        CheckV::IntLargerOrEqual(x) => {
            assert(whole.subrange(1, 1 + spec_enc_i64(x).len() as int) =~= spec_enc_i64(x));
            lemma_slice_at(s, pos, whole, 1, spec_enc_i64(x));
            lemma_dec_enc_i64(s, pos + 1, x);
        },
        CheckV::IntEqual(x) => {
            assert(whole.subrange(1, 1 + spec_enc_i64(x).len() as int) =~= spec_enc_i64(x));
            lemma_slice_at(s, pos, whole, 1, spec_enc_i64(x));
            lemma_dec_enc_i64(s, pos + 1, x);
        },
        CheckV::IntIn(x) => {
            let cnt = spec_enc_u64(x.len() as u64);
            let items = spec_enc_i64s(x);
            assert(whole.subrange(1, 9) =~= cnt);
            lemma_slice_at(s, pos, whole, 1, cnt);
            lemma_dec_enc_u64(s, pos + 1, x.len() as u64);
            assert(whole.subrange(9, 9 + items.len() as int) =~= items);
            lemma_slice_at(s, pos, whole, 9, items);
            lemma_dec_enc_i64s(s, pos + 9, x);
            assert((x.len() as u64) as nat == x.len());
        },
        CheckV::IntNotIn(x) => {
            let cnt = spec_enc_u64(x.len() as u64);
            let items = spec_enc_i64s(x);
            assert(whole.subrange(1, 9) =~= cnt);
            lemma_slice_at(s, pos, whole, 1, cnt);
            lemma_dec_enc_u64(s, pos + 1, x.len() as u64);
            assert(whole.subrange(9, 9 + items.len() as int) =~= items);
            lemma_slice_at(s, pos, whole, 9, items);
            lemma_dec_enc_i64s(s, pos + 9, x);
            assert((x.len() as u64) as nat == x.len());
        },
        CheckV::StrPrefix(x) => {
            assert(whole.subrange(1, 1 + spec_enc_str(x).len() as int) =~= spec_enc_str(x));
            lemma_slice_at(s, pos, whole, 1, spec_enc_str(x));
            lemma_dec_enc_str(s, pos + 1, x);
        },
        CheckV::StrSuffix(x) => {
            assert(whole.subrange(1, 1 + spec_enc_str(x).len() as int) =~= spec_enc_str(x));
            lemma_slice_at(s, pos, whole, 1, spec_enc_str(x));
            lemma_dec_enc_str(s, pos + 1, x);
        },
        CheckV::StrEqual(x) => {
            assert(whole.subrange(1, 1 + spec_enc_str(x).len() as int) =~= spec_enc_str(x));
            lemma_slice_at(s, pos, whole, 1, spec_enc_str(x));
            lemma_dec_enc_str(s, pos + 1, x);
        },
        CheckV::StrIn(x) => {
            let cnt = spec_enc_u64(x.len() as u64);
            let items = spec_enc_strs(x);
            assert(whole.subrange(1, 9) =~= cnt);
            lemma_slice_at(s, pos, whole, 1, cnt);
            lemma_dec_enc_u64(s, pos + 1, x.len() as u64);
            assert(whole.subrange(9, 9 + items.len() as int) =~= items);
            lemma_slice_at(s, pos, whole, 9, items);
            lemma_dec_enc_strs(s, pos + 9, x);
            assert((x.len() as u64) as nat == x.len());
        },
        CheckV::StrNotIn(x) => {
            let cnt = spec_enc_u64(x.len() as u64);
            let items = spec_enc_strs(x);
            assert(whole.subrange(1, 9) =~= cnt);
            lemma_slice_at(s, pos, whole, 1, cnt);
            lemma_dec_enc_u64(s, pos + 1, x.len() as u64);
            assert(whole.subrange(9, 9 + items.len() as int) =~= items);
            lemma_slice_at(s, pos, whole, 9, items);
            lemma_dec_enc_strs(s, pos + 9, x);
            assert((x.len() as u64) as nat == x.len());
        },
        CheckV::DateBefore(x) => {
            assert(whole.subrange(1, 9) =~= spec_enc_u64(x));
            lemma_slice_at(s, pos, whole, 1, spec_enc_u64(x));
            lemma_dec_enc_u64(s, pos + 1, x);
        },
        CheckV::DateAfter(x) => {
            assert(whole.subrange(1, 9) =~= spec_enc_u64(x));
            lemma_slice_at(s, pos, whole, 1, spec_enc_u64(x));
            lemma_dec_enc_u64(s, pos + 1, x);
        },
        CheckV::SymIn(x) => {
            let cnt = spec_enc_u64(x.len() as u64);
            let items = spec_enc_u64s(x);
            assert(whole.subrange(1, 9) =~= cnt);
            lemma_slice_at(s, pos, whole, 1, cnt);
            lemma_dec_enc_u64(s, pos + 1, x.len() as u64);
            assert(whole.subrange(9, 9 + items.len() as int) =~= items);
            lemma_slice_at(s, pos, whole, 9, items);
            lemma_dec_enc_u64s(s, pos + 9, x);
            assert((x.len() as u64) as nat == x.len());
        },
        CheckV::SymNotIn(x) => {
            let cnt = spec_enc_u64(x.len() as u64);
            let items = spec_enc_u64s(x);
            assert(whole.subrange(1, 9) =~= cnt);
            lemma_slice_at(s, pos, whole, 1, cnt);
            lemma_dec_enc_u64(s, pos + 1, x.len() as u64);
            assert(whole.subrange(9, 9 + items.len() as int) =~= items);
            lemma_slice_at(s, pos, whole, 9, items);
            lemma_dec_enc_u64s(s, pos + 9, x);
            assert((x.len() as u64) as nat == x.len());
        },
    }
}

/// Appends the encoding of a constraint check to `out`.
pub fn enc_check(out: &mut Vec<u8>, c: &ConstraintCheck)
    ensures
        final(out)@ == old(out)@ + spec_enc_check(c@),
{
    match c {
        ConstraintCheck::IntLower(x) => {
            out.push(0u8);
            enc_i64(out, x);
        },
        ConstraintCheck::IntLarger(x) => {
            out.push(1u8);
            enc_i64(out, x);
        },
        ConstraintCheck::IntLowerOrEqual(x) => {
            out.push(2u8);
            enc_i64(out, x);
        },
        ConstraintCheck::IntLargerOrEqual(x) => {
            out.push(3u8);
            enc_i64(out, x);
        },
        ConstraintCheck::IntEqual(x) => {
            out.push(4u8);
            enc_i64(out, x);
        },
        ConstraintCheck::IntIn(x) => {
            out.push(5u8);
            enc_u64(out, x.len() as u64);
            enc_i64s(out, x);
            proof {
                assert(x.deep_view() =~= x@);
            }
        },
        ConstraintCheck::IntNotIn(x) => {
            out.push(6u8);
            enc_u64(out, x.len() as u64);
            enc_i64s(out, x);
            proof {
                assert(x.deep_view() =~= x@);
            }
        },
        ConstraintCheck::StrPrefix(x) => {
            out.push(7u8);
            enc_str(out, x);
        },
        ConstraintCheck::StrSuffix(x) => {
            out.push(8u8);
            enc_str(out, x);
        },
        ConstraintCheck::StrEqual(x) => {
            out.push(9u8);
            enc_str(out, x);
        },
        ConstraintCheck::StrIn(x) => {
            out.push(10u8);
            enc_u64(out, x.len() as u64);
            enc_strs(out, x);
        },
        ConstraintCheck::StrNotIn(x) => {
            out.push(11u8);
            enc_u64(out, x.len() as u64);
            enc_strs(out, x);
        },
        ConstraintCheck::DateBefore(x) => {
            out.push(12u8);
            enc_u64(out, *x);
        },
        ConstraintCheck::DateAfter(x) => {
            out.push(13u8);
            enc_u64(out, *x);
        },
        ConstraintCheck::SymIn(x) => {
            out.push(14u8);
            enc_u64(out, x.len() as u64);
            enc_u64s(out, x);
            proof {
                assert(x.deep_view() =~= x@);
            }
        },
        ConstraintCheck::SymNotIn(x) => {
            out.push(15u8);
            enc_u64(out, x.len() as u64);
            enc_u64s(out, x);
            proof {
                assert(x.deep_view() =~= x@);
            }
        },
    }
    assert(out@ =~= old(out)@ + spec_enc_check(c@));
}

/// Reads a constraint check at `pos`, exactly as the specification decoder
/// does.
pub fn dec_check(data: &Vec<u8>, pos: usize) -> (r: Option<(ConstraintCheck, usize)>)
    ensures
        match r {
            Some(vp) => spec_dec_check(data@, pos as int) == Some((vp.0@, vp.1 as int)),
            None => spec_dec_check(data@, pos as int) is None,
        },
{
    if pos >= data.len() {
        return None;
    }
    let tag = data[pos];
    if tag == 0u8 {
        match dec_i64(data, pos + 1) {
            Some((v, p)) => Some((ConstraintCheck::IntLower(v), p)),
            None => None,
        }
    } else if tag == 1u8 {
        match dec_i64(data, pos + 1) {
            Some((v, p)) => Some((ConstraintCheck::IntLarger(v), p)),
            None => None,
        }
    } else if tag == 2u8 {
        match dec_i64(data, pos + 1) {
            Some((v, p)) => Some((ConstraintCheck::IntLowerOrEqual(v), p)),
            None => None,
        }
    } else if tag == 3u8 {
        match dec_i64(data, pos + 1) {
            Some((v, p)) => Some((ConstraintCheck::IntLargerOrEqual(v), p)),
            None => None,
        }
    } else if tag == 4u8 {
        match dec_i64(data, pos + 1) {
            Some((v, p)) => Some((ConstraintCheck::IntEqual(v), p)),
            None => None,
        }
    } else if tag == 5u8 {
        match dec_u64(data, pos + 1) {
            None => None,
            Some((n, p)) => match dec_i64s(data, p, n) {
                Some((v, p2)) => Some((ConstraintCheck::IntIn(v), p2)),
                None => None,
            },
        }
    } else if tag == 6u8 {
        match dec_u64(data, pos + 1) {
            None => None,
            Some((n, p)) => match dec_i64s(data, p, n) {
                Some((v, p2)) => Some((ConstraintCheck::IntNotIn(v), p2)),
                None => None,
            },
        }
    } else if tag == 7u8 {
        match dec_str(data, pos + 1) {
            Some((v, p)) => Some((ConstraintCheck::StrPrefix(v), p)),
            None => None,
        }
    } else if tag == 8u8 {
        match dec_str(data, pos + 1) {
            Some((v, p)) => Some((ConstraintCheck::StrSuffix(v), p)),
            None => None,
        }
    } else if tag == 9u8 {
        match dec_str(data, pos + 1) {
            Some((v, p)) => Some((ConstraintCheck::StrEqual(v), p)),
            None => None,
        }
    } else if tag == 10u8 {
        match dec_u64(data, pos + 1) {
            None => None,
            Some((n, p)) => match dec_strs(data, p, n) {
                Some((v, p2)) => Some((ConstraintCheck::StrIn(v), p2)),
                None => None,
            },
        }
    } else if tag == 11u8 {
        match dec_u64(data, pos + 1) {
            None => None,
            Some((n, p)) => match dec_strs(data, p, n) {
                Some((v, p2)) => Some((ConstraintCheck::StrNotIn(v), p2)),
                None => None,
            },
        }
    } else if tag == 12u8 {
        match dec_u64(data, pos + 1) {
            Some((v, p)) => Some((ConstraintCheck::DateBefore(v), p)),
            None => None,
        }
    } else if tag == 13u8 {
        match dec_u64(data, pos + 1) {
            Some((v, p)) => Some((ConstraintCheck::DateAfter(v), p)),
            None => None,
        }
    } else if tag == 14u8 {
        match dec_u64(data, pos + 1) {
            None => None,
            Some((n, p)) => match dec_u64s(data, p, n) {
                Some((v, p2)) => Some((ConstraintCheck::SymIn(v), p2)),
                None => None,
            },
        }
    } else if tag == 15u8 {
        match dec_u64(data, pos + 1) {
            None => None,
            Some((n, p)) => match dec_u64s(data, p, n) {
                Some((v, p2)) => Some((ConstraintCheck::SymNotIn(v), p2)),
                None => None,
            },
        }
    } else {
        None
    }
}

/// The encoding of a constraint: its variable id, then its check.
pub open spec fn spec_enc_constraint(c: ConstraintV) -> Seq<u8> {
    spec_enc_u64(c.id as u64) + spec_enc_check(c.check)
}

/// Reads a constraint at `pos`.
pub open spec fn spec_dec_constraint(s: Seq<u8>, pos: int) -> Option<(ConstraintV, int)> {
    match spec_dec_u64(s, pos) {
        None => None,
        Some((v, p)) => if v <= u32::MAX {
            match spec_dec_check(s, p) {
                Some((c, p2)) => Some((ConstraintV { id: v as u32, check: c }, p2)),
                None => None,
            }
        } else {
            None
        },
    }
}

/// Decoding inverts encoding for constraints.
pub proof fn lemma_dec_enc_constraint(s: Seq<u8>, pos: int, c: ConstraintV)
    requires
        checkv_wf(c.check),
        0 <= pos,
        pos + spec_enc_constraint(c).len() <= s.len(),
        s.subrange(pos, pos + spec_enc_constraint(c).len()) == spec_enc_constraint(c),
    ensures
        spec_dec_constraint(s, pos) == Some((c, pos + spec_enc_constraint(c).len())),
{
    let whole = spec_enc_constraint(c);
    let chk = spec_enc_check(c.check);
    assert(whole.subrange(0, 8) =~= spec_enc_u64(c.id as u64));
    lemma_slice_at(s, pos, whole, 0, spec_enc_u64(c.id as u64));
    lemma_dec_enc_u64(s, pos, c.id as u64);
    assert(whole.subrange(8, 8 + chk.len() as int) =~= chk);
    lemma_slice_at(s, pos, whole, 8, chk);
    lemma_dec_enc_check(s, pos + 8, c.check);
    assert(ConstraintV { id: c.id, check: c.check } =~= c);
}

/// Appends the encoding of a constraint to `out`.
pub fn enc_constraint(out: &mut Vec<u8>, c: &Constraint)
    ensures
        final(out)@ == old(out)@ + spec_enc_constraint(c@),
{
    enc_u64(out, c.id as u64);
    enc_check(out, &c.check);
    assert(out@ =~= old(out)@ + spec_enc_constraint(c@));
}

/// Reads a constraint at `pos`, exactly as the specification decoder does.
pub fn dec_constraint(data: &Vec<u8>, pos: usize) -> (r: Option<(Constraint, usize)>)
    ensures
        match r {
            Some(vp) => spec_dec_constraint(data@, pos as int) == Some((vp.0@, vp.1 as int)),
            None => spec_dec_constraint(data@, pos as int) is None,
        },
{
    let (v, p) = match dec_u64(data, pos) {
        None => {
            return None;
        },
        Some(vp) => vp,
    };
    if v > u32::MAX as u64 {
        return None;
    }
    let (c, p2) = match dec_check(data, p) {
        None => {
            return None;
        },
        Some(vp) => vp,
    };
    Some((Constraint { id: v as u32, check: c }, p2))
}

/// The encoding of a constraint list, one element after another.
pub open spec fn spec_enc_constraints(ts: Seq<ConstraintV>) -> Seq<u8>
    decreases ts.len(),
{
    if ts.len() == 0 {
        Seq::empty()
    } else {
        spec_enc_constraint(ts[0]) + spec_enc_constraints(ts.drop_first())
    }
}

/// Encoding distributes over concatenation of constraint lists.
pub proof fn lemma_enc_constraints_concat(a: Seq<ConstraintV>, b: Seq<ConstraintV>)
    ensures
        spec_enc_constraints(a + b) == spec_enc_constraints(a) + spec_enc_constraints(b),
    decreases a.len(),
{
    if a.len() == 0 {
        assert(a + b =~= b);
        assert(spec_enc_constraints(a) + spec_enc_constraints(b) =~= spec_enc_constraints(b));
    } else {
        assert((a + b).drop_first() =~= a.drop_first() + b);
        lemma_enc_constraints_concat(a.drop_first(), b);
        assert((a + b)[0] == a[0]);
        assert(spec_enc_constraints(a + b) =~= spec_enc_constraints(a) + spec_enc_constraints(b));
    }
}

/// Reads `n` elements at `pos`.
pub open spec fn spec_dec_constraints(s: Seq<u8>, pos: int, n: nat) -> Option<(Seq<ConstraintV>, int)>
    decreases n,
{
    if n == 0 {
        Some((Seq::empty(), pos))
    } else {
        match spec_dec_constraint(s, pos) {
            None => None,
            Some((t, p)) => match spec_dec_constraints(s, p, (n - 1) as nat) {
                None => None,
                Some((ts, p2)) => Some((seq![t] + ts, p2)),
            },
        }
    }
}

/// Decoding inverts encoding for constraint lists.
pub proof fn lemma_dec_enc_constraints(s: Seq<u8>, pos: int, ts: Seq<ConstraintV>)
    requires
        forall|i: int| 0 <= i < ts.len() ==> checkv_wf((#[trigger] ts[i]).check),
        0 <= pos,
        pos + spec_enc_constraints(ts).len() <= s.len(),
        s.subrange(pos, pos + spec_enc_constraints(ts).len()) == spec_enc_constraints(ts),
    ensures
        spec_dec_constraints(s, pos, ts.len()) == Some((ts, pos + spec_enc_constraints(ts).len())),
    decreases ts.len(),
{
    if ts.len() > 0 {
        let whole = spec_enc_constraints(ts);
        let first = spec_enc_constraint(ts[0]);
        let rest = spec_enc_constraints(ts.drop_first());
        assert(whole.subrange(0, first.len() as int) =~= first);
        lemma_slice_at(s, pos, whole, 0, first);
        lemma_dec_enc_constraint(s, pos, ts[0]);
        assert(whole.subrange(first.len() as int, first.len() as int + rest.len() as int) =~= rest);
        lemma_slice_at(s, pos, whole, first.len() as int, rest);
        lemma_dec_enc_constraints(s, pos + first.len(), ts.drop_first());
        assert(seq![ts[0]] + ts.drop_first() =~= ts);
    }
}

/// Appends the encoding of a constraint list to `out`.
pub fn enc_constraints(out: &mut Vec<u8>, ts: &Vec<Constraint>)
    ensures
        final(out)@ == old(out)@ + spec_enc_constraints(ts.deep_view()),
{
    let n = ts.len();
    for i in 0..n
        invariant
            n == ts@.len(),
            out@ == old(out)@ + spec_enc_constraints(ts.deep_view().take(i as int)),
    {
        enc_constraint(out, &ts[i]);
        proof {
            lemma_enc_constraints_concat(ts.deep_view().take(i as int), seq![ts.deep_view()[i as int]]);
            assert(ts.deep_view().take(i as int) + seq![ts.deep_view()[i as int]]
                =~= ts.deep_view().take(i as int + 1));
            assert(spec_enc_constraints(seq![ts.deep_view()[i as int]]) =~= spec_enc_constraint(
                ts.deep_view()[i as int],
            )) by {
                let single = seq![ts.deep_view()[i as int]];
                assert(single[0] == ts.deep_view()[i as int]);
                assert(single.drop_first() =~= Seq::<ConstraintV>::empty());
                assert(spec_enc_constraints(single) == spec_enc_constraint(single[0]) + spec_enc_constraints(
                    Seq::<ConstraintV>::empty(),
                ));
                assert(spec_enc_constraint(ts.deep_view()[i as int]) + Seq::<u8>::empty()
                    =~= spec_enc_constraint(ts.deep_view()[i as int]));
            }
        }
    }
    proof {
        assert(ts.deep_view().take(n as int) =~= ts.deep_view());
    }
}

/// Reads `n` elements at `pos`, exactly as the specification decoder does.
pub fn dec_constraints(data: &Vec<u8>, pos: usize, n: u64) -> (r: Option<(Vec<Constraint>, usize)>)
    ensures
        match r {
            Some(vp) => spec_dec_constraints(data@, pos as int, n as nat) == Some(
                (vp.0.deep_view(), vp.1 as int),
            ),
            None => spec_dec_constraints(data@, pos as int, n as nat) is None,
        },
    decreases n,
{
    if n == 0 {
        let empty: Vec<Constraint> = Vec::new();
        assert(empty.deep_view() =~= Seq::<ConstraintV>::empty());
        return Some((empty, pos));
    }
    let (t, p) = match dec_constraint(data, pos) {
        None => {
            return None;
        },
        Some(vp) => vp,
    };
    let (mut rest, p2) = match dec_constraints(data, p, n - 1) {
        None => {
            return None;
        },
        Some(vp) => vp,
    };
    let ghost rest_pre = rest;
    let ghost tg = t;
    rest.insert(0, t);
    proof {
        assert(rest@ == rest_pre@.insert(0, tg));
        assert forall|k: int| 0 <= k < rest@.len() implies rest.deep_view()[k] == (seq![
            tg.deep_view(),
        ] + rest_pre.deep_view())[k] by {
            if k == 0 {
                assert(rest@[0] == tg);
            } else {
                assert(rest@[k] == rest_pre@[k - 1]);
            }
        }
        assert(rest.deep_view() =~= seq![tg.deep_view()] + rest_pre.deep_view());
    }
    Some((rest, p2))
}


/// The encoding of a rule: head, body, constraints, each list with its
/// count.
pub open spec fn spec_enc_rule(r: RuleV) -> Seq<u8> {
    spec_enc_pred(r.head) + spec_enc_u64(r.body.len() as u64) + spec_enc_preds(r.body)
        + spec_enc_u64(r.constraints.len() as u64) + spec_enc_constraints(r.constraints)
}

/// Reads a rule at `pos`.
pub open spec fn spec_dec_rule(s: Seq<u8>, pos: int) -> Option<(RuleV, int)> {
    match spec_dec_pred(s, pos) {
        None => None,
        Some((head, p)) => match spec_dec_u64(s, p) {
            None => None,
            Some((nb, p2)) => match spec_dec_preds(s, p2, nb as nat) {
                None => None,
                Some((body, p3)) => match spec_dec_u64(s, p3) {
                    None => None,
                    Some((nc, p4)) => match spec_dec_constraints(s, p4, nc as nat) {
                        None => None,
                        Some((constraints, p5)) => Some(
                            (RuleV { head, body, constraints }, p5),
                        ),
                    },
                },
            },
        },
    }
}

/// Decoding inverts encoding for rules.
#[verifier::rlimit(60)]
pub proof fn lemma_dec_enc_rule(s: Seq<u8>, pos: int, r: RuleV)
    requires
        rulev_wf(r),
        0 <= pos,
        pos + spec_enc_rule(r).len() <= s.len(),
        s.subrange(pos, pos + spec_enc_rule(r).len()) == spec_enc_rule(r),
    ensures
        spec_dec_rule(s, pos) == Some((r, pos + spec_enc_rule(r).len())),
{
    let whole = spec_enc_rule(r);
    let head = spec_enc_pred(r.head);
    let body = spec_enc_preds(r.body);
    let cons = spec_enc_constraints(r.constraints);
    let o1 = head.len() as int;
    let o2 = o1 + 8;
    let o3 = o2 + body.len() as int;
    let o4 = o3 + 8;
    assert(whole.subrange(0, o1) =~= head);
    lemma_slice_at(s, pos, whole, 0, head);
    lemma_dec_enc_pred(s, pos, r.head);
    assert(whole.subrange(o1, o2) =~= spec_enc_u64(r.body.len() as u64));
    lemma_slice_at(s, pos, whole, o1, spec_enc_u64(r.body.len() as u64));
    lemma_dec_enc_u64(s, pos + o1, r.body.len() as u64);
    assert(whole.subrange(o2, o3) =~= body);
    lemma_slice_at(s, pos, whole, o2, body);
    lemma_dec_enc_preds(s, pos + o2, r.body);
    assert((r.body.len() as u64) as nat == r.body.len());
    assert(whole.subrange(o3, o4) =~= spec_enc_u64(r.constraints.len() as u64));
    lemma_slice_at(s, pos, whole, o3, spec_enc_u64(r.constraints.len() as u64));
    lemma_dec_enc_u64(s, pos + o3, r.constraints.len() as u64);
    assert(whole.subrange(o4, o4 + cons.len() as int) =~= cons);
    lemma_slice_at(s, pos, whole, o4, cons);
    lemma_dec_enc_constraints(s, pos + o4, r.constraints);
    assert((r.constraints.len() as u64) as nat == r.constraints.len());
    assert(RuleV { head: r.head, body: r.body, constraints: r.constraints } =~= r);
}

/// Appends the encoding of a rule to `out`.
pub fn enc_rule(out: &mut Vec<u8>, r: &Rule)
    ensures
        final(out)@ == old(out)@ + spec_enc_rule(r@),
{
    enc_pred(out, &r.head);
    enc_u64(out, r.body.len() as u64);
    enc_preds(out, &r.body);
    enc_u64(out, r.constraints.len() as u64);
    enc_constraints(out, &r.constraints);
    assert(out@ =~= old(out)@ + spec_enc_rule(r@));
}

/// Reads a rule at `pos`, exactly as the specification decoder does.
pub fn dec_rule(data: &Vec<u8>, pos: usize) -> (r: Option<(Rule, usize)>)
    ensures
        match r {
            Some(vp) => spec_dec_rule(data@, pos as int) == Some((vp.0@, vp.1 as int)),
            None => spec_dec_rule(data@, pos as int) is None,
        },
{
    let (head, p) = match dec_pred(data, pos) {
        None => {
            return None;
        },
        Some(vp) => vp,
    };
    let (nb, p2) = match dec_u64(data, p) {
        None => {
            return None;
        },
        Some(vp) => vp,
    };
    let (body, p3) = match dec_preds(data, p2, nb) {
        None => {
            return None;
        },
        Some(vp) => vp,
    };
    let (nc, p4) = match dec_u64(data, p3) {
        None => {
            return None;
        },
        Some(vp) => vp,
    };
    let (constraints, p5) = match dec_constraints(data, p4, nc) {
        None => {
            return None;
        },
        Some(vp) => vp,
    };
    let out = Rule { head, body, constraints };
    assert(out@ =~= spec_dec_rule(data@, pos as int)->Some_0.0);
    Some((out, p5))
}
/// The encoding of a rule list, one element after another.
pub open spec fn spec_enc_rules(ts: Seq<RuleV>) -> Seq<u8>
    decreases ts.len(),
{
    if ts.len() == 0 {
        Seq::empty()
    } else {
        spec_enc_rule(ts[0]) + spec_enc_rules(ts.drop_first())
    }
}

/// Encoding distributes over concatenation of rule lists.
pub proof fn lemma_enc_rules_concat(a: Seq<RuleV>, b: Seq<RuleV>)
    ensures
        spec_enc_rules(a + b) == spec_enc_rules(a) + spec_enc_rules(b),
    decreases a.len(),
{
    if a.len() == 0 {
        assert(a + b =~= b);
        assert(spec_enc_rules(a) + spec_enc_rules(b) =~= spec_enc_rules(b));
    } else {
        assert((a + b).drop_first() =~= a.drop_first() + b);
        lemma_enc_rules_concat(a.drop_first(), b);
        assert((a + b)[0] == a[0]);
        assert(spec_enc_rules(a + b) =~= spec_enc_rules(a) + spec_enc_rules(b));
    }
}

/// Reads `n` elements at `pos`.
pub open spec fn spec_dec_rules(s: Seq<u8>, pos: int, n: nat) -> Option<(Seq<RuleV>, int)>
    decreases n,
{
    if n == 0 {
        Some((Seq::empty(), pos))
    } else {
        match spec_dec_rule(s, pos) {
            None => None,
            Some((t, p)) => match spec_dec_rules(s, p, (n - 1) as nat) {
                None => None,
                Some((ts, p2)) => Some((seq![t] + ts, p2)),
            },
        }
    }
}

/// Decoding inverts encoding for rule lists.
pub proof fn lemma_dec_enc_rules(s: Seq<u8>, pos: int, ts: Seq<RuleV>)
    requires
        forall|i: int| 0 <= i < ts.len() ==> rulev_wf(#[trigger] ts[i]),
        0 <= pos,
        pos + spec_enc_rules(ts).len() <= s.len(),
        s.subrange(pos, pos + spec_enc_rules(ts).len()) == spec_enc_rules(ts),
    ensures
        spec_dec_rules(s, pos, ts.len()) == Some((ts, pos + spec_enc_rules(ts).len())),
    decreases ts.len(),
{
    if ts.len() > 0 {
        let whole = spec_enc_rules(ts);
        let first = spec_enc_rule(ts[0]);
        let rest = spec_enc_rules(ts.drop_first());
        assert(whole.subrange(0, first.len() as int) =~= first);
        lemma_slice_at(s, pos, whole, 0, first);
        lemma_dec_enc_rule(s, pos, ts[0]);
        assert(whole.subrange(first.len() as int, first.len() as int + rest.len() as int) =~= rest);
        lemma_slice_at(s, pos, whole, first.len() as int, rest);
        lemma_dec_enc_rules(s, pos + first.len(), ts.drop_first());
        assert(seq![ts[0]] + ts.drop_first() =~= ts);
    }
}

/// Appends the encoding of a rule list to `out`.
pub fn enc_rules(out: &mut Vec<u8>, ts: &Vec<Rule>)
    ensures
        final(out)@ == old(out)@ + spec_enc_rules(ts.deep_view()),
{
    let n = ts.len();
    for i in 0..n
        invariant
            n == ts@.len(),
            out@ == old(out)@ + spec_enc_rules(ts.deep_view().take(i as int)),
    {
        enc_rule(out, &ts[i]);
        proof {
            lemma_enc_rules_concat(ts.deep_view().take(i as int), seq![ts.deep_view()[i as int]]);
            assert(ts.deep_view().take(i as int) + seq![ts.deep_view()[i as int]]
                =~= ts.deep_view().take(i as int + 1));
            assert(spec_enc_rules(seq![ts.deep_view()[i as int]]) =~= spec_enc_rule(
                ts.deep_view()[i as int],
            )) by {
                let single = seq![ts.deep_view()[i as int]];
                assert(single[0] == ts.deep_view()[i as int]);
                assert(single.drop_first() =~= Seq::<RuleV>::empty());
                assert(spec_enc_rules(single) == spec_enc_rule(single[0]) + spec_enc_rules(
                    Seq::<RuleV>::empty(),
                ));
                assert(spec_enc_rule(ts.deep_view()[i as int]) + Seq::<u8>::empty()
                    =~= spec_enc_rule(ts.deep_view()[i as int]));
            }
        }
    }
    proof {
        assert(ts.deep_view().take(n as int) =~= ts.deep_view());
    }
}

/// Reads `n` elements at `pos`, exactly as the specification decoder does.
pub fn dec_rules(data: &Vec<u8>, pos: usize, n: u64) -> (r: Option<(Vec<Rule>, usize)>)
    ensures
        match r {
            Some(vp) => spec_dec_rules(data@, pos as int, n as nat) == Some(
                (vp.0.deep_view(), vp.1 as int),
            ),
            None => spec_dec_rules(data@, pos as int, n as nat) is None,
        },
    decreases n,
{
    if n == 0 {
        let empty: Vec<Rule> = Vec::new();
        assert(empty.deep_view() =~= Seq::<RuleV>::empty());
        return Some((empty, pos));
    }
    let (t, p) = match dec_rule(data, pos) {
        None => {
            return None;
        },
        Some(vp) => vp,
    };
    let (mut rest, p2) = match dec_rules(data, p, n - 1) {
        None => {
            return None;
        },
        Some(vp) => vp,
    };
    let ghost rest_pre = rest;
    let ghost tg = t;
    rest.insert(0, t);
    proof {
        assert(rest@ == rest_pre@.insert(0, tg));
        assert forall|k: int| 0 <= k < rest@.len() implies rest.deep_view()[k] == (seq![
            tg.deep_view(),
        ] + rest_pre.deep_view())[k] by {
            if k == 0 {
                assert(rest@[0] == tg);
            } else {
                assert(rest@[k] == rest_pre@[k - 1]);
            }
        }
        assert(rest.deep_view() =~= seq![tg.deep_view()] + rest_pre.deep_view());
    }
    Some((rest, p2))
}


} // verus!
