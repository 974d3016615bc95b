//! Canonical binary encoding: a strict CBOR profile in which every logical
//! value has exactly one byte sequence.
use vstd::prelude::*;
use vstd::relations::{sorted_by, total_ordering};
use vstd::utf8::{encode_utf8, decode_utf8, valid_utf8, decode_utf8_encode_utf8};
use vstd::arithmetic::power2::{pow2, lemma_pow2_unfold, lemma_pow2_adds, lemma_pow2_strictly_increases, lemma2_to64};
use vstd::arithmetic::mul::lemma_mul_inequality;

verus! {

/// Big-endian digits of `n` in base 256, exactly `k` of them.
pub open spec fn be_bytes(n: nat, k: nat) -> Seq<u8>
    decreases k,
{
    if k == 0 {
        Seq::empty()
    } else {
        be_bytes(n / 256, (k - 1) as nat).push((n % 256) as u8)
    }
}

/// The number whose big-endian base-256 digits are `s`.
pub open spec fn be_value(s: Seq<u8>) -> nat
    decreases s.len(),
{
    if s.len() == 0 {
        0
    } else {
        be_value(s.drop_last()) * 256 + s.last() as nat
    }
}

/// `256` to the power `k`.
pub open spec fn pow256(k: nat) -> nat
    decreases k,
{
    if k == 0 {
        1
    } else {
        256 * pow256((k - 1) as nat)
    }
}

/// The head of a data item: major type in the top three bits, then the
/// argument `n` in the shortest form that holds it.
pub open spec fn head(major: u8, n: nat) -> Seq<u8> {
    let m = major as nat * 32;
    if n < 24 {
        seq![(m + n) as u8]
    } else if n < 0x100 {
        seq![(m + 24) as u8] + be_bytes(n, 1)
    } else if n < 0x1_0000 {
        seq![(m + 25) as u8] + be_bytes(n, 2)
    } else if n < 0x1_0000_0000 {
        seq![(m + 26) as u8] + be_bytes(n, 4)
    } else {
        seq![(m + 27) as u8] + be_bytes(n, 8)
    }
}

pub proof fn lemma_be_value_bound(s: Seq<u8>)
    ensures
        be_value(s) < pow256(s.len()),
    decreases s.len(),
{
    if s.len() > 0 {
        lemma_be_value_bound(s.drop_last());
        let a = be_value(s.drop_last());
        let p = pow256((s.len() - 1) as nat);
        assert(a * 256 + s.last() < p * 256) by (nonlinear_arith)
            requires a < p, s.last() < 256;
    }
}

pub proof fn lemma_be_bytes_of_value(s: Seq<u8>)
    ensures
        be_bytes(be_value(s), s.len()) == s,
    decreases s.len(),
{
    if s.len() > 0 {
        let a = be_value(s.drop_last());
        let n = be_value(s);
        assert(n / 256 == a && n % 256 == s.last()) by (nonlinear_arith)
            requires n == a * 256 + s.last(), s.last() < 256;
        lemma_be_bytes_of_value(s.drop_last());
        assert(s.drop_last().push(s.last()) =~= s);
    }
}

/// Appends the `k` big-endian bytes of `n`.
fn write_be(n: u64, k: usize, out: &mut Vec<u8>)
    requires
        k <= 8,
    ensures
        final(out)@ == old(out)@ + be_bytes(n as nat, k as nat),
    decreases k,
{
    if k == 0 {
        assert(old(out)@ + be_bytes(n as nat, 0) =~= old(out)@);
        return;
    }
    write_be(n / 256, k - 1, out);
    out.push((n % 256) as u8);
    assert(be_bytes(n as nat, k as nat) == be_bytes((n / 256) as nat, (k - 1) as nat).push((n % 256) as u8));
    assert(final(out)@ =~= old(out)@ + be_bytes(n as nat, k as nat));
}

/// Appends the head of a data item with major type `major` and argument `n`.
pub fn write_major(major: u8, n: u64, out: &mut Vec<u8>)
    requires
        major <= 7,
    ensures
        final(out)@ == old(out)@ + head(major, n as nat),
{
    let m: u8 = major * 32;
    if n < 24 {
        out.push(m + n as u8);
        assert(final(out)@ =~= old(out)@ + head(major, n as nat));
    } else {
        let (ai, k): (u8, usize) = if n < 0x100 {
            (24, 1)
        } else if n < 0x1_0000 {
            (25, 2)
        } else if n < 0x1_0000_0000 {
            (26, 4)
        } else {
            (27, 8)
        };
        out.push(m + ai);
        let ghost mid = out@;
        write_be(n, k, out);
        assert(final(out)@ =~= old(out)@ + head(major, n as nat));
    }
}


// --- Byte order ------------------------------------------------------------

/// Lexicographic order on byte strings: the first differing byte decides, and
/// a proper prefix comes first.
pub open spec fn lex_lt(a: Seq<u8>, b: Seq<u8>) -> bool
    decreases a.len(),
{
    if a.len() == 0 {
        b.len() != 0
    } else if b.len() == 0 {
        false
    } else if a[0] != b[0] {
        a[0] < b[0]
    } else {
        lex_lt(a.drop_first(), b.drop_first())
    }
}

pub open spec fn lex_le(a: Seq<u8>, b: Seq<u8>) -> bool {
    a == b || lex_lt(a, b)
}

pub proof fn lemma_lex_irreflexive(a: Seq<u8>)
    ensures
        !lex_lt(a, a),
    decreases a.len(),
{
    if a.len() > 0 {
        lemma_lex_irreflexive(a.drop_first());
    }
}

pub proof fn lemma_lex_asymmetric(a: Seq<u8>, b: Seq<u8>)
    ensures
        !(lex_lt(a, b) && lex_lt(b, a)),
    decreases a.len(),
{
    if a.len() > 0 && b.len() > 0 && a[0] == b[0] {
        lemma_lex_asymmetric(a.drop_first(), b.drop_first());
    }
}

pub proof fn lemma_lex_transitive(a: Seq<u8>, b: Seq<u8>, c: Seq<u8>)
    requires
        lex_lt(a, b),
        lex_lt(b, c),
    ensures
        lex_lt(a, c),
    decreases a.len(),
{
    if a.len() > 0 && b.len() > 0 && c.len() > 0 && a[0] == b[0] && b[0] == c[0] {
        lemma_lex_transitive(a.drop_first(), b.drop_first(), c.drop_first());
    }
}

pub proof fn lemma_lex_total(a: Seq<u8>, b: Seq<u8>)
    ensures
        a == b || lex_lt(a, b) || lex_lt(b, a),
    decreases a.len(),
{
    if a.len() > 0 && b.len() > 0 && a[0] == b[0] {
        lemma_lex_total(a.drop_first(), b.drop_first());
        if a.drop_first() == b.drop_first() {
            assert(a =~= seq![a[0]] + a.drop_first());
            assert(b =~= seq![b[0]] + b.drop_first());
        }
    } else if a.len() == 0 && b.len() == 0 {
        assert(a =~= b);
    }
}

/// Order on encoded map entries: by key bytes, then by value bytes.
pub open spec fn entry_le(p: (Seq<u8>, Seq<u8>), q: (Seq<u8>, Seq<u8>)) -> bool {
    lex_lt(p.0, q.0) || (p.0 == q.0 && lex_le(p.1, q.1))
}

/// Entries with strictly ascending keys are already in sorted order.
pub proof fn lemma_ascending_is_sorted(z: Seq<(Seq<u8>, Seq<u8>)>)
    requires
        keys_ascending(z),
    ensures
        z.sort_by(entry_order()) == z,
{
    lemma_entry_le_total();
    assert(sorted_by(z, entry_order())) by {
        assert forall|a: int, b: int| 0 <= a < b < z.len() implies #[trigger] entry_order()(z[a], z[b]) by {
            assert(lex_lt(z[a].0, z[b].0));
        }
    }
    z.lemma_sort_by_ensures(entry_order());
    vstd::seq_lib::lemma_sorted_unique(z, z.sort_by(entry_order()), entry_order());
}

pub open spec fn entry_order() -> spec_fn((Seq<u8>, Seq<u8>), (Seq<u8>, Seq<u8>)) -> bool {
    |p: (Seq<u8>, Seq<u8>), q: (Seq<u8>, Seq<u8>)| entry_le(p, q)
}

pub proof fn lemma_entry_le_total()
    ensures
        total_ordering(entry_order()),
{
    let leq = entry_order();
    assert forall|p: (Seq<u8>, Seq<u8>)| #[trigger] leq(p, p) by {}
    assert forall|p: (Seq<u8>, Seq<u8>), q: (Seq<u8>, Seq<u8>)|
        #[trigger] leq(p, q) && #[trigger] leq(q, p) implies p == q by {
        lemma_lex_asymmetric(p.0, q.0);
        lemma_lex_irreflexive(p.0);
        lemma_lex_asymmetric(p.1, q.1);
    }
    assert forall|p: (Seq<u8>, Seq<u8>), q: (Seq<u8>, Seq<u8>), r: (Seq<u8>, Seq<u8>)|
        #[trigger] leq(p, q) && #[trigger] leq(q, r) implies leq(p, r) by {
        if lex_lt(p.0, q.0) && lex_lt(q.0, r.0) {
            lemma_lex_transitive(p.0, q.0, r.0);
        }
        if p.0 == q.0 && q.0 == r.0 && lex_lt(p.1, q.1) && lex_lt(q.1, r.1) {
            lemma_lex_transitive(p.1, q.1, r.1);
        }
    }
    assert forall|p: (Seq<u8>, Seq<u8>), q: (Seq<u8>, Seq<u8>)| #[trigger] leq(p, q) || #[trigger] leq(q, p) by {
        lemma_lex_total(p.0, q.0);
        lemma_lex_total(p.1, q.1);
    }
}

/// The byte strings of `s` joined end to end.
pub open spec fn concat(s: Seq<Seq<u8>>) -> Seq<u8>
    decreases s.len(),
{
    if s.len() == 0 {
        Seq::empty()
    } else {
        concat(s.drop_last()) + s.last()
    }
}

/// Errors of the canonical codec.
#[derive(Debug, Clone, PartialEq, Eq)]
pub enum CanonicalError {
    Incomplete,
    Trailing,
    Tag,
    Indefinite,
    NonCanonicalInt,
    NonCanonicalFloat,
    FloatShouldBeInt,
    MapKeyOrder,
    DuplicateKey,
    Decode(String),
}

// --- Logical values ----------------------------------------------------------

/// A logical value of the data model: integers in `-2^64 .. 2^64`, byte and
/// text strings, IEEE-754 binary64 floats held as their bit pattern, arrays,
/// maps as entry lists, booleans and null.
#[derive(Debug, PartialEq)]
pub enum Value {
    Integer(i128),
    Bytes(Vec<u8>),
    Float(u64),
    Text(String),
    Array(Vec<Value>),
    Mapping(Vec<(Value, Value)>),
    Bool(bool),
    Null,
}

/// Why a value has no canonical encoding.
#[derive(Debug, Clone, Copy, PartialEq, Eq)]
pub enum EncodeFault {
    /// Two keys of one map have the same encoding.
    DuplicateKey,
    /// An integer (or an integral float) lies outside `-2^64 .. 2^64`.
    OutOfRange,
}

pub open spec fn int_bytes(i: int) -> Option<Seq<u8>> {
    if 0 <= i < 0x1_0000_0000_0000_0000 {
        Some(head(0, i as nat))
    } else if -0x1_0000_0000_0000_0000 <= i < 0 {
        Some(head(1, (-1 - i) as nat))
    } else {
        None
    }
}

pub open spec fn float_exp(b: u64) -> nat {
    (b as nat / 0x10_0000_0000_0000) % 2048
}

pub open spec fn float_frac(b: u64) -> nat {
    b as nat % 0x10_0000_0000_0000
}

pub open spec fn float_negative(b: u64) -> bool {
    b as nat >= 0x8000_0000_0000_0000
}

/// The canonical form of a float: one quiet NaN, zeros and subnormals to `+0`.
pub open spec fn canonical_float(b: u64) -> u64 {
    if float_exp(b) == 2047 && float_frac(b) != 0 {
        0x7FF8_0000_0000_0000
    } else if float_exp(b) == 0 {
        0
    } else {
        b
    }
}

/// The magnitude of a finite float whose value is a whole number.
pub open spec fn integral_magnitude(b: u64) -> Option<nat> {
    let e = float_exp(b);
    let m = float_frac(b) + 0x10_0000_0000_0000;
    if e == 2047 {
        None
    } else if e == 0 {
        if float_frac(b) == 0 { Some(0) } else { None }
    } else if e >= 1075 {
        Some(m * pow2((e - 1075) as nat))
    } else if m % pow2((1075 - e) as nat) == 0 {
        Some(m / pow2((1075 - e) as nat))
    } else {
        None
    }
}

/// A float that must travel as an integer: finite, whole, and within the
/// range of a 128-bit signed integer.
pub open spec fn should_be_int(b: u64) -> bool {
    integral_magnitude(b) matches Some(k) && k <= pow2(127)
}

pub open spec fn float_encoding(b: u64) -> Result<Seq<u8>, EncodeFault> {
    let c = canonical_float(b);
    if should_be_int(c) {
        let k = integral_magnitude(c)->Some_0;
        let i: int = if float_negative(c) { -k } else { k as int };
        match int_bytes(i) {
            Some(s) => Ok(s),
            None => Err(EncodeFault::OutOfRange),
        }
    } else {
        Ok(seq![0xfbu8] + be_bytes(c as nat, 8))
    }
}

/// Map entries as (key bytes, value bytes) pairs.
pub open spec fn zip_entries(ks: Seq<Seq<u8>>, vs: Seq<Seq<u8>>) -> Seq<(Seq<u8>, Seq<u8>)> {
    Seq::new(ks.len(), |i: int| (ks[i], vs[i]))
}

pub open spec fn join_entries(s: Seq<(Seq<u8>, Seq<u8>)>) -> Seq<u8> {
    concat(s.map_values(|p: (Seq<u8>, Seq<u8>)| p.0 + p.1))
}

/// Entries whose keys strictly ascend, so no two keys are equal.
pub open spec fn keys_ascending(s: Seq<(Seq<u8>, Seq<u8>)>) -> bool {
    forall|i: int, j: int| 0 <= i < j < s.len() ==> lex_lt(#[trigger] s[i].0, #[trigger] s[j].0)
}

/// The canonical encoding of a value, or why it has none. Map entries come
/// in ascending order of their encoded keys.
/// Whether a length fits the 64-bit argument of a head.
pub open spec fn fits_head(n: nat) -> bool {
    n < 0x1_0000_0000_0000_0000
}

pub open spec fn enc(v: Value) -> Result<Seq<u8>, EncodeFault>
    decreases v,
{
    match v {
        Value::Integer(i) => match int_bytes(i as int) {
            Some(s) => Ok(s),
            None => Err(EncodeFault::OutOfRange),
        },
        Value::Bytes(b) => if fits_head(b@.len()) {
            Ok(head(2, b@.len()) + b@)
        } else {
            Err(EncodeFault::OutOfRange)
        },
        Value::Float(b) => float_encoding(b),
        Value::Text(t) => if fits_head(encode_utf8(t@).len()) {
            Ok(head(3, encode_utf8(t@).len()) + encode_utf8(t@))
        } else {
            Err(EncodeFault::OutOfRange)
        },
        Value::Array(items) => match enc_seq(items@) {
            Ok(parts) => if fits_head(items@.len()) {
                Ok(head(4, items@.len()) + concat(parts))
            } else {
                Err(EncodeFault::OutOfRange)
            },
            Err(f) => Err(f),
        },
        Value::Mapping(entries) => match enc_keys(entries@) {
            Err(f) => Err(f),
            Ok(ks) => match enc_vals(entries@) {
                Err(f) => Err(f),
                Ok(vs) => {
                    let sorted = zip_entries(ks, vs).sort_by(entry_order());
                    if !fits_head(entries@.len()) {
                        Err(EncodeFault::OutOfRange)
                    } else if keys_ascending(sorted) {
                        Ok(head(5, entries@.len()) + join_entries(sorted))
                    } else {
                        Err(EncodeFault::DuplicateKey)
                    }
                },
            },
        },
        Value::Bool(b) => Ok(if b { seq![0xf5u8] } else { seq![0xf4u8] }),
        Value::Null => Ok(seq![0xf6u8]),
    }
}

/// The encodings of the items, or the fault of the first that has none.
pub open spec fn enc_seq(s: Seq<Value>) -> Result<Seq<Seq<u8>>, EncodeFault>
    decreases s,
{
    if s.len() == 0 {
        Ok(Seq::empty())
    } else {
        match enc_seq(s.subrange(0, s.len() - 1)) {
            Err(f) => Err(f),
            Ok(init) => match enc(s[s.len() - 1]) {
                Err(f) => Err(f),
                Ok(b) => Ok(init.push(b)),
            },
        }
    }
}

pub open spec fn enc_keys(s: Seq<(Value, Value)>) -> Result<Seq<Seq<u8>>, EncodeFault>
    decreases s,
{
    if s.len() == 0 {
        Ok(Seq::empty())
    } else {
        match enc_keys(s.subrange(0, s.len() - 1)) {
            Err(f) => Err(f),
            Ok(init) => match enc(s[s.len() - 1].0) {
                Err(f) => Err(f),
                Ok(b) => Ok(init.push(b)),
            },
        }
    }
}

pub open spec fn enc_vals(s: Seq<(Value, Value)>) -> Result<Seq<Seq<u8>>, EncodeFault>
    decreases s,
{
    if s.len() == 0 {
        Ok(Seq::empty())
    } else {
        match enc_vals(s.subrange(0, s.len() - 1)) {
            Err(f) => Err(f),
            Ok(init) => match enc(s[s.len() - 1].1) {
                Err(f) => Err(f),
                Ok(b) => Ok(init.push(b)),
            },
        }
    }
}


// --- Floats ----------------------------------------------------------------

proof fn lemma_pow2_facts()
    ensures
        pow2(52) == 0x10_0000_0000_0000,
        pow2(53) == 0x20_0000_0000_0000,
        pow2(127) == 0x8000_0000_0000_0000_0000_0000_0000_0000,
        pow2(128) == 0x1_0000_0000_0000_0000_0000_0000_0000_0000,
{
    lemma2_to64();
    lemma_pow2_adds(32, 20);
    lemma_pow2_adds(32, 21);
    lemma_pow2_adds(64, 63);
    lemma_pow2_adds(32, 31);
    lemma_pow2_adds(64, 64);
}

/// `2^s` for a small `s`.
fn pow2_u128(s: u64) -> (r: u128)
    requires
        s < 128,
    ensures
        r as nat == pow2(s as nat),
{
    let mut r: u128 = 1;
    let mut i: u64 = 0;
    proof {
        lemma2_to64();
        lemma_pow2_facts();
    }
    while i < s
        invariant
            i <= s < 128,
            r as nat == pow2(i as nat),
            pow2(128) == 0x1_0000_0000_0000_0000_0000_0000_0000_0000,
        decreases s - i,
    {
        proof {
            lemma_pow2_unfold((i + 1) as nat);
            if i + 1 < 128 {
                lemma_pow2_strictly_increases((i + 1) as nat, 128);
            }
            assert(r * 2 == pow2((i + 1) as nat));
        }
        r = r * 2;
        i = i + 1;
    }
    r
}

/// Maps a float to its canonical form: one quiet NaN, `+0` for both zeros
/// and for every subnormal, anything else unchanged.
fn canonicalize_f64(b: u64) -> (r: u64)
    ensures
        r == canonical_float(b),
{
    let e: u64 = (b / 0x10_0000_0000_0000) % 2048;
    let f: u64 = b % 0x10_0000_0000_0000;
    if e == 2047 && f != 0 {
        0x7FF8_0000_0000_0000
    } else if e == 0 {
        0
    } else {
        b
    }
}

/// The magnitude of a float that must travel as an integer (see
/// `should_be_int`), or `None` for any other float.
fn whole_magnitude(b: u64) -> (r: Option<u128>)
    ensures
        r is Some <==> should_be_int(b),
        r matches Some(k) ==> integral_magnitude(b) == Some(k as nat),
{
    proof {
        lemma_pow2_facts();
    }
    let e: u64 = (b / 0x10_0000_0000_0000) % 2048;
    let f: u64 = b % 0x10_0000_0000_0000;
    if e == 2047 {
        return None;
    }
    if e == 0 {
        if f == 0 {
            return Some(0);
        } else {
            return None;
        }
    }
    let m: u128 = (f + 0x10_0000_0000_0000) as u128;
    if e >= 1075 {
        let s: u64 = e - 1075;
        if s > 75 {
            proof {
                if s > 76 {
                    lemma_pow2_strictly_increases(76, s as nat);
                }
                lemma_pow2_adds(52, 76);
                lemma_mul_inequality(pow2(52) as int, m as int, pow2(s as nat) as int);
                lemma_mul_inequality(pow2(76) as int, pow2(s as nat) as int, pow2(52) as int);
                assert(pow2(52) * pow2(76) == pow2(76) * pow2(52)) by (nonlinear_arith);
            }
            return None;
        }
        let p = pow2_u128(s);
        match m.checked_mul(p) {
            None => None,
            Some(k) => {
                if k > 0x8000_0000_0000_0000_0000_0000_0000_0000 {
                    None
                } else {
                    Some(k)
                }
            },
        }
    } else {
        let s: u64 = 1075 - e;
        if s >= 53 {
            proof {
                if s > 53 {
                    lemma_pow2_strictly_increases(53, s as nat);
                }
                assert(m as nat % pow2(s as nat) == m as nat) by {
                    vstd::arithmetic::div_mod::lemma_small_mod(m as nat, pow2(s as nat));
                }
            }
            return None;
        }
        let p = pow2_u128(s);
        proof {
            vstd::arithmetic::power2::lemma_pow2_pos(s as nat);
        }
        if m % p == 0 {
            proof {
                assert(m / p <= m) by {
                    vstd::arithmetic::div_mod::lemma_div_is_ordered_by_denominator(m as int, 1, p as int);
                }
            }
            Some(m / p)
        } else {
            None
        }
    }
}

// --- Encoder -----------------------------------------------------------------

/// The error reported for an encoding fault.
pub open spec fn reports(e: CanonicalError, f: EncodeFault) -> bool {
    match f {
        EncodeFault::DuplicateKey => e is DuplicateKey,
        EncodeFault::OutOfRange => e is Decode,
    }
}

fn out_of_range() -> (e: CanonicalError)
    ensures
        e is Decode,
{
    CanonicalError::Decode("integer outside the encodable range".to_string())
}

/// Appends the encoding of the integer `n`.
fn enc_int(n: i128, out: &mut Vec<u8>) -> (r: Result<(), CanonicalError>)
    ensures
        match int_bytes(n as int) {
            Some(b) => r is Ok && final(out)@ == old(out)@ + b,
            None => r matches Err(e) && e is Decode && final(out)@ == old(out)@,
        },
{
    if n >= 0 {
        if n >= 0x1_0000_0000_0000_0000 {
            return Err(out_of_range());
        }
        write_major(0, n as u64, out);
    } else {
        if n < -0x1_0000_0000_0000_0000 {
            return Err(out_of_range());
        }
        let m: i128 = -1 - n;
        write_major(1, m as u64, out);
    }
    Ok(())
}

/// Appends the encoding of a float: whole values within range as integers,
/// everything else as a canonical 64-bit float.
fn enc_float(b: u64, out: &mut Vec<u8>) -> (r: Result<(), CanonicalError>)
    ensures
        match float_encoding(b) {
            Ok(s) => r is Ok && final(out)@ == old(out)@ + s,
            Err(f) => r matches Err(e) && reports(e, f),
        },
{
    let c = canonicalize_f64(b);
    match whole_magnitude(c) {
        Some(k) => {
            if k >= 0x1_0000_0000_0000_0001 {
                return Err(out_of_range());
            }
            let i: i128 = if c >= 0x8000_0000_0000_0000 { -(k as i128) } else { k as i128 };
            enc_int(i, out)
        },
        None => {
            out.push(0xfb);
            write_be(c, 8, out);
            assert(final(out)@ =~= old(out)@ + (seq![0xfbu8] + be_bytes(c as nat, 8)));
            Ok(())
        },
    }
}


// --- Byte string helpers -----------------------------------------------------

proof fn lemma_lex_skip(a: Seq<u8>, b: Seq<u8>, i: int)
    requires
        0 <= i <= a.len(),
        i <= b.len(),
        a.subrange(0, i) == b.subrange(0, i),
    ensures
        lex_lt(a, b) == lex_lt(a.subrange(i, a.len() as int), b.subrange(i, b.len() as int)),
    decreases i,
{
    if i > 0 {
        assert(a[0] == a.subrange(0, i)[0]);
        assert(b[0] == b.subrange(0, i)[0]);
        assert(a.drop_first().subrange(0, i - 1) =~= a.subrange(0, i).drop_first());
        assert(b.drop_first().subrange(0, i - 1) =~= b.subrange(0, i).drop_first());
        lemma_lex_skip(a.drop_first(), b.drop_first(), i - 1);
        assert(a.drop_first().subrange(i - 1, a.len() - 1) =~= a.subrange(i, a.len() as int));
        assert(b.drop_first().subrange(i - 1, b.len() - 1) =~= b.subrange(i, b.len() as int));
    } else {
        assert(a.subrange(0, a.len() as int) =~= a);
        assert(b.subrange(0, b.len() as int) =~= b);
    }
}

/// Three-way lexicographic comparison of byte strings: negative, zero or
/// positive as `a` comes before, equals, or comes after `b`.
pub fn lex_cmp(a: &[u8], b: &[u8]) -> (r: i8)
    ensures
        r < 0 <==> lex_lt(a@, b@),
        r == 0 <==> a@ == b@,
        r > 0 <==> lex_lt(b@, a@),
{
    let mut i: usize = 0;
    while i < a.len() && i < b.len() && a[i] == b[i]
        invariant
            i <= a@.len(),
            i <= b@.len(),
            a@.subrange(0, i as int) == b@.subrange(0, i as int),
        decreases a.len() - i,
    {
        assert(a@.subrange(0, i + 1) =~= a@.subrange(0, i as int).push(a@[i as int]));
        assert(b@.subrange(0, i + 1) =~= b@.subrange(0, i as int).push(b@[i as int]));
        i = i + 1;
    }
    proof {
        lemma_lex_skip(a@, b@, i as int);
        lemma_lex_skip(b@, a@, i as int);
        lemma_lex_asymmetric(a@, b@);
        lemma_lex_irreflexive(a@);
    }
    if i < a.len() && i < b.len() {
        if a[i] < b[i] {
            -1
        } else {
            1
        }
    } else if i < b.len() {
        -1
    } else if i < a.len() {
        1
    } else {
        assert(a@ =~= a@.subrange(0, i as int));
        assert(b@ =~= b@.subrange(0, i as int));
        0
    }
}

/// Appends all of `src`.
pub fn push_all(out: &mut Vec<u8>, src: &[u8])
    ensures
        final(out)@ == old(out)@ + src@,
{
    let mut i: usize = 0;
    while i < src.len()
        invariant
            i <= src@.len(),
            out@ == old(out)@ + src@.subrange(0, i as int),
        decreases src.len() - i,
    {
        out.push(src[i]);
        assert(src@.subrange(0, i + 1) =~= src@.subrange(0, i as int).push(src@[i as int]));
        i = i + 1;
    }
    assert(src@.subrange(0, i as int) =~= src@);
}

/// A fresh copy of `src`.
pub fn copy_bytes(src: &[u8]) -> (r: Vec<u8>)
    ensures
        r@ == src@,
{
    let mut r: Vec<u8> = Vec::new();
    push_all(&mut r, src);
    assert(r@ =~= src@);
    r
}

pub open spec fn views(s: Seq<Vec<u8>>) -> Seq<Seq<u8>> {
    s.map_values(|x: Vec<u8>| x@)
}

pub open spec fn pair_views(s: Seq<(Vec<u8>, Vec<u8>)>) -> Seq<(Seq<u8>, Seq<u8>)> {
    s.map_values(|p: (Vec<u8>, Vec<u8>)| (p.0@, p.1@))
}

/// Whether the keys of sorted entries strictly ascend.
fn keys_ascending_exec(sorted: &Vec<(Vec<u8>, Vec<u8>)>) -> (r: bool)
    ensures
        r == keys_ascending(pair_views(sorted@)),
{
    let ghost sv = pair_views(sorted@);
    let mut i: usize = 1;
    while i < sorted.len()
        invariant
            1 <= i,
            sv == pair_views(sorted@),
            forall|a: int, b: int| 0 <= a < b < i && b < sv.len() ==> lex_lt(#[trigger] sv[a].0, #[trigger] sv[b].0),
        decreases sorted.len() - i,
    {
        if lex_cmp(sorted[i - 1].0.as_slice(), sorted[i].0.as_slice()) >= 0 {
            proof {
                lemma_lex_asymmetric(sv[i - 1].0, sv[i as int].0);
                lemma_lex_irreflexive(sv[i as int].0);
                assert(!lex_lt(sv[i - 1].0, sv[i as int].0));
            }
            return false;
        }
        proof {
            assert forall|a: int, b: int| 0 <= a < b < i + 1 && b < sv.len() implies lex_lt(#[trigger] sv[a].0, #[trigger] sv[b].0) by {
                if b == i && a < i - 1 {
                    lemma_lex_transitive(sv[a].0, sv[i - 1].0, sv[b].0);
                }
            }
        }
        i = i + 1;
    }
    true
}

fn entry_le_exec(p: &(Vec<u8>, Vec<u8>), q: &(Vec<u8>, Vec<u8>)) -> (r: bool)
    ensures
        r == entry_le((p.0@, p.1@), (q.0@, q.1@)),
{
    let c = lex_cmp(p.0.as_slice(), q.0.as_slice());
    if c < 0 {
        true
    } else if c > 0 {
        proof {
            lemma_lex_asymmetric(p.0@, q.0@);
        }
        false
    } else {
        proof {
            lemma_lex_irreflexive(p.0@);
        }
        lex_cmp(p.1.as_slice(), q.1.as_slice()) <= 0
    }
}

/// Entries sorted by key bytes (then value bytes).
pub fn sort_entries(ks: &Vec<Vec<u8>>, vs: &Vec<Vec<u8>>) -> (r: Vec<(Vec<u8>, Vec<u8>)>)
    requires
        ks@.len() == vs@.len(),
    ensures
        pair_views(r@) == zip_entries(views(ks@), views(vs@)).sort_by(entry_order()),
{
    let ghost leq = entry_order();
    let ghost all = zip_entries(views(ks@), views(vs@));
    proof {
        lemma_entry_le_total();
    }
    let mut r: Vec<(Vec<u8>, Vec<u8>)> = Vec::new();
    let mut i: usize = 0;
    assert(pair_views(r@) =~= all.subrange(0, 0));
    while i < ks.len()
        invariant
            ks@.len() == vs@.len(),
            i <= ks@.len(),
            leq == entry_order(),
            total_ordering(leq),
            all == zip_entries(views(ks@), views(vs@)),
            sorted_by(pair_views(r@), leq),
            pair_views(r@).to_multiset() == all.subrange(0, i as int).to_multiset(),
        decreases ks.len() - i,
    {
        let e = (copy_bytes(ks[i].as_slice()), copy_bytes(vs[i].as_slice()));
        let ghost ev = (e.0@, e.1@);
        assert(ev == all[i as int]);
        let mut j: usize = 0;
        loop
            invariant
                j <= r@.len(),
                ev == (e.0@, e.1@),
                forall|x: int| 0 <= x < j ==> entry_le(#[trigger] pair_views(r@)[x], ev),
            ensures
                j <= r@.len(),
                forall|x: int| 0 <= x < j ==> entry_le(#[trigger] pair_views(r@)[x], ev),
                j < r@.len() ==> !entry_le(pair_views(r@)[j as int], ev),
            decreases r.len() - j,
        {
            if j >= r.len() {
                break;
            }
            if !entry_le_exec(&r[j], &e) {
                break;
            }
            j = j + 1;
        }
        let ghost old_r = pair_views(r@);
        proof {
            if j < old_r.len() {
                assert(leq(old_r[j as int], ev) || leq(ev, old_r[j as int]));
            }
            assert forall|x: int| 0 <= x < j implies leq(old_r[x], ev) by {
                assert(entry_le(pair_views(r@)[x], ev));
            }
        }
        r.insert(j, e);
        proof {
            let nr = pair_views(r@);
            assert(nr =~= old_r.insert(j as int, ev));
            assert(j < old_r.len() ==> leq(ev, old_r[j as int]));
            assert forall|x: int, y: int| 0 <= x < y < nr.len() implies #[trigger] leq(nr[x], nr[y]) by {
                if x < j && y == j {
                } else if x < j && y > j {
                    assert(leq(old_r[x], ev));
                    assert(leq(ev, old_r[j as int]));
                    assert(leq(old_r[j as int], old_r[y - 1]) || j as int == y - 1);
                } else if x == j {
                    if j as int != y - 1 {
                        assert(leq(old_r[j as int], old_r[y - 1]));
                    }
                } else {
                }
            }
            vstd::seq_lib::to_multiset_insert(old_r, j as int, ev);
            assert(all.subrange(0, i + 1) =~= all.subrange(0, i as int).push(ev));
            vstd::seq_lib::to_multiset_build(all.subrange(0, i as int), ev);
        }
        i = i + 1;
    }
    proof {
        assert(all.subrange(0, i as int) =~= all);
        all.lemma_sort_by_ensures(leq);
        vstd::seq_lib::lemma_sorted_unique(pair_views(r@), all.sort_by(leq), leq);
    }
    r
}


pub proof fn lemma_concat_push(s: Seq<Seq<u8>>, b: Seq<u8>)
    ensures
        concat(s.push(b)) == concat(s) + b,
{
    assert(s.push(b).drop_last() =~= s);
}

proof fn lemma_join_step(s: Seq<(Seq<u8>, Seq<u8>)>, j: int)
    requires
        0 <= j < s.len(),
    ensures
        join_entries(s.subrange(0, j + 1)) == join_entries(s.subrange(0, j)) + s[j].0 + s[j].1,
{
    let f = |p: (Seq<u8>, Seq<u8>)| p.0 + p.1;
    assert(s.subrange(0, j + 1).map_values(f) =~= s.subrange(0, j).map_values(f).push(s[j].0 + s[j].1));
    lemma_concat_push(s.subrange(0, j).map_values(f), s[j].0 + s[j].1);
    assert(join_entries(s.subrange(0, j)) + s[j].0 + s[j].1 =~= join_entries(s.subrange(0, j)) + (s[j].0 + s[j].1));
}

proof fn lemma_enc_seq_err(s: Seq<Value>, k: int, f: EncodeFault)
    requires
        0 <= k <= s.len(),
        enc_seq(s.subrange(0, k)) == Err::<Seq<Seq<u8>>, EncodeFault>(f),
    ensures
        enc_seq(s) == Err::<Seq<Seq<u8>>, EncodeFault>(f),
    decreases s.len() - k,
{
    if k < s.len() {
        assert(s.subrange(0, k + 1).subrange(0, k) =~= s.subrange(0, k));
        lemma_enc_seq_err(s, k + 1, f);
    } else {
        assert(s.subrange(0, k) =~= s);
    }
}

proof fn lemma_enc_keys_err(s: Seq<(Value, Value)>, k: int, f: EncodeFault)
    requires
        0 <= k <= s.len(),
        enc_keys(s.subrange(0, k)) == Err::<Seq<Seq<u8>>, EncodeFault>(f),
    ensures
        enc_keys(s) == Err::<Seq<Seq<u8>>, EncodeFault>(f),
    decreases s.len() - k,
{
    if k < s.len() {
        assert(s.subrange(0, k + 1).subrange(0, k) =~= s.subrange(0, k));
        lemma_enc_keys_err(s, k + 1, f);
    } else {
        assert(s.subrange(0, k) =~= s);
    }
}

proof fn lemma_enc_vals_err(s: Seq<(Value, Value)>, k: int, f: EncodeFault)
    requires
        0 <= k <= s.len(),
        enc_vals(s.subrange(0, k)) == Err::<Seq<Seq<u8>>, EncodeFault>(f),
    ensures
        enc_vals(s) == Err::<Seq<Seq<u8>>, EncodeFault>(f),
    decreases s.len() - k,
{
    if k < s.len() {
        assert(s.subrange(0, k + 1).subrange(0, k) =~= s.subrange(0, k));
        lemma_enc_vals_err(s, k + 1, f);
    } else {
        assert(s.subrange(0, k) =~= s);
    }
}

/// Appends the canonical encoding of `v`.
fn enc_value(v: &Value, out: &mut Vec<u8>) -> (r: Result<(), CanonicalError>)
    ensures
        match enc(*v) {
            Ok(b) => r is Ok && final(out)@ == old(out)@ + b,
            Err(f) => r matches Err(e) && reports(e, f),
        },
    decreases v,
{
    match v {
        Value::Integer(n) => enc_int(*n, out),
        Value::Bytes(b) => {
            write_major(2, b.len() as u64, out);
            push_all(out, b.as_slice());
            assert(final(out)@ =~= old(out)@ + (head(2, b@.len()) + b@));
            Ok(())
        },
        Value::Float(b) => enc_float(*b, out),
        Value::Text(t) => {
            let bytes = t.as_str().as_bytes();
            write_major(3, bytes.len() as u64, out);
            push_all(out, bytes);
            assert(final(out)@ =~= old(out)@ + (head(3, encode_utf8(t@).len()) + encode_utf8(t@)));
            Ok(())
        },
        Value::Array(items) => {
            write_major(4, items.len() as u64, out);
            let ghost start = out@;
            let mut i: usize = 0;
            assert(items@.subrange(0, 0) =~= Seq::<Value>::empty());
            assert(start =~= start + concat(Seq::<Seq<u8>>::empty()));
            while i < items.len()
                invariant
                    *v == Value::Array(*items),
                    i <= items@.len(),
                    start == old(out)@ + head(4, items@.len()),
                    enc_seq(items@.subrange(0, i as int)) matches Ok(parts) && out@ == start + concat(parts),
                decreases items.len() - i,
            {
                let ghost prev = enc_seq(items@.subrange(0, i as int))->Ok_0;
                assert(items@.subrange(0, i + 1).subrange(0, i as int) =~= items@.subrange(0, i as int));
                assert(decreases_to!(*v => items@[i as int]));
                match enc_value(&items[i], out) {
                    Ok(()) => {
                        proof {
                            lemma_concat_push(prev, enc(items@[i as int])->Ok_0);
                            assert(out@ =~= start + concat(prev.push(enc(items@[i as int])->Ok_0)));
                        }
                    },
                    Err(e) => {
                        proof {
                            lemma_enc_seq_err(items@, i + 1, enc(items@[i as int])->Err_0);
                        }
                        return Err(e);
                    },
                }
                i = i + 1;
            }
            assert(items@.subrange(0, i as int) =~= items@);
            assert(out@ =~= old(out)@ + (head(4, items@.len()) + concat(enc_seq(items@)->Ok_0)));
            Ok(())
        },
        Value::Mapping(entries) => {
            let n = entries.len();
            let mut ks: Vec<Vec<u8>> = Vec::new();
            let mut i: usize = 0;
            assert(entries@.subrange(0, 0) =~= Seq::<(Value, Value)>::empty());
            assert(views(ks@) =~= Seq::<Seq<u8>>::empty());
            while i < n
                invariant
                    *v == Value::Mapping(*entries),
                    n == entries@.len(),
                    i <= n,
                    ks@.len() == i,
                    enc_keys(entries@.subrange(0, i as int)) == Ok::<Seq<Seq<u8>>, EncodeFault>(views(ks@)),
                decreases n - i,
            {
                assert(entries@.subrange(0, i + 1).subrange(0, i as int) =~= entries@.subrange(0, i as int));
                let mut kb: Vec<u8> = Vec::new();
                assert(decreases_to!(*v => entries@[i as int].0));
                match enc_value(&entries[i].0, &mut kb) {
                    Ok(()) => {},
                    Err(e) => {
                        proof {
                            lemma_enc_keys_err(entries@, i + 1, enc(entries@[i as int].0)->Err_0);
                        }
                        return Err(e);
                    },
                }
                assert(kb@ =~= Seq::<u8>::empty() + enc(entries@[i as int].0)->Ok_0);
                ks.push(kb);
                assert(views(ks@) =~= enc_keys(entries@.subrange(0, i + 1))->Ok_0);
                i = i + 1;
            }
            assert(entries@.subrange(0, n as int) =~= entries@);
            let mut vs: Vec<Vec<u8>> = Vec::new();
            let mut i: usize = 0;
            assert(views(vs@) =~= Seq::<Seq<u8>>::empty());
            while i < n
                invariant
                    *v == Value::Mapping(*entries),
                    n == entries@.len(),
                    i <= n,
                    ks@.len() == n,
                    vs@.len() == i,
                    enc_keys(entries@) == Ok::<Seq<Seq<u8>>, EncodeFault>(views(ks@)),
                    enc_vals(entries@.subrange(0, i as int)) == Ok::<Seq<Seq<u8>>, EncodeFault>(views(vs@)),
                decreases n - i,
            {
                assert(entries@.subrange(0, i + 1).subrange(0, i as int) =~= entries@.subrange(0, i as int));
                let mut vb: Vec<u8> = Vec::new();
                assert(decreases_to!(*v => entries@[i as int].1));
                match enc_value(&entries[i].1, &mut vb) {
                    Ok(()) => {},
                    Err(e) => {
                        proof {
                            lemma_enc_vals_err(entries@, i + 1, enc(entries@[i as int].1)->Err_0);
                        }
                        return Err(e);
                    },
                }
                assert(vb@ =~= Seq::<u8>::empty() + enc(entries@[i as int].1)->Ok_0);
                vs.push(vb);
                assert(views(vs@) =~= enc_vals(entries@.subrange(0, i + 1))->Ok_0);
                i = i + 1;
            }
            assert(entries@.subrange(0, n as int) =~= entries@);
            let sorted = sort_entries(&ks, &vs);
            let ghost sv = pair_views(sorted@);
            if !keys_ascending_exec(&sorted) {
                return Err(CanonicalError::DuplicateKey);
            }
            write_major(5, n as u64, out);
            let ghost start = out@;
            let mut j: usize = 0;
            assert(sv.subrange(0, 0).map_values(|p: (Seq<u8>, Seq<u8>)| p.0 + p.1) =~= Seq::<Seq<u8>>::empty());
            assert(start =~= start + join_entries(sv.subrange(0, 0)));
            while j < sorted.len()
                invariant
                    j <= sorted@.len(),
                    sv == pair_views(sorted@),
                    out@ == start + join_entries(sv.subrange(0, j as int)),
                decreases sorted.len() - j,
            {
                push_all(out, sorted[j].0.as_slice());
                push_all(out, sorted[j].1.as_slice());
                proof {
                    lemma_join_step(sv, j as int);
                }
                assert(out@ =~= start + join_entries(sv.subrange(0, j + 1)));
                j = j + 1;
            }
            assert(sv.subrange(0, j as int) =~= sv);
            assert(out@ =~= old(out)@ + (head(5, n as nat) + join_entries(sv)));
            Ok(())
        },
        Value::Bool(b) => {
            out.push(if *b { 0xf5 } else { 0xf4 });
            assert(final(out)@ =~= old(out)@ + enc(*v)->Ok_0);
            Ok(())
        },
        Value::Null => {
            out.push(0xf6);
            assert(final(out)@ =~= old(out)@ + seq![0xf6u8]);
            Ok(())
        },
    }
}

/// Encodes a value canonically: shortest integer heads, definite lengths,
/// map entries in ascending order of their encoded keys, integral floats as
/// integers and other floats as canonical 64-bit floats.
pub fn encode(v: &Value) -> (r: Result<Vec<u8>, CanonicalError>)
    ensures
        match enc(*v) {
            Ok(b) => r matches Ok(out) && out@ == b,
            Err(f) => r matches Err(e) && reports(e, f),
        },
{
    let mut out: Vec<u8> = Vec::new();
    match enc_value(v, &mut out) {
        Ok(()) => {
            assert(out@ =~= enc(*v)->Ok_0);
            Ok(out)
        },
        Err(e) => Err(e),
    }
}


/// Whether `p` holds `lit` at `pos`.
pub open spec fn holds_at(p: Seq<u8>, pos: int, lit: Seq<u8>) -> bool {
    0 <= pos && pos + lit.len() <= p.len() && p.subrange(pos, pos + lit.len()) == lit
}

pub proof fn lemma_holds_concat(p: Seq<u8>, pos: int, a: Seq<u8>, b: Seq<u8>)
    ensures
        holds_at(p, pos, a + b) <==> (holds_at(p, pos, a) && holds_at(p, pos + a.len(), b)),
{
    if holds_at(p, pos, a + b) {
        assert(p.subrange(pos, pos + a.len()) =~= (a + b).subrange(0, a.len() as int));
        assert((a + b).subrange(0, a.len() as int) =~= a);
        assert(p.subrange(pos + a.len(), pos + a.len() + b.len()) =~= (a + b).subrange(a.len() as int, (a + b).len() as int));
        assert((a + b).subrange(a.len() as int, (a + b).len() as int) =~= b);
    }
    if holds_at(p, pos, a) && holds_at(p, pos + a.len(), b) {
        assert(p.subrange(pos, pos + (a + b).len()) =~= p.subrange(pos, pos + a.len()) + p.subrange(pos + a.len(), pos + a.len() + b.len()));
    }
}

pub proof fn lemma_be_value_of_bytes(n: nat, k: nat)
    requires
        n < pow256(k),
    ensures
        be_value(be_bytes(n, k)) == n,
        be_bytes(n, k).len() == k,
    decreases k,
{
    if k > 0 {
        let q = n / 256;
        assert(q < pow256((k - 1) as nat)) by (nonlinear_arith)
            requires n < 256 * pow256((k - 1) as nat), q == n / 256;
        lemma_be_value_of_bytes(q, (k - 1) as nat);
        let b = be_bytes(n, k);
        assert(b.drop_last() =~= be_bytes(q, (k - 1) as nat));
    }
}

pub proof fn lemma_head_read(major: u8, v: u64)
    requires
        major <= 5,
    ensures
        ({
            let h = head(major, v as nat);
            let ai = (h[0] % 32) as u8;
            &&& h[0] / 32 == major
            &&& ai < 28
            &&& h.len() == 1 + arg_width(ai)
            &&& (ai < 24 ==> v == ai)
            &&& (ai >= 24 ==> be_value(h.subrange(1, h.len() as int)) == v && minimal_arg(ai, v as nat))
        }),
{
    lemma_pow256_values();
    let h = head(major, v as nat);
    if v >= 24 {
        let k: nat = if v < 0x100 { 1 } else if v < 0x1_0000 { 2 } else if v < 0x1_0000_0000 { 4 } else { 8 };
        lemma_be_value_of_bytes(v as nat, k);
        assert(h.subrange(1, h.len() as int) =~= be_bytes(v as nat, k));
    }
}

pub proof fn lemma_concat_split(s: Seq<Seq<u8>>, k: int)
    requires
        0 <= k <= s.len(),
    ensures
        concat(s) == concat(s.subrange(0, k)) + concat(s.subrange(k, s.len() as int)),
    decreases s.len() - k,
{
    if k == s.len() {
        assert(s.subrange(0, k) =~= s);
        assert(s.subrange(k, s.len() as int) =~= Seq::<Seq<u8>>::empty());
        assert(concat(s) + Seq::<u8>::empty() =~= concat(s));
    } else {
        lemma_concat_split(s, k + 1);
        let a = s.subrange(0, k);
        let b = s.subrange(k, s.len() as int);
        assert(s.subrange(0, k + 1) =~= a.push(s[k]));
        lemma_concat_push(a, s[k]);
        lemma_concat_first(b);
        assert(b.subrange(1, b.len() as int) =~= s.subrange(k + 1, s.len() as int));
        assert(concat(a) + s[k] + concat(s.subrange(k + 1, s.len() as int)) =~= concat(a) + (s[k] + concat(s.subrange(k + 1, s.len() as int))));
    }
}

pub proof fn lemma_concat_first(s: Seq<Seq<u8>>)
    requires
        s.len() > 0,
    ensures
        concat(s) == s[0] + concat(s.subrange(1, s.len() as int)),
    decreases s.len(),
{
    if s.len() == 1 {
        assert(s.drop_last() =~= Seq::<Seq<u8>>::empty());
        assert(s.subrange(1, 1) =~= Seq::<Seq<u8>>::empty());
        assert(Seq::<u8>::empty() + s[0] =~= s[0] + Seq::<u8>::empty());
    } else {
        lemma_concat_first(s.drop_last());
        assert(s.drop_last().subrange(1, s.len() - 1) =~= s.subrange(1, s.len() as int).drop_last());
        assert(s.subrange(1, s.len() as int).last() == s.last());
        assert(s[0] + concat(s.subrange(1, s.len() as int).drop_last()) + s.last() =~= s[0] + (concat(s.subrange(1, s.len() as int).drop_last()) + s.last()));
    }
}

/// The keys of `s` encode as `ks`.
pub proof fn lemma_enc_keys_of(s: Seq<(Value, Value)>, ks: Seq<Seq<u8>>)
    requires
        s.len() == ks.len(),
        forall|i: int| 0 <= i < s.len() ==> enc(#[trigger] s[i].0) == Ok::<Seq<u8>, EncodeFault>(ks[i]),
    ensures
        enc_keys(s) == Ok::<Seq<Seq<u8>>, EncodeFault>(ks),
    decreases s.len(),
{
    if s.len() > 0 {
        let n = s.len() - 1;
        lemma_enc_keys_of(s.subrange(0, n), ks.subrange(0, n));
        assert(ks.subrange(0, n).push(ks[n]) =~= ks);
    } else {
        assert(ks =~= Seq::<Seq<u8>>::empty());
    }
}

/// The values of `s` encode as `vs`.
pub proof fn lemma_enc_vals_of(s: Seq<(Value, Value)>, vs: Seq<Seq<u8>>)
    requires
        s.len() == vs.len(),
        forall|i: int| 0 <= i < s.len() ==> enc(#[trigger] s[i].1) == Ok::<Seq<u8>, EncodeFault>(vs[i]),
    ensures
        enc_vals(s) == Ok::<Seq<Seq<u8>>, EncodeFault>(vs),
    decreases s.len(),
{
    if s.len() > 0 {
        let n = s.len() - 1;
        lemma_enc_vals_of(s.subrange(0, n), vs.subrange(0, n));
        assert(vs.subrange(0, n).push(vs[n]) =~= vs);
    } else {
        assert(vs =~= Seq::<Seq<u8>>::empty());
    }
}

/// A map whose keys, in the order given, encode in strictly ascending order
/// encodes as its entries in that order.
pub proof fn lemma_enc_sorted_map(entries: Vec<(Value, Value)>, ks: Seq<Seq<u8>>, vs: Seq<Seq<u8>>)
    requires
        entries@.len() == ks.len(),
        entries@.len() == vs.len(),
        entries@.len() < 24,
        forall|i: int| 0 <= i < ks.len() ==> enc(#[trigger] entries@[i].0) == Ok::<Seq<u8>, EncodeFault>(ks[i]),
        forall|i: int| 0 <= i < vs.len() ==> enc(#[trigger] entries@[i].1) == Ok::<Seq<u8>, EncodeFault>(vs[i]),
        keys_ascending(zip_entries(ks, vs)),
    ensures
        enc(Value::Mapping(entries)) == Ok::<Seq<u8>, EncodeFault>(
            head(5, entries@.len()) + join_entries(zip_entries(ks, vs)),
        ),
{
    lemma_enc_keys_of(entries@, ks);
    lemma_enc_vals_of(entries@, vs);
    lemma_ascending_is_sorted(zip_entries(ks, vs));
}

// --- Shape of encodings -------------------------------------------------------

/// The value `v` is encoded in `p` starting at `pos`.
pub open spec fn encodes_at(p: Seq<u8>, pos: int, v: Value) -> bool {
    enc(v) is Ok && holds_at(p, pos, enc(v)->Ok_0)
}

pub proof fn lemma_enc_seq_parts(s: Seq<Value>)
    requires
        enc_seq(s) is Ok,
    ensures
        enc_seq(s)->Ok_0.len() == s.len(),
        forall|i: int| 0 <= i < s.len() ==> enc(#[trigger] s[i]) == Ok::<Seq<u8>, EncodeFault>(enc_seq(s)->Ok_0[i]),
    decreases s.len(),
{
    if s.len() > 0 {
        let init = s.subrange(0, s.len() - 1);
        lemma_enc_seq_parts(init);
        assert forall|i: int| 0 <= i < s.len() implies enc(#[trigger] s[i]) == Ok::<Seq<u8>, EncodeFault>(enc_seq(s)->Ok_0[i]) by {
            if i < s.len() - 1 {
                assert(s[i] == init[i]);
            }
        }
    }
}

pub proof fn lemma_enc_keys_parts(s: Seq<(Value, Value)>)
    requires
        enc_keys(s) is Ok,
    ensures
        enc_keys(s)->Ok_0.len() == s.len(),
        forall|i: int| 0 <= i < s.len() ==> enc(#[trigger] s[i].0) == Ok::<Seq<u8>, EncodeFault>(enc_keys(s)->Ok_0[i]),
    decreases s.len(),
{
    if s.len() > 0 {
        let init = s.subrange(0, s.len() - 1);
        lemma_enc_keys_parts(init);
        assert forall|i: int| 0 <= i < s.len() implies enc(#[trigger] s[i].0) == Ok::<Seq<u8>, EncodeFault>(enc_keys(s)->Ok_0[i]) by {
            if i < s.len() - 1 {
                assert(s[i] == init[i]);
            }
        }
    }
}

pub proof fn lemma_enc_vals_parts(s: Seq<(Value, Value)>)
    requires
        enc_vals(s) is Ok,
    ensures
        enc_vals(s)->Ok_0.len() == s.len(),
        forall|i: int| 0 <= i < s.len() ==> enc(#[trigger] s[i].1) == Ok::<Seq<u8>, EncodeFault>(enc_vals(s)->Ok_0[i]),
    decreases s.len(),
{
    if s.len() > 0 {
        let init = s.subrange(0, s.len() - 1);
        lemma_enc_vals_parts(init);
        assert forall|i: int| 0 <= i < s.len() implies enc(#[trigger] s[i].1) == Ok::<Seq<u8>, EncodeFault>(enc_vals(s)->Ok_0[i]) by {
            if i < s.len() - 1 {
                assert(s[i] == init[i]);
            }
        }
    }
}

/// `b` is the canonical encoding of some value.
pub open spec fn is_encoding(b: Seq<u8>) -> bool {
    exists|w: Value| enc(w) == Ok::<Seq<u8>, EncodeFault>(b)
}

/// Each entry of `s` is made of the encodings of some key and some value.
pub open spec fn entries_encodable(s: Seq<(Seq<u8>, Seq<u8>)>) -> bool {
    forall|j: int| 0 <= j < s.len() ==> is_encoding(#[trigger] s[j].0) && is_encoding(s[j].1)
}

/// Each part of `s` is the encoding of some value.
pub open spec fn parts_encodable(s: Seq<Seq<u8>>) -> bool {
    forall|j: int| 0 <= j < s.len() ==> is_encoding(#[trigger] s[j])
}

/// The argument of the head of a value encoded with one, and the bytes after it.
pub open spec fn head_arg(v: Value) -> nat {
    match v {
        Value::Integer(i) => if i >= 0 { i as nat } else { (-1 - i) as nat },
        Value::Float(b) => {
            let k = integral_magnitude(canonical_float(b))->Some_0;
            if float_negative(canonical_float(b)) && k > 0 { (k - 1) as nat } else { k }
        },
        Value::Bytes(b) => b@.len(),
        Value::Text(t) => encode_utf8(t@).len(),
        Value::Array(items) => items@.len(),
        Value::Mapping(entries) => entries@.len(),
        _ => 0,
    }
}

proof fn lemma_float_canonical_idem(b: u64)
    ensures
        canonical_float(canonical_float(b)) == canonical_float(b),
{
}

/// What the first byte of an encoding tells about the rest.
#[verifier::rlimit(50)]
pub proof fn lemma_enc_form(v: Value)
    requires
        enc(v) is Ok,
    ensures
        ({
            let b = enc(v)->Ok_0;
            let b0 = b[0];
            let major = b0 / 32;
            &&& b.len() >= 1
            &&& (b0 >= 0xc0 ==> b0 == 0xf4 || b0 == 0xf5 || b0 == 0xf6 || b0 == 0xfb)
            &&& (b0 == 0xf4 || b0 == 0xf5 || b0 == 0xf6 ==> b.len() == 1)
            &&& (b0 == 0xfb ==> (v matches Value::Float(f) && b == seq![0xfbu8] + be_bytes(canonical_float(f) as nat, 8)
                && !should_be_int(canonical_float(f))))
            &&& (b0 < 0xc0 ==> {
                &&& head_arg(v) < 0x1_0000_0000_0000_0000
                &&& b.subrange(0, head(major, head_arg(v)).len() as int) == head(major, head_arg(v))
                &&& (major <= 1 ==> b == head(major, head_arg(v)))
                &&& (major == 2 || major == 3 ==> b.len() == head(major, head_arg(v)).len() + head_arg(v))
                &&& (major == 3 ==> valid_utf8(b.subrange(head(major, head_arg(v)).len() as int, b.len() as int)))
                &&& (major == 4 ==> (v matches Value::Array(items) && enc_seq(items@) is Ok && {
                    let parts = enc_seq(items@)->Ok_0;
                    &&& parts.len() == head_arg(v)
                    &&& parts_encodable(parts)
                    &&& b == head(4, head_arg(v)) + concat(parts)
                }))
                &&& (major == 5 ==> (v matches Value::Mapping(entries) && enc_keys(entries@) is Ok && enc_vals(entries@) is Ok && {
                    let sorted = zip_entries(enc_keys(entries@)->Ok_0, enc_vals(entries@)->Ok_0).sort_by(entry_order());
                    &&& sorted.len() == head_arg(v)
                    &&& keys_ascending(sorted)
                    &&& entries_encodable(sorted)
                    &&& b == head(5, head_arg(v)) + join_entries(sorted)
                }))
            })
        }),
{
    let b = enc(v)->Ok_0;
    match v {
        Value::Integer(i) => {
            let major: u8 = if i >= 0 { 0 } else { 1 };
            let a = head_arg(v);
            assert(a < 0x1_0000_0000_0000_0000);
            assert(a as u64 as nat == a);
            lemma_head_read(major, a as u64);
            assert(b == head(major, a));
            assert(b[0] / 32 == major);
            assert(b[0] < 0x40);
            assert(b.subrange(0, b.len() as int) =~= b);
            assert(!(v is Mapping));
            assert(!(v is Array));
        },
        Value::Float(f) => {
            lemma_float_canonical_idem(f);
            let c = canonical_float(f);
            if should_be_int(c) {
                let k = integral_magnitude(c)->Some_0;
                let i: int = if float_negative(c) { -k } else { k as int };
                let major: u8 = if i >= 0 { 0 } else { 1 };
                lemma_head_read(major, head_arg(v) as u64);
                assert(b.subrange(0, b.len() as int) =~= b);
            }
        },
        Value::Bytes(x) => {
            lemma_head_read(2, x@.len() as u64);
            assert(b.subrange(0, head(2, x@.len()).len() as int) =~= head(2, x@.len()));
        },
        Value::Text(t) => {
            let e = encode_utf8(t@);
            lemma_head_read(3, e.len() as u64);
            assert(b.subrange(0, head(3, e.len()).len() as int) =~= head(3, e.len()));
            assert(b.subrange(head(3, e.len()).len() as int, b.len() as int) =~= e);
            vstd::utf8::encode_utf8_valid_utf8(t@);
        },
        Value::Array(items) => {
            lemma_head_read(4, items@.len() as u64);
            lemma_enc_seq_parts(items@);
            let parts = enc_seq(items@)->Ok_0;
            assert(b.subrange(0, head(4, items@.len()).len() as int) =~= head(4, items@.len()));
            assert forall|j: int| 0 <= j < parts.len() implies is_encoding(#[trigger] parts[j]) by {
                assert(enc(items@[j]) == Ok::<Seq<u8>, EncodeFault>(parts[j]));
            }
        },
        Value::Mapping(entries) => {
            lemma_head_read(5, entries@.len() as u64);
            lemma_enc_keys_parts(entries@);
            lemma_enc_vals_parts(entries@);
            let ks = enc_keys(entries@)->Ok_0;
            let vs = enc_vals(entries@)->Ok_0;
            let z = zip_entries(ks, vs);
            lemma_entry_le_total();
            let sorted = z.sort_by(entry_order());
            z.lemma_sort_by_ensures(entry_order());
            assert(b.subrange(0, head(5, entries@.len()).len() as int) =~= head(5, entries@.len()));
            assert forall|j: int| 0 <= j < sorted.len() implies is_encoding(#[trigger] sorted[j].0) && is_encoding(sorted[j].1) by {
                vstd::seq_lib::to_multiset_contains(sorted, sorted[j]);
                vstd::seq_lib::to_multiset_contains(z, sorted[j]);
                assert(sorted.contains(sorted[j]));
                assert(z.contains(sorted[j]));
                let a = choose|a: int| 0 <= a < z.len() && z[a] == sorted[j];
                assert(enc(entries@[a].0) == Ok::<Seq<u8>, EncodeFault>(sorted[j].0));
                assert(enc(entries@[a].1) == Ok::<Seq<u8>, EncodeFault>(sorted[j].1));
            }
            assert(entries_encodable(sorted));
            vstd::seq_lib::to_multiset_len(sorted);
            vstd::seq_lib::to_multiset_len(z);
            assert(sorted.len() == entries@.len());
            if keys_ascending(sorted) {
                assert(b == head(5, entries@.len()) + join_entries(sorted));
            }
        },
        Value::Bool(x) => {},
        Value::Null => {},
    }
}

/// What an encoding found at `idx` tells about the bytes there.
#[verifier::rlimit(50)]
pub proof fn lemma_encoded_at(p: Seq<u8>, idx: int, v: Value)
    requires
        encodes_at(p, idx, v),
    ensures
        ({
            let b = enc(v)->Ok_0;
            let b0 = p[idx];
            let ai = (b0 % 32) as u8;
            let major = b0 / 32;
            let w = arg_width(ai) as int;
            &&& 0 <= idx < p.len()
            &&& idx + b.len() <= p.len()
            &&& b0 == b[0]
            &&& (b0 >= 0xc0 ==> b0 == 0xf4 || b0 == 0xf5 || b0 == 0xf6 || b0 == 0xfb)
            &&& (b0 == 0xf4 || b0 == 0xf5 || b0 == 0xf6 ==> b.len() == 1)
            &&& (b0 == 0xfb ==> b.len() == 9 && !should_be_int(be_value(p.subrange(idx + 1, idx + 9)) as u64)
                && canonical_float(be_value(p.subrange(idx + 1, idx + 9)) as u64) == be_value(p.subrange(idx + 1, idx + 9)) as u64
                && be_value(p.subrange(idx + 1, idx + 9)) < 0x1_0000_0000_0000_0000)
            &&& (b0 < 0xc0 ==> {
                &&& ai < 28
                &&& 1 + w <= b.len()
                &&& head_arg(v) < 0x1_0000_0000_0000_0000
                &&& (ai < 24 ==> head_arg(v) == ai)
                &&& (ai >= 24 ==> be_value(p.subrange(idx + 1, idx + 1 + w)) == head_arg(v) && minimal_arg(ai, head_arg(v)))
                &&& (major <= 1 ==> b.len() == 1 + w)
                &&& (major == 2 || major == 3 ==> b.len() == 1 + w + head_arg(v))
                &&& (major == 3 ==> valid_utf8(p.subrange(idx + 1 + w, idx + b.len())))
                &&& (major == 4 ==> (v matches Value::Array(items) && enc_seq(items@) is Ok && {
                    let parts = enc_seq(items@)->Ok_0;
                    &&& parts.len() == head_arg(v)
                    &&& parts_encodable(parts)
                    &&& holds_at(p, idx + 1 + w, concat(parts))
                    &&& b.len() == 1 + w + concat(parts).len()
                }))
                &&& (major == 5 ==> (v matches Value::Mapping(entries) && enc_keys(entries@) is Ok && enc_vals(entries@) is Ok && {
                    let sorted = zip_entries(enc_keys(entries@)->Ok_0, enc_vals(entries@)->Ok_0).sort_by(entry_order());
                    &&& sorted.len() == head_arg(v)
                    &&& keys_ascending(sorted)
                    &&& entries_encodable(sorted)
                    &&& holds_at(p, idx + 1 + w, join_entries(sorted))
                    &&& b.len() == 1 + w + join_entries(sorted).len()
                }))
            })
        }),
{
    let b = enc(v)->Ok_0;
    lemma_enc_form(v);
    assert(p.subrange(idx, idx + b.len())[0] == p[idx]);
    let b0 = p[idx];
    if b0 == 0xfb {
        let f = v->Float_0;
        let c = canonical_float(f);
        lemma_pow256_values();
        lemma_be_value_of_bytes(c as nat, 8);
        assert(p.subrange(idx + 1, idx + 9) =~= b.subrange(1, 9));
        assert(b.subrange(1, 9) =~= be_bytes(c as nat, 8));
        lemma_float_canonical_idem(f);
    }
    if b0 < 0xc0 {
        let major = b0 / 32;
        let a = head_arg(v);
        lemma_head_read(major, a as u64);
        let h = head(major, a);
        assert(h[0] == b[0]);
        let w = arg_width((b0 % 32) as u8) as int;
        assert(p.subrange(idx + 1, idx + 1 + w) =~= h.subrange(1, h.len() as int)) by {
            assert(b.subrange(0, h.len() as int) == h);
        }
        if major == 3 {
            assert(p.subrange(idx + 1 + w, idx + b.len()) =~= b.subrange(h.len() as int, b.len() as int));
        }
        if major == 4 {
            let parts = enc_seq(v->Array_0@)->Ok_0;
            assert(p.subrange(idx + 1 + w, idx + 1 + w + concat(parts).len()) =~= b.subrange(h.len() as int, b.len() as int));
            assert(b.subrange(h.len() as int, b.len() as int) =~= concat(parts));
        }
        if major == 5 {
            let entries = v->Mapping_0;
            let sorted = zip_entries(enc_keys(entries@)->Ok_0, enc_vals(entries@)->Ok_0).sort_by(entry_order());
            assert(p.subrange(idx + 1 + w, idx + 1 + w + join_entries(sorted).len()) =~= b.subrange(h.len() as int, b.len() as int));
            assert(b.subrange(h.len() as int, b.len() as int) =~= join_entries(sorted));
        }
    }
}

// --- Decoder -----------------------------------------------------------------

/// How many argument bytes follow an initial byte with additional info `ai`.
pub open spec fn arg_width(ai: u8) -> nat {
    if ai == 24 {
        1
    } else if ai == 25 {
        2
    } else if ai == 26 {
        4
    } else if ai == 27 {
        8
    } else {
        0
    }
}

/// Whether the argument `n` needs the width that `ai` gives it.
pub open spec fn minimal_arg(ai: u8, n: nat) -> bool {
    ||| ai < 24
    ||| ai == 24 && n >= 24
    ||| ai == 25 && n >= 0x100
    ||| ai == 26 && n >= 0x1_0000
    ||| ai == 27 && n >= 0x1_0000_0000
}

pub proof fn lemma_pow256_values()
    ensures
        pow256(1) == 0x100,
        pow256(2) == 0x1_0000,
        pow256(4) == 0x1_0000_0000,
        pow256(8) == 0x1_0000_0000_0000_0000,
{
    reveal_with_fuel(pow256, 9);
}

pub proof fn lemma_head_of(major: u8, ai: u8, s: Seq<u8>)
    requires
        major <= 7,
        24 <= ai <= 27,
        s.len() == arg_width(ai),
        minimal_arg(ai, be_value(s)),
    ensures
        head(major, be_value(s)) == seq![(major * 32 + ai) as u8] + s,
{
    lemma_pow256_values();
    lemma_be_value_bound(s);
    lemma_be_bytes_of_value(s);
}

/// Relies on `std::str::from_utf8`: it accepts exactly the well-formed UTF-8
/// byte strings, and the text then holds the characters they encode.
#[verifier::external_body]
pub(crate) fn utf8_text(b: &[u8]) -> (r: Option<String>)
    ensures
        r is Some <==> valid_utf8(b@),
        r matches Some(t) ==> t@ == decode_utf8(b@),
{
    match std::str::from_utf8(b) {
        Ok(t) => Some(t.to_string()),
        Err(_) => None,
    }
}

/// The big-endian number in `bytes[start .. start + k]`.
pub fn read_be(bytes: &[u8], start: usize, k: usize) -> (r: u64)
    requires
        k <= 8,
        start + k <= bytes@.len(),
    ensures
        r as nat == be_value(bytes@.subrange(start as int, start + k)),
{
    let mut acc: u64 = 0;
    let mut i: usize = 0;
    let len = bytes.len();
    proof {
        lemma_pow256_values();
        assert(bytes@.subrange(start as int, start as int) =~= Seq::<u8>::empty());
    }
    while i < k
        invariant
            k <= 8,
            i <= k,
            start + k <= bytes@.len(),
            len == bytes@.len(),
            pow256(8) == 0x1_0000_0000_0000_0000,
            acc as nat == be_value(bytes@.subrange(start as int, start + i)),
        decreases k - i,
    {
        let ghost sub = bytes@.subrange(start as int, start + i);
        proof {
            lemma_be_value_bound(sub);
            lemma_pow256_mono(i as nat, 7);
            assert(acc * 256 + 255 < 0x1_0000_0000_0000_0000) by (nonlinear_arith)
                requires acc < pow256(i as nat), pow256(i as nat) <= pow256(7), pow256(8) == 256 * pow256(7),
                    pow256(8) == 0x1_0000_0000_0000_0000;
        }
        assert(start + i < bytes@.len());
        let byte: u8 = bytes[start + i];
        acc = acc * 256 + byte as u64;
        assert(bytes@.subrange(start as int, start + i + 1).drop_last() =~= sub);
        i = i + 1;
    }
    acc
}

proof fn lemma_pow256_mono(a: nat, b: nat)
    requires
        a <= b,
    ensures
        pow256(a) <= pow256(b),
    decreases b - a,
{
    if a < b {
        lemma_pow256_mono(a, (b - 1) as nat);
    }
}

/// Every value encoded at `idx` is decoded there, up to the end of its
/// encoding.
/// `ss` could be the sorted entries of a canonical map of `n` entries found at `start`.
pub open spec fn entries_premise(p: Seq<u8>, start: int, n: u64, ss: Seq<(Seq<u8>, Seq<u8>)>) -> bool {
    &&& holds_at(p, start, join_entries(ss))
    &&& ss.len() == n
    &&& keys_ascending(ss)
    &&& entries_encodable(ss)
}

/// What a head of major type `major` and argument `n` found at `idx` tells
/// about the bytes there.
pub open spec fn head_at_facts(p: Seq<u8>, idx: int, major: u8, n: u64) -> bool {
    let ai = (p[idx] % 32) as u8;
    let w = arg_width(ai) as int;
    &&& 0 <= idx < p.len()
    &&& p[idx] / 32 == major
    &&& ai < 28
    &&& idx + 1 + w <= p.len()
    &&& head(major, n as nat).len() == 1 + w
    &&& (ai < 24 ==> n == ai)
    &&& (ai >= 24 ==> be_value(p.subrange(idx + 1, idx + 1 + w)) == n && minimal_arg(ai, n as nat))
}

pub proof fn lemma_head_at(p: Seq<u8>, idx: int, major: u8, n: u64)
    requires
        major <= 5,
        holds_at(p, idx, head(major, n as nat)),
    ensures
        head_at_facts(p, idx, major, n),
{
    lemma_head_read(major, n);
    let h = head(major, n as nat);
    assert(p.subrange(idx, idx + h.len())[0] == p[idx]);
    let w = arg_width((p[idx] % 32) as u8) as int;
    assert(p.subrange(idx + 1, idx + 1 + w) =~= h.subrange(1, h.len() as int));
}

/// `p` holds at `idx` the head of a map of `n >= 2` entries, followed by the
/// encodings of a first key, its value and a second key.
pub open spec fn map_opening(p: Seq<u8>, idx: int, n: u64, k1: Value, v1: Value, k2: Value) -> bool {
    &&& n >= 2
    &&& holds_at(p, idx, head(5, n as nat))
    &&& entries_opening(p, idx + head(5, n as nat).len(), k1, v1, k2)
}

/// `p` holds, from `start`, the encodings of a first key, its value and a
/// second key.
pub open spec fn entries_opening(p: Seq<u8>, start: int, k1: Value, v1: Value, k2: Value) -> bool {
    &&& encodes_at(p, start, k1)
    &&& encodes_at(p, start + enc(k1)->Ok_0.len(), v1)
    &&& encodes_at(p, start + enc(k1)->Ok_0.len() + enc(v1)->Ok_0.len(), k2)
}

/// The second key's encoding comes strictly after the first's.
pub open spec fn keys_in_order(k1: Value, k2: Value) -> bool {
    lex_lt(enc(k1)->Ok_0, enc(k2)->Ok_0)
}

/// The error owed for two keys out of order: `DuplicateKey` for equal
/// encodings, `MapKeyOrder` for a second key that sorts first.
pub open spec fn key_order_fault<T>(k1: Value, k2: Value, r: Result<T, CanonicalError>) -> bool {
    &&& (enc(k1)->Ok_0 == enc(k2)->Ok_0 ==> r == Err::<T, CanonicalError>(CanonicalError::DuplicateKey))
    &&& (lex_lt(enc(k2)->Ok_0, enc(k1)->Ok_0) ==> r == Err::<T, CanonicalError>(CanonicalError::MapKeyOrder))
}

proof fn lemma_in_order_no_fault<T>(k1: Value, k2: Value, r: Result<T, CanonicalError>)
    requires
        keys_in_order(k1, k2),
    ensures
        key_order_fault(k1, k2, r),
{
    lemma_lex_asymmetric(enc(k1)->Ok_0, enc(k2)->Ok_0);
    lemma_lex_irreflexive(enc(k1)->Ok_0);
}

proof fn lemma_entry_at(p: Seq<u8>, start: int, ss: Seq<(Seq<u8>, Seq<u8>)>, c: int)
    requires
        holds_at(p, start, join_entries(ss)),
        0 <= c < ss.len(),
    ensures
        holds_at(p, start + join_entries(ss.subrange(0, c)).len(), ss[c].0),
        holds_at(p, start + join_entries(ss.subrange(0, c)).len() + ss[c].0.len(), ss[c].1),
{
    let f = |q: (Seq<u8>, Seq<u8>)| q.0 + q.1;
    let m = ss.map_values(f);
    lemma_concat_split(m, c);
    assert(m.subrange(0, c) =~= ss.subrange(0, c).map_values(f));
    let tail = m.subrange(c, m.len() as int);
    lemma_concat_first(tail);
    lemma_holds_concat(p, start, concat(m.subrange(0, c)), concat(tail));
    let pos = start + concat(m.subrange(0, c)).len();
    lemma_holds_concat(p, pos, tail[0], concat(tail.subrange(1, tail.len() as int)));
    lemma_holds_concat(p, pos, ss[c].0, ss[c].1);
}

pub open spec fn complete_at<T>(p: Seq<u8>, idx: int, r: Result<(T, usize), CanonicalError>) -> bool {
    forall|v: Value| #[trigger] encodes_at(p, idx, v) ==> r is Ok && r->Ok_0.1 == idx + enc(v)->Ok_0.len()
}

/// Decodes one data item starting at `idx`, returning it with the position
/// just past it. Accepts exactly the canonical encodings of values.
#[verifier::rlimit(100)]
fn dec_at(bytes: &[u8], idx: usize) -> (r: Result<(Value, usize), CanonicalError>)
    requires
        idx <= bytes@.len(),
    ensures
        r matches Ok((v, end)) ==> idx < end <= bytes@.len() && enc(v) == Ok::<Seq<u8>, EncodeFault>(
            bytes@.subrange(idx as int, end as int),
        ),
        idx == bytes@.len() ==> r == Err::<(Value, usize), CanonicalError>(CanonicalError::Incomplete),
        idx < bytes@.len() ==> decode_head_faults(bytes@.subrange(idx as int, bytes@.len() as int), r),
        complete_at(bytes@, idx as int, r),
        forall|m: u64, k1: Value, v1: Value, k2: Value| #[trigger] map_opening(bytes@, idx as int, m, k1, v1, k2)
            ==> key_order_fault(k1, k2, r),
    decreases bytes@.len() - idx, 1int,
{
    if idx >= bytes.len() {
        proof {
            assert forall|v: Value| #[trigger] encodes_at(bytes@, idx as int, v) implies false by {
                lemma_encoded_at(bytes@, idx as int, v);
            }
        }
        return Err(CanonicalError::Incomplete);
    }
    let ghost rest = bytes@.subrange(idx as int, bytes@.len() as int);
    let b0 = bytes[idx];
    let major: u8 = b0 / 32;
    let ai: u8 = b0 % 32;
    proof {
        assert forall|m: u64, k1: Value, v1: Value, k2: Value| #[trigger] map_opening(bytes@, idx as int, m, k1, v1, k2)
            implies head_at_facts(bytes@, idx as int, 5, m) by {
            lemma_head_at(bytes@, idx as int, 5, m);
        }
    }
    if major == 6 {
        proof {
            assert forall|v: Value| #[trigger] encodes_at(bytes@, idx as int, v) implies false by {
                lemma_encoded_at(bytes@, idx as int, v);
            }
        }
        return Err(CanonicalError::Tag);
    }
    if ai == 31 {
        proof {
            assert forall|v: Value| #[trigger] encodes_at(bytes@, idx as int, v) implies false by {
                lemma_encoded_at(bytes@, idx as int, v);
            }
        }
        return Err(CanonicalError::Indefinite);
    }
    let pos = idx + 1;
    if major == 7 {
        if ai == 20 || ai == 21 {
            assert(bytes@.subrange(idx as int, pos as int) =~= seq![b0]);
            proof {
                assert forall|v: Value| #[trigger] encodes_at(bytes@, idx as int, v) implies pos == idx + enc(v)->Ok_0.len() by {
                    lemma_encoded_at(bytes@, idx as int, v);
                }
            }
            return Ok((Value::Bool(ai == 21), pos));
        } else if ai == 22 {
            assert(bytes@.subrange(idx as int, pos as int) =~= seq![b0]);
            proof {
                assert forall|v: Value| #[trigger] encodes_at(bytes@, idx as int, v) implies pos == idx + enc(v)->Ok_0.len() by {
                    lemma_encoded_at(bytes@, idx as int, v);
                }
            }
            return Ok((Value::Null, pos));
        } else if ai == 25 || ai == 26 {
            proof {
                assert forall|v: Value| #[trigger] encodes_at(bytes@, idx as int, v) implies false by {
                    lemma_encoded_at(bytes@, idx as int, v);
                }
            }
            return Err(CanonicalError::NonCanonicalFloat);
        } else if ai == 27 {
            if bytes.len() - pos < 8 {
                proof {
                    assert forall|v: Value| #[trigger] encodes_at(bytes@, idx as int, v) implies false by {
                        lemma_encoded_at(bytes@, idx as int, v);
                    }
                }
                return Err(CanonicalError::Incomplete);
            }
            let bits = read_be(bytes, pos, 8);
            assert(bytes@.subrange(pos as int, pos + 8) =~= rest.subrange(1, 9));
            if whole_magnitude(bits).is_some() {
                proof {
                    assert forall|v: Value| #[trigger] encodes_at(bytes@, idx as int, v) implies false by {
                        lemma_encoded_at(bytes@, idx as int, v);
                    }
                }
                return Err(CanonicalError::FloatShouldBeInt);
            }
            if canonicalize_f64(bits) != bits {
                proof {
                    assert forall|v: Value| #[trigger] encodes_at(bytes@, idx as int, v) implies false by {
                        lemma_encoded_at(bytes@, idx as int, v);
                    }
                }
                return Err(CanonicalError::NonCanonicalFloat);
            }
            proof {
                assert forall|v: Value| #[trigger] encodes_at(bytes@, idx as int, v) implies pos + 8 == idx + enc(v)->Ok_0.len() by {
                    lemma_encoded_at(bytes@, idx as int, v);
                }
            }

            proof {
                lemma_be_bytes_of_value(bytes@.subrange(pos as int, pos + 8));
                assert(bytes@.subrange(idx as int, pos + 8) =~= seq![0xfbu8] + bytes@.subrange(pos as int, pos + 8));
            }
            return Ok((Value::Float(bits), pos + 8));
        } else {
            proof {
                assert forall|v: Value| #[trigger] encodes_at(bytes@, idx as int, v) implies false by {
                    lemma_encoded_at(bytes@, idx as int, v);
                }
            }
            return Err(CanonicalError::Decode("unsupported simple value".to_string()));
        }
    }
    // Major types 0 to 5: read the argument.

    if ai >= 28 {
        proof {
            assert forall|v: Value| #[trigger] encodes_at(bytes@, idx as int, v) implies false by {
                lemma_encoded_at(bytes@, idx as int, v);
            }
        }
        return Err(CanonicalError::Decode("invalid additional info".to_string()));
    }
    let k: usize = if ai < 24 {
        0
    } else if ai == 24 {
        1
    } else if ai == 25 {
        2
    } else if ai == 26 {
        4
    } else {
        8
    };
    if bytes.len() - pos < k {
        proof {
            assert forall|v: Value| #[trigger] encodes_at(bytes@, idx as int, v) implies false by {
                lemma_encoded_at(bytes@, idx as int, v);
            }
        }
        return Err(CanonicalError::Incomplete);
    }
    let n: u64 = if ai < 24 {
        ai as u64
    } else {
        read_be(bytes, pos, k)
    };
    assert(bytes@.subrange(pos as int, pos + k) =~= rest.subrange(1, 1 + k));
    let minimal = ai < 24 || (ai == 24 && n >= 24) || (ai == 25 && n >= 0x100) || (ai == 26 && n >= 0x1_0000)
        || (ai == 27 && n >= 0x1_0000_0000);
    proof {
        assert forall|v: Value| #[trigger] encodes_at(bytes@, idx as int, v) implies minimal && n == head_arg(v) by {
            lemma_encoded_at(bytes@, idx as int, v);
        }
    }
    if !minimal {
        return Err(CanonicalError::NonCanonicalInt);
    }
    let pos = pos + k;
    proof {
        if ai >= 24 {
            lemma_head_of(major, ai, bytes@.subrange(idx + 1, pos as int));
            assert(bytes@.subrange(idx as int, pos as int) =~= seq![b0] + bytes@.subrange(idx + 1, pos as int));
        } else {
            assert(bytes@.subrange(idx as int, pos as int) =~= seq![b0]);
        }
        assert(head(major, n as nat) == bytes@.subrange(idx as int, pos as int));
    }
    if major == 0 {
        proof {
            assert forall|v: Value| #[trigger] encodes_at(bytes@, idx as int, v) implies pos == idx + enc(v)->Ok_0.len() by {
                lemma_encoded_at(bytes@, idx as int, v);
            }
        }
        return Ok((Value::Integer(n as i128), pos));
    }
    if major == 1 {
        proof {
            assert forall|v: Value| #[trigger] encodes_at(bytes@, idx as int, v) implies pos == idx + enc(v)->Ok_0.len() by {
                lemma_encoded_at(bytes@, idx as int, v);
            }
        }
        return Ok((Value::Integer(-1 - n as i128), pos));
    }
    if major == 2 || major == 3 {
        if ((bytes.len() - pos) as u64) < n {
            proof {
                assert forall|v: Value| #[trigger] encodes_at(bytes@, idx as int, v) implies false by {
                    lemma_encoded_at(bytes@, idx as int, v);
                }
            }
            return Err(CanonicalError::Incomplete);
        }
        let end = pos + n as usize;
        let body = &bytes[pos..end];
        proof {
            assert(bytes@.subrange(idx as int, end as int) =~= bytes@.subrange(idx as int, pos as int) + body@);
        }
        proof {
            assert forall|v: Value| #[trigger] encodes_at(bytes@, idx as int, v) implies end == idx + enc(v)->Ok_0.len()
                && (major == 3 ==> valid_utf8(body@)) by {
                lemma_encoded_at(bytes@, idx as int, v);
                assert(body@ =~= bytes@.subrange(pos as int, end as int));
            }
        }
        if major == 2 {
            let b = copy_bytes(body);
            return Ok((Value::Bytes(b), end));
        }
        match utf8_text(body) {
            Some(t) => {
                proof {
                    decode_utf8_encode_utf8(body@);
                }
                return Ok((Value::Text(t), end));
            },
            None => {
                return Err(CanonicalError::Decode("text is not valid UTF-8".to_string()));
            },
        }
    }
    proof {
        assert(bytes@.subrange(idx as int, pos as int) =~= rest.subrange(0, pos - idx));
    }
    let r = if major == 4 {
        match dec_items(bytes, idx, pos, n) {
            Ok((items, end)) => Ok((Value::Array(items), end)),
            Err(e) => Err(e),
        }
    } else {
        match dec_entries(bytes, idx, pos, n) {
            Ok((entries, end)) => {
                proof {
                    lemma_ascending_is_sorted(zip_entries(enc_keys(entries@)->Ok_0, enc_vals(entries@)->Ok_0));
                }
                Ok((Value::Mapping(entries), end))
            },
            Err(e) => Err(e),
        }
    };
    proof {
        if r is Ok {
            let end = r->Ok_0.1;
            assert(bytes@.subrange(idx as int, end as int) =~= bytes@.subrange(idx as int, pos as int)
                + bytes@.subrange(pos as int, end as int));
        }
        assert forall|m: u64, k1: Value, v1: Value, k2: Value| #[trigger] map_opening(bytes@, idx as int, m, k1, v1, k2)
            implies key_order_fault(k1, k2, r) by {
            assert(head_at_facts(bytes@, idx as int, 5, m));
            assert(m == n);
            assert(entries_opening(bytes@, pos as int, k1, v1, k2));
        }
        assert forall|v: Value| #[trigger] encodes_at(bytes@, idx as int, v) implies r is Ok && r->Ok_0.1 == idx + enc(v)->Ok_0.len() by {
            lemma_encoded_at(bytes@, idx as int, v);
            if major == 4 {
                let parts = enc_seq(v->Array_0@)->Ok_0;
                assert(holds_at(bytes@, pos as int, concat(parts)));
            } else {
                let entries = v->Mapping_0;
                let sorted = zip_entries(enc_keys(entries@)->Ok_0, enc_vals(entries@)->Ok_0).sort_by(entry_order());
                assert(holds_at(bytes@, pos as int, join_entries(sorted)));
                assert(entries_premise(bytes@, pos as int, n, sorted));
            }
        }
    }
    r
}

/// Decodes the `n` items of an array whose head ends at `start`.
fn dec_items(bytes: &[u8], idx: usize, start: usize, n: u64) -> (r: Result<(Vec<Value>, usize), CanonicalError>)
    requires
        idx < start <= bytes@.len(),
    ensures
        r matches Ok((items, end)) ==> {
            &&& start <= end <= bytes@.len()
            &&& items@.len() == n
            &&& enc_seq(items@) is Ok
            &&& concat(enc_seq(items@)->Ok_0) == bytes@.subrange(start as int, end as int)
        },
        forall|parts: Seq<Seq<u8>>| #[trigger] holds_at(bytes@, start as int, concat(parts)) && parts.len() == n
            && parts_encodable(parts) ==> r is Ok && r->Ok_0.1 == start + concat(parts).len(),
    decreases bytes@.len() - idx, 0int,
{
    let mut pos = start;
    let mut items: Vec<Value> = Vec::new();
    let mut c: u64 = 0;
    let ghost parts: Seq<Seq<u8>> = Seq::empty();
    assert(bytes@.subrange(start as int, start as int) =~= concat(parts));
    while c < n
        invariant
            idx < start <= pos <= bytes@.len(),
            c <= n,
            items@.len() == c,
            enc_seq(items@) == Ok::<Seq<Seq<u8>>, EncodeFault>(parts),
            concat(parts) == bytes@.subrange(start as int, pos as int),
            forall|ps: Seq<Seq<u8>>| #[trigger] holds_at(bytes@, start as int, concat(ps)) && ps.len() == n
                && parts_encodable(ps) ==> pos == start + concat(ps.subrange(0, c as int)).len(),
        decreases n - c,
    {
        proof {
            assert forall|ps: Seq<Seq<u8>>| #[trigger] holds_at(bytes@, start as int, concat(ps)) && ps.len() == n
                && parts_encodable(ps) implies exists|w: Value| #[trigger] encodes_at(bytes@, pos as int, w) && enc(w)->Ok_0 == ps[c as int] by {
                lemma_concat_split(ps, c as int);
                let tail = ps.subrange(c as int, ps.len() as int);
                lemma_concat_first(tail);
                lemma_holds_concat(bytes@, start as int, concat(ps.subrange(0, c as int)), concat(tail));
                lemma_holds_concat(bytes@, pos as int, tail[0], concat(tail.subrange(1, tail.len() as int)));
                assert(is_encoding(ps[c as int]));
                let w = choose|w: Value| enc(w) == Ok::<Seq<u8>, EncodeFault>(ps[c as int]);
                assert(encodes_at(bytes@, pos as int, w));
            }
        }
        match dec_at(bytes, pos) {
            Ok((item, end)) => {
                proof {
                    let nb = bytes@.subrange(pos as int, end as int);
                    lemma_concat_push(parts, nb);
                    assert(bytes@.subrange(start as int, end as int) =~= bytes@.subrange(start as int, pos as int) + nb);
                    assert(items@.push(item).subrange(0, c as int) =~= items@);
                    assert forall|ps: Seq<Seq<u8>>| #[trigger] holds_at(bytes@, start as int, concat(ps)) && ps.len() == n
                        && parts_encodable(ps) implies end == start + concat(ps.subrange(0, c + 1)).len() by {
                        let w = choose|w: Value| #[trigger] encodes_at(bytes@, pos as int, w) && enc(w)->Ok_0 == ps[c as int];
                        assert(ps.subrange(0, c + 1) =~= ps.subrange(0, c as int).push(ps[c as int]));
                        lemma_concat_push(ps.subrange(0, c as int), ps[c as int]);
                    }
                    parts = parts.push(nb);
                }
                items.push(item);
                pos = end;
            },
            Err(e) => {
                proof {
                    assert forall|ps: Seq<Seq<u8>>| #[trigger] holds_at(bytes@, start as int, concat(ps)) && ps.len() == n
                        && parts_encodable(ps) implies false by {
                        let w = choose|w: Value| #[trigger] encodes_at(bytes@, pos as int, w) && enc(w)->Ok_0 == ps[c as int];
                    }
                }
                return Err(e);
            },
        }
        c = c + 1;
    }
    proof {
        assert forall|ps: Seq<Seq<u8>>| #[trigger] holds_at(bytes@, start as int, concat(ps)) && ps.len() == n
            && parts_encodable(ps) implies pos == start + concat(ps).len() by {
            assert(ps.subrange(0, c as int) =~= ps);
        }
    }
    Ok((items, pos))
}

/// Decodes the `n` entries of a map whose head ends at `start`; keys must be
/// strictly ascending by their encodings.
fn dec_entries(bytes: &[u8], idx: usize, start: usize, n: u64) -> (r: Result<(Vec<(Value, Value)>, usize), CanonicalError>)
    requires
        idx < start <= bytes@.len(),
    ensures
        r matches Ok((entries, end)) ==> {
            &&& start <= end <= bytes@.len()
            &&& entries@.len() == n
            &&& enc_keys(entries@) is Ok
            &&& enc_vals(entries@) is Ok
            &&& keys_ascending(zip_entries(enc_keys(entries@)->Ok_0, enc_vals(entries@)->Ok_0))
            &&& join_entries(zip_entries(enc_keys(entries@)->Ok_0, enc_vals(entries@)->Ok_0))
                == bytes@.subrange(start as int, end as int)
        },
        forall|ss: Seq<(Seq<u8>, Seq<u8>)>| #[trigger] entries_premise(bytes@, start as int, n, ss) ==> r is Ok
            && r->Ok_0.1 == start + join_entries(ss).len(),
        forall|k1: Value, v1: Value, k2: Value| #[trigger] entries_opening(bytes@, start as int, k1, v1, k2) && n >= 2
            ==> key_order_fault(k1, k2, r),
    decreases bytes@.len() - idx, 0int,
{
    let mut pos = start;
    let mut entries: Vec<(Value, Value)> = Vec::new();
    let mut c: u64 = 0;
    let ghost ks: Seq<Seq<u8>> = Seq::empty();
    let ghost vs: Seq<Seq<u8>> = Seq::empty();
    let mut prev: Option<(usize, usize)> = None;
    assert(join_entries(zip_entries(ks, vs)) =~= Seq::<u8>::empty()) by {
        assert(zip_entries(ks, vs).map_values(|p: (Seq<u8>, Seq<u8>)| p.0 + p.1) =~= Seq::<Seq<u8>>::empty());
    }
    assert(bytes@.subrange(start as int, start as int) =~= Seq::<u8>::empty());
    while c < n
        invariant
            idx < start <= pos <= bytes@.len(),
            c <= n,
            entries@.len() == c,
            ks.len() == c,
            vs.len() == c,
            enc_keys(entries@) == Ok::<Seq<Seq<u8>>, EncodeFault>(ks),
            enc_vals(entries@) == Ok::<Seq<Seq<u8>>, EncodeFault>(vs),
            forall|a: int, b: int| 0 <= a < b < ks.len() ==> lex_lt(#[trigger] ks[a], #[trigger] ks[b]),
            join_entries(zip_entries(ks, vs)) == bytes@.subrange(start as int, pos as int),
            c == 0 <==> prev is None,
            prev matches Some((ps, pe)) ==> ps <= pe <= pos && bytes@.subrange(ps as int, pe as int) == ks.last(),
            forall|ss: Seq<(Seq<u8>, Seq<u8>)>| #[trigger] entries_premise(bytes@, start as int, n, ss) ==> pos == start
                + join_entries(ss.subrange(0, c as int)).len() && forall|j: int| 0 <= j < c ==> ks[j] == ss[j].0,
            forall|k1: Value, v1: Value, k2: Value| #[trigger] entries_opening(bytes@, start as int, k1, v1, k2) && n >= 2
                ==> {
                &&& (c >= 1 ==> ks[0] == enc(k1)->Ok_0)
                &&& (c == 1 ==> pos == start + enc(k1)->Ok_0.len() + enc(v1)->Ok_0.len())
                &&& (c >= 2 ==> keys_in_order(k1, k2))
            },
        decreases n - c,
    {
        let key_start = pos;
        proof {
            assert forall|ss: Seq<(Seq<u8>, Seq<u8>)>| #[trigger] entries_premise(bytes@, start as int, n, ss) implies exists|k: Value|
                #[trigger] encodes_at(bytes@, pos as int, k) && enc(k)->Ok_0 == ss[c as int].0 by {
                lemma_entry_at(bytes@, start as int, ss, c as int);
                assert(is_encoding(ss[c as int].0));
                let k = choose|k: Value| enc(k) == Ok::<Seq<u8>, EncodeFault>(ss[c as int].0);
                assert(encodes_at(bytes@, pos as int, k));
            }
        }
        let (key, key_end) = match dec_at(bytes, pos) {
            Ok(kv) => kv,
            Err(e) => {
                proof {
                    assert forall|ss: Seq<(Seq<u8>, Seq<u8>)>| #[trigger] entries_premise(bytes@, start as int, n, ss) implies false by {
                        let k = choose|k: Value| #[trigger] encodes_at(bytes@, pos as int, k) && enc(k)->Ok_0 == ss[c as int].0;
                    }
                    assert forall|k1: Value, v1: Value, k2: Value| #[trigger] entries_opening(bytes@, start as int, k1, v1, k2)
                        && n >= 2 implies key_order_fault(k1, k2, Err::<(Vec<(Value, Value)>, usize), CanonicalError>(e)) by {
                        if c >= 2 {
                            lemma_in_order_no_fault(k1, k2, Err::<(Vec<(Value, Value)>, usize), CanonicalError>(e));
                        } else if c == 0 {
                            assert(encodes_at(bytes@, pos as int, k1));
                        } else {
                            assert(encodes_at(bytes@, pos as int, k2));
                        }
                    }
                }
                return Err(e);
            },
        };
        proof {
            assert forall|ss: Seq<(Seq<u8>, Seq<u8>)>| #[trigger] entries_premise(bytes@, start as int, n, ss) implies bytes@.subrange(key_start as int, key_end as int) == ss[c as int].0
                && (c > 0 ==> lex_lt(ss[c - 1].0, ss[c as int].0)) by {
                let k = choose|k: Value| #[trigger] encodes_at(bytes@, pos as int, k) && enc(k)->Ok_0 == ss[c as int].0;
                if c > 0 {
                    assert(lex_lt(ss[c - 1].0, ss[c as int].0));
                }
            }
        }
        let ghost kb = bytes@.subrange(key_start as int, key_end as int);
        proof {
            assert forall|k1: Value, v1: Value, k2: Value| #[trigger] entries_opening(bytes@, start as int, k1, v1, k2) && n
                >= 2 implies (c == 0 ==> kb == enc(k1)->Ok_0) && (c == 1 ==> kb == enc(k2)->Ok_0) by {
                if c == 0 {
                    assert(encodes_at(bytes@, pos as int, k1));
                } else if c == 1 {
                    assert(encodes_at(bytes@, pos as int, k2));
                }
            }
        }
        match prev {
            Some((ps, pe)) => {
                let o = lex_cmp(&bytes[ps..pe], &bytes[key_start..key_end]);
                proof {
                    assert forall|ss: Seq<(Seq<u8>, Seq<u8>)>| #[trigger] entries_premise(bytes@, start as int, n, ss) implies o < 0 by {
                        assert(ks[c - 1] == ss[c - 1].0);
                    }
                }
                proof {
                    assert forall|k1: Value, v1: Value, k2: Value| #[trigger] entries_opening(bytes@, start as int, k1, v1, k2)
                        && n >= 2 implies (c == 1 ==> bytes@.subrange(ps as int, pe as int) == enc(k1)->Ok_0 && kb == enc(
                        k2,
                    )->Ok_0) by {
                        if c == 1 {
                            assert(ks.last() == ks[0]);
                        }
                    }
                    assert(bytes@.subrange(key_start as int, key_end as int) == kb);
                    lemma_lex_asymmetric(bytes@.subrange(ps as int, pe as int), kb);
                    lemma_lex_irreflexive(kb);
                }
                if o == 0 {
                    proof {
                        assert forall|k1: Value, v1: Value, k2: Value| #[trigger] entries_opening(bytes@, start as int, k1, v1, k2)
                            && n >= 2 implies key_order_fault(k1, k2, Err::<(Vec<(Value, Value)>, usize), CanonicalError>(CanonicalError::DuplicateKey)) by {
                            if c >= 2 {
                                lemma_in_order_no_fault(k1, k2, Err::<(Vec<(Value, Value)>, usize), CanonicalError>(CanonicalError::DuplicateKey));
                            }
                        }
                    }
                    return Err(CanonicalError::DuplicateKey);
                }
                if o > 0 {
                    proof {
                        assert forall|k1: Value, v1: Value, k2: Value| #[trigger] entries_opening(bytes@, start as int, k1, v1, k2)
                            && n >= 2 implies key_order_fault(k1, k2, Err::<(Vec<(Value, Value)>, usize), CanonicalError>(CanonicalError::MapKeyOrder)) by {
                            if c >= 2 {
                                lemma_in_order_no_fault(k1, k2, Err::<(Vec<(Value, Value)>, usize), CanonicalError>(CanonicalError::MapKeyOrder));
                            }
                        }
                    }
                    return Err(CanonicalError::MapKeyOrder);
                }
                proof {
                    assert forall|k1: Value, v1: Value, k2: Value| #[trigger] entries_opening(bytes@, start as int, k1, v1, k2)
                        && n >= 2 implies (c == 1 ==> keys_in_order(k1, k2)) by {}
                }
            },
            None => {},
        }
        proof {
            assert forall|ss: Seq<(Seq<u8>, Seq<u8>)>| #[trigger] entries_premise(bytes@, start as int, n, ss) implies exists|w: Value|
                #[trigger] encodes_at(bytes@, key_end as int, w) && enc(w)->Ok_0 == ss[c as int].1 by {
                lemma_entry_at(bytes@, start as int, ss, c as int);
                assert(is_encoding(ss[c as int].1));
                let w = choose|w: Value| enc(w) == Ok::<Seq<u8>, EncodeFault>(ss[c as int].1);
                assert(encodes_at(bytes@, key_end as int, w));
            }
        }
        let (val, val_end) = match dec_at(bytes, key_end) {
            Ok(vv) => vv,
            Err(e) => {
                proof {
                    assert forall|ss: Seq<(Seq<u8>, Seq<u8>)>| #[trigger] entries_premise(bytes@, start as int, n, ss) implies false by {
                        let w = choose|w: Value| #[trigger] encodes_at(bytes@, key_end as int, w) && enc(w)->Ok_0 == ss[c as int].1;
                    }
                    assert forall|k1: Value, v1: Value, k2: Value| #[trigger] entries_opening(bytes@, start as int, k1, v1, k2)
                        && n >= 2 implies key_order_fault(k1, k2, Err::<(Vec<(Value, Value)>, usize), CanonicalError>(e)) by {
                        if c >= 1 {
                            lemma_in_order_no_fault(k1, k2, Err::<(Vec<(Value, Value)>, usize), CanonicalError>(e));
                        } else {
                            assert(encodes_at(bytes@, key_end as int, v1));
                        }
                    }
                }
                return Err(e);
            },
        };
        let ghost vb = bytes@.subrange(key_end as int, val_end as int);
        proof {
            assert forall|ss: Seq<(Seq<u8>, Seq<u8>)>| #[trigger] entries_premise(bytes@, start as int, n, ss) implies val_end == start
                + join_entries(ss.subrange(0, c + 1)).len() by {
                let w = choose|w: Value| #[trigger] encodes_at(bytes@, key_end as int, w) && enc(w)->Ok_0 == ss[c as int].1;
                lemma_join_step(ss, c as int);
            }
        }
        proof {
            let old_ks = ks;
            let old_vs = vs;
            assert forall|a: int, b: int| 0 <= a < b < old_ks.len() + 1 implies lex_lt(
                #[trigger] old_ks.push(kb)[a],
                #[trigger] old_ks.push(kb)[b],
            ) by {
                if b == old_ks.len() && a < old_ks.len() - 1 {
                    lemma_lex_transitive(old_ks[a], old_ks.last(), kb);
                }
            }
            let ne = entries@.push((key, val));
            assert(ne.subrange(0, c as int) =~= entries@);
            ks = old_ks.push(kb);
            vs = old_vs.push(vb);
            let z = zip_entries(ks, vs);
            assert(z.subrange(0, c as int) =~= zip_entries(old_ks, old_vs));
            lemma_join_step(z, c as int);
            assert(z.subrange(0, c + 1) =~= z);
            assert(bytes@.subrange(start as int, val_end as int) =~= bytes@.subrange(start as int, pos as int) + kb + vb);
        }
        proof {
            assert forall|k1: Value, v1: Value, k2: Value| #[trigger] entries_opening(bytes@, start as int, k1, v1, k2) && n
                >= 2 implies (c == 0 ==> val_end == start + enc(k1)->Ok_0.len() + enc(v1)->Ok_0.len() && ks[0] == enc(
                k1,
            )->Ok_0) && (c >= 1 ==> keys_in_order(k1, k2) && ks[0] == enc(k1)->Ok_0) by {
                if c == 0 {
                    assert(encodes_at(bytes@, key_end as int, v1));
                }
            }
        }
        entries.push((key, val));
        prev = Some((key_start, key_end));
        pos = val_end;
        c = c + 1;
    }
    proof {
        assert forall|k1: Value, v1: Value, k2: Value| #[trigger] entries_opening(bytes@, start as int, k1, v1, k2) && n >= 2
            implies key_order_fault(k1, k2, Ok::<(Vec<(Value, Value)>, usize), CanonicalError>((entries, pos))) by {
            lemma_in_order_no_fault(k1, k2, Ok::<(Vec<(Value, Value)>, usize), CanonicalError>((entries, pos)));
        }
    }
    proof {
        let z = zip_entries(ks, vs);
        assert forall|a: int, b: int| 0 <= a < b < z.len() implies lex_lt(#[trigger] z[a].0, #[trigger] z[b].0) by {
            assert(lex_lt(ks[a], ks[b]));
        }
        assert forall|ss: Seq<(Seq<u8>, Seq<u8>)>| #[trigger] entries_premise(bytes@, start as int, n, ss) implies pos == start
            + join_entries(ss).len() by {
            assert(ss.subrange(0, c as int) =~= ss);
        }
    }
    Ok((entries, pos))
}

/// A byte string that is the canonical encoding of some value.
pub open spec fn is_canonical(b: Seq<u8>) -> bool {
    exists|v: Value| enc(v) == Ok::<Seq<u8>, EncodeFault>(b)
}

/// Decodes a complete canonical encoding of one value. It succeeds exactly
/// on canonical encodings, and every accepted byte string is the canonical
/// encoding of the value returned, so encoding that value gives the same
/// bytes back.
pub fn decode(bytes: &[u8]) -> (r: Result<Value, CanonicalError>)
    ensures
        r is Ok <==> is_canonical(bytes@),
        r matches Ok(v) ==> enc(v) == Ok::<Seq<u8>, EncodeFault>(bytes@),
        bytes@.len() == 0 ==> r == Err::<Value, CanonicalError>(CanonicalError::Incomplete),
        bytes@.len() > 0 ==> decode_head_faults(bytes@, r),
        forall|m: u64, k1: Value, v1: Value, k2: Value| #[trigger] map_opening(bytes@, 0, m, k1, v1, k2) ==> key_order_fault(
            k1,
            k2,
            r,
        ),
{
    proof {
        assert(bytes@.subrange(0, bytes@.len() as int) =~= bytes@);
        if is_canonical(bytes@) {
            let w = choose|w: Value| enc(w) == Ok::<Seq<u8>, EncodeFault>(bytes@);
            assert(encodes_at(bytes@, 0, w));
        }
    }
    match dec_at(bytes, 0) {
        Ok((v, end)) => {
            assert(bytes@.subrange(0, bytes@.len() as int) =~= bytes@);
            if end != bytes.len() {
                return Err(CanonicalError::Trailing);
            }
            assert(bytes@.subrange(0, end as int) =~= bytes@);
            Ok(v)
        },
        Err(e) => {
            assert(bytes@.subrange(0, bytes@.len() as int) =~= bytes@);
            Err(e)
        },
    }
}

/// What decoding reports from the first bytes of an item alone.
pub open spec fn decode_head_faults<T>(b: Seq<u8>, r: Result<T, CanonicalError>) -> bool {
    let b0 = b[0];
    let ai = (b0 % 32) as u8;
    &&& (0xc0 <= b0 < 0xe0 ==> r == Err::<T, CanonicalError>(CanonicalError::Tag))
    &&& (ai == 31 && !(0xc0 <= b0 < 0xe0) ==> r == Err::<T, CanonicalError>(
        CanonicalError::Indefinite,
    ))
    &&& (b0 == 0xf9 || b0 == 0xfa ==> r == Err::<T, CanonicalError>(
        CanonicalError::NonCanonicalFloat,
    ))
    &&& (b0 == 0xfb && b.len() < 9 ==> r == Err::<T, CanonicalError>(
        CanonicalError::Incomplete,
    ))
    &&& (b0 == 0xfb && b.len() >= 9 && should_be_int(be_value(b.subrange(1, 9)) as u64) ==> r == Err::<T, CanonicalError>(CanonicalError::FloatShouldBeInt))
    &&& (b0 == 0xfb && b.len() >= 9 && !should_be_int(be_value(b.subrange(1, 9)) as u64) && canonical_float(
        be_value(b.subrange(1, 9)) as u64,
    ) != be_value(b.subrange(1, 9)) as u64 ==> r == Err::<T, CanonicalError>(CanonicalError::NonCanonicalFloat))
    &&& (b0 < 0xc0 && 24 <= ai <= 27 && b.len() < 1 + arg_width(ai) ==> r == Err::<T, CanonicalError>(CanonicalError::Incomplete))
    &&& (b0 < 0xc0 && 24 <= ai <= 27 && b.len() >= 1 + arg_width(ai) && !minimal_arg(
        ai,
        be_value(b.subrange(1, 1 + arg_width(ai) as int)),
    ) ==> r == Err::<T, CanonicalError>(CanonicalError::NonCanonicalInt))
}

} // verus!
