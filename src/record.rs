//! Records carried as canonical values: maps keyed by field names, integers,
//! digests as arrays of 32 byte-sized integers.
use vstd::prelude::*;
use vstd::utf8::{encode_utf8, encode_utf8_decode_utf8, is_ascii_chars, is_ascii_chars_encode_utf8};
use crate::canonical::{head, lex_cmp, Value, enc, EncodeFault, write_major, read_be, lemma_head_of, concat, lemma_concat_push, lemma_head_read, lemma_concat_split, lemma_concat_first};
pub use crate::canonical::{holds_at, lemma_holds_concat};

verus! {

/// The encoding of a text item.
pub open spec fn text_item(t: Seq<char>) -> Seq<u8> {
    head(3, encode_utf8(t).len()) + encode_utf8(t)
}

/// Appends the encoding of the text `t`.
pub fn write_text(t: &str, out: &mut Vec<u8>)
    ensures
        final(out)@ == old(out)@ + text_item(t@),
{
    let b = t.as_bytes();
    write_major(3, b.len() as u64, out);
    let mut i: usize = 0;
    let ghost mid = out@;
    while i < b.len()
        invariant
            i <= b@.len(),
            out@ == mid + b@.subrange(0, i as int),
        decreases b.len() - i,
    {
        out.push(b[i]);
        assert(b@.subrange(0, i + 1) =~= b@.subrange(0, i as int).push(b@[i as int]));
        i = i + 1;
    }
    assert(b@.subrange(0, i as int) =~= b@);
    assert(final(out)@ =~= old(out)@ + text_item(t@));
}

/// Whether two texts hold the same characters.
pub fn same_text(a: &str, b: &str) -> (r: bool)
    ensures
        r == (a@ == b@),
{
    let r = lex_cmp(a.as_bytes(), b.as_bytes()) == 0;
    proof {
        if r {
            encode_utf8_decode_utf8(a@);
            encode_utf8_decode_utf8(b@);
        }
    }
    r
}

/// Whether `k` is the text key `name`.
pub open spec fn is_key(k: Value, name: Seq<char>) -> bool {
    k matches Value::Text(t) && t@ == name
}

/// The value under the first entry keyed by the text `name`.
pub open spec fn find_field(s: Seq<(Value, Value)>, name: Seq<char>) -> Option<Value>
    decreases s.len(),
{
    if s.len() == 0 {
        None
    } else if is_key(s[0].0, name) {
        Some(s[0].1)
    } else {
        find_field(s.drop_first(), name)
    }
}

/// The field `name` of a record value; `None` when `v` is no map or has no
/// such field.
pub open spec fn field_of(v: Value, name: Seq<char>) -> Option<Value> {
    match v {
        Value::Mapping(entries) => find_field(entries@, name),
        _ => None,
    }
}

/// Looks up the field `name` among map entries.
pub fn find_field_exec<'a>(entries: &'a Vec<(Value, Value)>, name: &str) -> (r: Option<&'a Value>)
    ensures
        match find_field(entries@, name@) {
            Some(x) => r matches Some(y) && *y == x,
            None => r is None,
        },
{
    let mut i: usize = 0;
    assert(entries@.subrange(0, entries@.len() as int) =~= entries@);
    while i < entries.len()
        invariant
            i <= entries@.len(),
            find_field(entries@, name@) == find_field(entries@.subrange(i as int, entries@.len() as int), name@),
        decreases entries.len() - i,
    {
        let ghost rest = entries@.subrange(i as int, entries@.len() as int);
        assert(rest.drop_first() =~= entries@.subrange(i + 1, entries@.len() as int));
        let found = match &entries[i].0 {
            Value::Text(t) => same_text(t.as_str(), name),
            _ => false,
        };
        if found {
            return Some(&entries[i].1);
        }
        i = i + 1;
    }
    None
}

/// Looks up the field `name` of a record value.
pub fn field<'a>(v: &'a Value, name: &str) -> (r: Option<&'a Value>)
    ensures
        match field_of(*v, name@) {
            Some(x) => r matches Some(y) && *y == x,
            None => r is None,
        },
{
    match v {
        Value::Mapping(entries) => find_field_exec(entries, name),
        _ => None,
    }
}

/// The unsigned 64-bit integer a value holds, if any.
pub open spec fn u64_of(v: Value) -> Option<u64> {
    match v {
        Value::Integer(n) => if 0 <= n < 0x1_0000_0000_0000_0000 { Some(n as u64) } else { None },
        _ => None,
    }
}

pub fn as_u64(v: &Value) -> (r: Option<u64>)
    ensures
        r == u64_of(*v),
{
    match v {
        Value::Integer(n) => {
            if 0 <= *n && *n < 0x1_0000_0000_0000_0000 {
                Some(*n as u64)
            } else {
                None
            }
        },
        _ => None,
    }
}

/// Whether `v` is the record form of the digest `h`: an array of its 32
/// bytes as integers.
pub open spec fn is_hash_value(v: Value, h: crate::hash::Hash) -> bool {
    v matches Value::Array(items) && items@.len() == 32 && forall|i: int|
        0 <= i < 32 ==> #[trigger] items@[i] == Value::Integer(h.0@[i] as i128)
}

/// Whether `v` is an integer in `0 .. 256`.
pub open spec fn is_byte(v: Value) -> bool {
    u64_of(v) matches Some(b) && b < 256
}

/// Whether `v` has the shape of a digest.
pub open spec fn hash_shaped(v: Value) -> bool {
    v matches Value::Array(items) && items@.len() == 32 && forall|i: int|
        0 <= i < 32 ==> #[trigger] is_byte(items@[i])
}

/// The record form of a digest.
pub fn hash_value(h: &crate::hash::Hash) -> (r: Value)
    ensures
        is_hash_value(r, *h),
{
    let mut items: Vec<Value> = Vec::new();
    let mut i: usize = 0;
    while i < 32
        invariant
            i <= 32,
            items@.len() == i,
            forall|j: int| 0 <= j < i ==> #[trigger] items@[j] == Value::Integer(h.0@[j] as i128),
        decreases 32 - i,
    {
        items.push(Value::Integer(h.0[i] as i128));
        i = i + 1;
    }
    Value::Array(items)
}

/// The digest a value holds in record form, if it has that shape.
pub fn as_hash(v: &Value) -> (r: Option<crate::hash::Hash>)
    ensures
        r is Some <==> hash_shaped(*v),
        r matches Some(h) ==> is_hash_value(*v, h),
{
    match v {
        Value::Array(items) => {
            if items.len() != 32 {
                return None;
            }
            let mut a: [u8; 32] = [0u8; 32];
            let mut i: usize = 0;
            while i < 32
                invariant
                    *v == Value::Array(*items),
                    items@.len() == 32,
                    i <= 32,
                    forall|j: int| 0 <= j < i ==> #[trigger] is_byte(items@[j]),
                    forall|j: int| 0 <= j < i ==> #[trigger] items@[j] == Value::Integer(a@[j] as i128),
                decreases 32 - i,
            {
                match as_u64(&items[i]) {
                    Some(b) => {
                        if b >= 256 {
                            assert(!is_byte(items@[i as int]));
                            return None;
                        }
                        a[i] = b as u8;
                    },
                    None => {
                        assert(!is_byte(items@[i as int]));
                        return None;
                    },
                }
                i = i + 1;
            }
            Some(crate::hash::Hash(a))
        },
        _ => None,
    }
}


/// Whether `v` is the record form of the byte string `b`: an array of its
/// bytes as integers.
pub open spec fn is_bytes_value(v: Value, b: Seq<u8>) -> bool {
    v matches Value::Array(items) && items@.len() == b.len() && forall|i: int|
        0 <= i < b.len() ==> #[trigger] items@[i] == Value::Integer(b[i] as i128)
}

/// The record form of a byte string.
pub fn bytes_value(b: &[u8]) -> (r: Value)
    ensures
        is_bytes_value(r, b@),
{
    let mut items: Vec<Value> = Vec::new();
    let mut i: usize = 0;
    while i < b.len()
        invariant
            i <= b@.len(),
            items@.len() == i,
            forall|j: int| 0 <= j < i ==> #[trigger] items@[j] == Value::Integer(b@[j] as i128),
        decreases b.len() - i,
    {
        items.push(Value::Integer(b[i] as i128));
        i = i + 1;
    }
    Value::Array(items)
}

/// Whether `v` is the record form of some byte string.
pub open spec fn bytes_shaped(v: Value) -> bool {
    v matches Value::Array(items) && forall|i: int| 0 <= i < items@.len() ==> #[trigger] is_byte(items@[i])
}

/// Whether `v` is the record form of some list of digests.
pub open spec fn hashes_shaped(v: Value) -> bool {
    v matches Value::Array(items) && forall|i: int| 0 <= i < items@.len() ==> #[trigger] hash_shaped(items@[i])
}

/// A digest's record form determines the digest.
pub proof fn lemma_hash_form_unique(v: Value)
    ensures
        forall|a: crate::hash::Hash, b: crate::hash::Hash| is_hash_value(v, a) && is_hash_value(v, b) ==> a == b,
        forall|a: crate::hash::Hash| is_hash_value(v, a) ==> hash_shaped(v),
{
    assert forall|a: crate::hash::Hash, b: crate::hash::Hash| is_hash_value(v, a) && is_hash_value(v, b) implies a == b by {
        let items = v->Array_0;
        assert forall|i: int| 0 <= i < 32 implies a.0@[i] == b.0@[i] by {
            assert(items@[i] == Value::Integer(a.0@[i] as i128));
            assert(items@[i] == Value::Integer(b.0@[i] as i128));
        }
        assert(a.0@ =~= b.0@);
        assert(a.0 == b.0);
    }
    assert forall|a: crate::hash::Hash| is_hash_value(v, a) implies hash_shaped(v) by {
        let items = v->Array_0;
        assert forall|i: int| 0 <= i < 32 implies #[trigger] is_byte(items@[i]) by {
            assert(items@[i] == Value::Integer(a.0@[i] as i128));
        }
    }
}

/// Record forms determine what they hold.
pub proof fn lemma_record_forms_unique(v: Value)
    ensures
        forall|a: Seq<u8>, b: Seq<u8>| is_bytes_value(v, a) && is_bytes_value(v, b) ==> a == b,
        forall|a: crate::hash::Hash, b: crate::hash::Hash| is_hash_value(v, a) && is_hash_value(v, b) ==> a == b,
        forall|a: Seq<crate::hash::Hash>, b: Seq<crate::hash::Hash>| is_hashes_value(v, a) && is_hashes_value(v, b) ==> a == b,
        forall|a: Seq<u8>| is_bytes_value(v, a) ==> bytes_shaped(v),
        forall|a: crate::hash::Hash| is_hash_value(v, a) ==> hash_shaped(v),
        forall|a: Seq<crate::hash::Hash>| is_hashes_value(v, a) ==> hashes_shaped(v),
{
    assert forall|a: Seq<u8>, b: Seq<u8>| is_bytes_value(v, a) && is_bytes_value(v, b) implies a == b by {
        let items = v->Array_0;
        assert forall|i: int| 0 <= i < a.len() implies a[i] == b[i] by {
            assert(items@[i] == Value::Integer(a[i] as i128));
            assert(items@[i] == Value::Integer(b[i] as i128));
        }
        assert(a =~= b);
    }
    lemma_hash_form_unique(v);
    assert forall|a: Seq<crate::hash::Hash>, b: Seq<crate::hash::Hash>| is_hashes_value(v, a) && is_hashes_value(v, b) implies a == b by {
        let items = v->Array_0;
        assert forall|i: int| 0 <= i < a.len() implies a[i] == b[i] by {
            lemma_hash_form_unique(items@[i]);
            assert(is_hash_value(items@[i], a[i]));
            assert(is_hash_value(items@[i], b[i]));
        }
        assert(a =~= b);
    }
    assert forall|a: Seq<u8>| is_bytes_value(v, a) implies bytes_shaped(v) by {
        let items = v->Array_0;
        assert forall|i: int| 0 <= i < items@.len() implies #[trigger] is_byte(items@[i]) by {
            assert(items@[i] == Value::Integer(a[i] as i128));
        }
    }
    assert forall|a: Seq<crate::hash::Hash>| is_hashes_value(v, a) implies hashes_shaped(v) by {
        let items = v->Array_0;
        assert forall|i: int| 0 <= i < items@.len() implies #[trigger] hash_shaped(items@[i]) by {
            lemma_hash_form_unique(items@[i]);
            assert(is_hash_value(items@[i], a[i]));
        }
    }
}

/// The byte string a value holds in record form, if it has that shape.
pub fn as_bytes_value(v: &Value) -> (r: Option<Vec<u8>>)
    ensures
        r is Some <==> bytes_shaped(*v),
        r matches Some(b) ==> is_bytes_value(*v, b@),
{
    match v {
        Value::Array(items) => {
            let mut out: Vec<u8> = Vec::new();
            let mut i: usize = 0;
            while i < items.len()
                invariant
                    *v == Value::Array(*items),
                    i <= items@.len(),
                    out@.len() == i,
                    forall|j: int| 0 <= j < i ==> #[trigger] items@[j] == Value::Integer(out@[j] as i128),
                    forall|j: int| 0 <= j < i ==> #[trigger] is_byte(items@[j]),
                decreases items.len() - i,
            {
                match as_u64(&items[i]) {
                    Some(b) => {
                        if b >= 256 {
                            assert(!is_byte(items@[i as int]));
                            assert(v->Array_0@[i as int] == items@[i as int]);
                            assert(!bytes_shaped(*v));
                            return None;
                        }
                        out.push(b as u8);
                    },
                    None => {
                        assert(!is_byte(items@[i as int]));
                        assert(v->Array_0@[i as int] == items@[i as int]);
                        assert(!bytes_shaped(*v));
                        return None;
                    },
                }
                i = i + 1;
            }
            Some(out)
        },
        _ => None,
    }
}

/// Whether `v` is the record form of the digests `hs`.
pub open spec fn is_hashes_value(v: Value, hs: Seq<crate::hash::Hash>) -> bool {
    v matches Value::Array(items) && items@.len() == hs.len() && forall|i: int|
        0 <= i < hs.len() ==> is_hash_value(#[trigger] items@[i], hs[i])
}

/// The record form of a list of digests.
pub fn hashes_value(hs: &[crate::hash::Hash]) -> (r: Value)
    ensures
        is_hashes_value(r, hs@),
{
    let mut items: Vec<Value> = Vec::new();
    let mut i: usize = 0;
    while i < hs.len()
        invariant
            i <= hs@.len(),
            items@.len() == i,
            forall|j: int| 0 <= j < i ==> is_hash_value(#[trigger] items@[j], hs@[j]),
        decreases hs.len() - i,
    {
        items.push(hash_value(&hs[i]));
        i = i + 1;
    }
    Value::Array(items)
}

/// The digests a value holds in record form, if it has that shape.
pub fn as_hashes(v: &Value) -> (r: Option<Vec<crate::hash::Hash>>)
    ensures
        r is Some <==> hashes_shaped(*v),
        r matches Some(hs) ==> is_hashes_value(*v, hs@),
{
    match v {
        Value::Array(items) => {
            let mut out: Vec<crate::hash::Hash> = Vec::new();
            let mut i: usize = 0;
            while i < items.len()
                invariant
                    *v == Value::Array(*items),
                    i <= items@.len(),
                    out@.len() == i,
                    forall|j: int| 0 <= j < i ==> is_hash_value(#[trigger] items@[j], out@[j]),
                    forall|j: int| 0 <= j < i ==> #[trigger] hash_shaped(items@[j]),
                decreases items.len() - i,
            {
                match as_hash(&items[i]) {
                    Some(h) => out.push(h),
                    None => {
                        assert(!hash_shaped(items@[i as int]));
                        assert(v->Array_0@[i as int] == items@[i as int]);
                        assert(!hashes_shaped(*v));
                        return None;
                    },
                }
                i = i + 1;
            }
            Some(out)
        },
        _ => None,
    }
}

/// A text value.
pub fn text_value(t: &str) -> (r: Value)
    ensures
        r matches Value::Text(s) && s@ == t@,
        enc(r) == Ok::<Seq<u8>, EncodeFault>(text_item(t@)),
{
    let b = t.as_bytes();
    let _len: usize = b.len();
    Value::Text(t.to_owned())
}

/// The encoding of a short ASCII text: one head byte, then its characters.
pub proof fn lemma_ascii_text_item(t: Seq<char>)
    requires
        is_ascii_chars(t),
        t.len() < 24,
    ensures
        text_item(t).len() == 1 + t.len(),
        text_item(t)[0] == (0x60 + t.len()) as u8,
{
    is_ascii_chars_encode_utf8(t);
}


// --- Reading records from their exact encodings ------------------------------

/// Whether `p` holds `lit` at `pos`.
pub fn starts_with(p: &[u8], pos: usize, lit: &[u8]) -> (r: bool)
    ensures
        r == holds_at(p@, pos as int, lit@),
{
    if pos > p.len() || lit.len() > p.len() - pos {
        return false;
    }
    lex_cmp(&p[pos..pos + lit.len()], lit) == 0
}

/// The length of the head with major type `major` and argument `v`.
pub open spec fn head_len(major: u8, v: u64) -> int {
    head(major, v as nat).len() as int
}

/// Reads the head of an item of major type `major` at `pos`: accepts
/// exactly the shortest form of an argument.
pub fn read_head(p: &[u8], pos: usize, major: u8) -> (r: Option<(u64, usize)>)
    requires
        major <= 5,
    ensures
        r matches Some((v, end)) ==> end == pos + head_len(major, v) && holds_at(p@, pos as int, head(major, v as nat)),
        forall|v: u64| #[trigger] holds_at(p@, pos as int, head(major, v as nat)) ==> r == Some((v, (pos + head_len(major, v)) as usize)),
{
    if pos >= p.len() {
        proof {
            assert forall|v: u64| #[trigger] holds_at(p@, pos as int, head(major, v as nat)) implies false by {
                lemma_head_read(major, v);
            }
        }
        return None;
    }
    let b0 = p[pos];
    proof {
        assert forall|v: u64| #[trigger] holds_at(p@, pos as int, head(major, v as nat)) implies head(major, v as nat)[0] == b0 by {
            assert(p@.subrange(pos as int, pos + head(major, v as nat).len())[0] == p@[pos as int]);
        }
    }
    let ai: u8 = b0 % 32;
    if b0 / 32 != major || ai > 27 {
        proof {
            assert forall|v: u64| #[trigger] holds_at(p@, pos as int, head(major, v as nat)) implies false by {
                lemma_head_read(major, v);
            }
        }
        return None;
    }
    if ai < 24 {
        proof {
            assert(p@.subrange(pos as int, pos + 1) =~= seq![b0]);
            assert forall|v: u64| #[trigger] holds_at(p@, pos as int, head(major, v as nat)) implies v == ai by {
                lemma_head_read(major, v);
            }
            assert(head(major, ai as nat) == seq![b0]);
        }
        return Some((ai as u64, pos + 1));
    }
    let k: usize = if ai == 24 {
        1
    } else if ai == 25 {
        2
    } else if ai == 26 {
        4
    } else {
        8
    };
    if p.len() - pos - 1 < k {
        proof {
            assert forall|v: u64| #[trigger] holds_at(p@, pos as int, head(major, v as nat)) implies false by {
                lemma_head_read(major, v);
            }
        }
        return None;
    }
    let n = read_be(p, pos + 1, k);
    let minimal = (ai == 24 && n >= 24) || (ai == 25 && n >= 0x100) || (ai == 26 && n >= 0x1_0000) || (ai == 27
        && n >= 0x1_0000_0000);
    proof {
        assert forall|v: u64| #[trigger] holds_at(p@, pos as int, head(major, v as nat)) implies v == n && minimal by {
            lemma_head_read(major, v);
            let h = head(major, v as nat);
            assert(h.subrange(1, h.len() as int) =~= p@.subrange(pos + 1, pos + 1 + k));
        }
    }
    if !minimal {
        return None;
    }
    proof {
        lemma_head_of(major, ai, p@.subrange(pos + 1, pos + 1 + k));
        assert(p@.subrange(pos as int, pos + 1 + k) =~= seq![b0] + p@.subrange(pos + 1, pos + 1 + k));
        assert((major * 32 + ai) as u8 == b0);
    }
    Some((n, pos + 1 + k))
}

/// Reads a text item at `pos`.
pub fn read_text(p: &[u8], pos: usize) -> (r: Option<(String, usize)>)
    ensures
        r matches Some((t, end)) ==> end == pos + text_item(t@).len() && holds_at(p@, pos as int, text_item(t@)),
        forall|x: Seq<char>| #[trigger] holds_at(p@, pos as int, text_item(x)) ==> (r matches Some((t, end)) && t@ == x
            && end == pos + text_item(x).len()),
{
    let plen = p.len();
    proof {
        assert forall|x: Seq<char>| #[trigger] holds_at(p@, pos as int, text_item(x)) implies holds_at(
            p@,
            pos as int,
            head(3, encode_utf8(x).len() as u64 as nat),
        ) && encode_utf8(x).len() < 0x1_0000_0000_0000_0000 by {
            let it = text_item(x);
            let hh = head(3, encode_utf8(x).len());
            assert(p@.subrange(pos as int, pos + hh.len()) =~= it.subrange(0, hh.len() as int));
            assert(it.subrange(0, hh.len() as int) =~= hh);
        }
    }
    let (n, q) = match read_head(p, pos, 3) {
        Some(x) => x,
        None => {
            return None;
        },
    };
    if ((plen - q) as u64) < n {
        proof {
            assert forall|x: Seq<char>| #[trigger] holds_at(p@, pos as int, text_item(x)) implies false by {
                assert(holds_at(p@, pos as int, head(3, encode_utf8(x).len() as u64 as nat)));
            }
        }
        return None;
    }
    let end = q + n as usize;
    let body = &p[q..end];
    proof {
        assert forall|x: Seq<char>| #[trigger] holds_at(p@, pos as int, text_item(x)) implies body@ == encode_utf8(x) by {
            assert(holds_at(p@, pos as int, head(3, encode_utf8(x).len() as u64 as nat)));
            let it = text_item(x);
            let hl = head(3, encode_utf8(x).len()).len();
            assert(body@ =~= p@.subrange(pos as int, pos + it.len()).subrange(hl as int, it.len() as int));
            assert(it.subrange(hl as int, it.len() as int) =~= encode_utf8(x));
        }
    }
    match crate::canonical::utf8_text(body) {
        Some(t) => {
            proof {
                vstd::utf8::decode_utf8_encode_utf8(body@);
                assert(p@.subrange(pos as int, end as int) =~= p@.subrange(pos as int, q as int) + body@);
                assert forall|x: Seq<char>| #[trigger] holds_at(p@, pos as int, text_item(x)) implies t@ == x by {
                    assert(body@ == encode_utf8(x));
                    encode_utf8_decode_utf8(x);
                }
            }
            Some((t, end))
        },
        None => {
            proof {
                assert forall|x: Seq<char>| #[trigger] holds_at(p@, pos as int, text_item(x)) implies false by {
                    assert(body@ == encode_utf8(x));
                    vstd::utf8::encode_utf8_valid_utf8(x);
                }
            }
            None
        },
    }
}

/// Reads the item of a digest at `pos`: an array of 32 byte-sized integers.
pub fn read_hash(p: &[u8], pos: usize) -> (r: Option<(crate::hash::Hash, usize)>)
    ensures
        r matches Some((h, end)) ==> end == pos + crate::events::hash_item(h).len() && holds_at(
            p@,
            pos as int,
            crate::events::hash_item(h),
        ),
        forall|h: crate::hash::Hash| #[trigger] holds_at(p@, pos as int, crate::events::hash_item(h)) ==> r == Some(
            (h, (pos + crate::events::hash_item(h).len()) as usize),
        ),
{
    let ghost item = |h: crate::hash::Hash| crate::events::hash_item(h);
    let ghost parts = |h: crate::hash::Hash| h.0@.map_values(|b: u8| head(0, b as nat));
    let mut hdr: Vec<u8> = Vec::new();
    write_major(4, 32, &mut hdr);
    proof {
        assert forall|h: crate::hash::Hash| #[trigger] holds_at(p@, pos as int, crate::events::hash_item(h)) implies holds_at(p@, pos as int, hdr@) by {
            let it = crate::events::hash_item(h);
            assert(p@.subrange(pos as int, pos + hdr@.len()) =~= it.subrange(0, hdr@.len() as int));
            assert(it.subrange(0, hdr@.len() as int) =~= hdr@);
        }
    }
    if !starts_with(p, pos, hdr.as_slice()) {
        return None;
    }
    let plen = p.len();
    let start = pos + hdr.len();
    let mut cur = start;
    let mut a: [u8; 32] = [0u8; 32];
    let mut i: usize = 0;
    assert(a@.subrange(0, 0).map_values(|b: u8| head(0, b as nat)) =~= Seq::<Seq<u8>>::empty());
    assert(concat(Seq::<Seq<u8>>::empty()) =~= Seq::<u8>::empty());
    assert(p@.subrange(start as int, start as int) =~= Seq::<u8>::empty());
    assert(holds_at(p@, start as int, concat(Seq::<Seq<u8>>::empty())));
    while i < 32
        invariant
            start == pos + hdr@.len(),
            hdr@ == head(4, 32),
            i <= 32,
            start <= cur,
            cur == start + concat(a@.subrange(0, i as int).map_values(|b: u8| head(0, b as nat))).len(),
            holds_at(p@, start as int, concat(a@.subrange(0, i as int).map_values(|b: u8| head(0, b as nat)))),
            forall|h: crate::hash::Hash| #[trigger] holds_at(p@, pos as int, crate::events::hash_item(h)) ==> h.0@.subrange(0, i as int) == a@.subrange(0, i as int),
        decreases 32 - i,
    {
        let ghost prev = a@.subrange(0, i as int).map_values(|b: u8| head(0, b as nat));
        proof {
            assert forall|h: crate::hash::Hash| #[trigger] holds_at(p@, pos as int, crate::events::hash_item(h)) implies holds_at(p@, cur as int, head(0, h.0@[i as int] as u64 as nat)) by {
                let ms = h.0@.map_values(|b: u8| head(0, b as nat));
                lemma_concat_split(ms, i as int);
                assert(ms.subrange(0, i as int) =~= prev);
                let it = crate::events::hash_item(h);
                assert(it =~= hdr@ + concat(ms));
                assert(concat(ms) =~= concat(ms.subrange(0, i as int)) + concat(ms.subrange(i as int, 32)));
                lemma_concat_first(ms.subrange(i as int, 32));
                assert(ms.subrange(i as int, 32)[0] == head(0, h.0@[i as int] as nat));
                let off: int = (hdr@.len() + concat(prev).len()) as int;
                let hb = head(0, h.0@[i as int] as nat);
                assert(it.subrange(off, off + hb.len()) =~= hb);
                assert(p@.subrange(cur as int, cur + hb.len()) =~= p@.subrange(pos as int, pos + it.len()).subrange(off, off + hb.len()));
            }
        }
        let (b, next) = match read_head(p, cur, 0) {
            Some(x) => x,
            None => {
                return None;
            },
        };
        if b >= 256 {
            return None;
        }
        let ghost old_a = a@;
        a[i] = b as u8;
        proof {
            assert(a@.subrange(0, i as int) =~= old_a.subrange(0, i as int));
            assert(a@.subrange(0, i + 1).map_values(|b: u8| head(0, b as nat)) =~= prev.push(head(0, b as nat)));
            lemma_concat_push(prev, head(0, b as nat));
            assert(p@.subrange(start as int, next as int) =~= p@.subrange(start as int, cur as int) + p@.subrange(cur as int, next as int));
            assert forall|h: crate::hash::Hash| #[trigger] holds_at(p@, pos as int, crate::events::hash_item(h)) implies h.0@.subrange(0, i + 1) == a@.subrange(0, i + 1) by {
                assert(h.0@.subrange(0, i + 1) =~= h.0@.subrange(0, i as int).push(h.0@[i as int]));
                assert(a@.subrange(0, i + 1) =~= a@.subrange(0, i as int).push(a@[i as int]));
            }
        }
        cur = next;
        i = i + 1;
    }
    let h = crate::hash::Hash(a);
    proof {
        assert(a@.subrange(0, 32) =~= a@);
        let it = crate::events::hash_item(h);
        assert(it =~= hdr@ + concat(a@.map_values(|b: u8| head(0, b as nat))));
        assert(p@.subrange(pos as int, cur as int) =~= p@.subrange(pos as int, start as int) + p@.subrange(start as int, cur as int));
        assert forall|h2: crate::hash::Hash| #[trigger] holds_at(p@, pos as int, crate::events::hash_item(h2)) implies h2 == h by {
            assert(h2.0@.subrange(0, 32) =~= h2.0@);
            assert(h2.0@ == a@);
            assert(h2.0 == a);
        }
    }
    Some((h, cur))
}

} // verus!
