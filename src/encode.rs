use crate::der_parser::{
    be_value, class_of, lemma_decode_all_unfold, spec_decode_all, spec_decode_tlv, spec_header,
    spec_read_length, spec_read_tag, spec_tag_number, ASN1Error, OwnedObject, OwnedValue,
    SpecObject, SpecValue, Tag, TagClass,
};
use crate::tree::lemma_flatten_step;
use vstd::arithmetic::power::pow;
use vstd::prelude::*;
use vstd::slice::slice_to_vec;

verus! {

/// The digits of `n` in base `b`, most significant first, with no leading
/// zero; none for zero.
pub open spec fn digits(n: nat, b: nat) -> Seq<u8>
    recommends
        b > 1,
    decreases n,
{
    if n == 0 || b <= 1 {
        Seq::empty()
    } else {
        proof {
            assert(n / b < n) by (nonlinear_arith)
                requires
                    b > 1,
                    n > 0,
            ;
        }
        digits(n / b, b).push((n % b) as u8)
    }
}

/// Base-128 digits with the high bit set on every digit but the last.
pub open spec fn continued(d: Seq<u8>) -> Seq<u8> {
    Seq::new(d.len(), |i: int| if i < d.len() - 1 { (d[i] + 128) as u8 } else { d[i] })
}

/// The arcs after the first two of an object identifier: base-128 values
/// that end at a byte with a clear high bit, each kept to 32 bits, with
/// `acc` accumulated so far. An unfinished last value is dropped.
pub open spec fn oid_tail(b: Seq<u8>, acc: u32) -> Seq<u32>
    decreases b.len(),
{
    if b.len() == 0 {
        Seq::empty()
    } else {
        let v = ((acc as nat * 128 + (b[0] % 128) as nat) % 0x1_0000_0000) as u32;
        if b[0] < 128 {
            seq![v] + oid_tail(b.drop_first(), 0)
        } else {
            oid_tail(b.drop_first(), v)
        }
    }
}

/// The arcs of an object identifier's value bytes: the first byte gives
/// the first two arcs, the rest give one arc each in base 128.
pub open spec fn spec_oid_arcs(b: Seq<u8>) -> Seq<u32> {
    if b.len() == 0 {
        Seq::empty()
    } else {
        seq![(b[0] / 40) as u32, (b[0] % 40) as u32] + oid_tail(b.drop_first(), 0)
    }
}

/// The two class bits of a tag, as a number.
pub open spec fn class_bits(c: TagClass) -> nat {
    match c {
        TagClass::Universal => 0,
        TagClass::Application => 1,
        TagClass::ContextSpecific => 2,
        TagClass::Private => 3,
    }
}

/// The canonical encoding of a tag: one byte for numbers below 31, else
/// the escape value 31 followed by the number in base 128.
pub open spec fn encode_tag(tag: Tag) -> Seq<u8> {
    let first = class_bits(tag.class) * 64 + if tag.constructed {
        32nat
    } else {
        0nat
    };
    if tag.number < 31 {
        seq![(first + tag.number) as u8]
    } else {
        seq![(first + 31) as u8] + continued(digits(tag.number as nat, 128))
    }
}

/// The canonical encoding of a length: the short form below 128, else the
/// count of big-endian length bytes with the high bit set, then the bytes.
pub open spec fn encode_length(len: nat) -> Seq<u8> {
    if len < 128 {
        seq![len as u8]
    } else {
        seq![(128 + digits(len, 256).len()) as u8] + digits(len, 256)
    }
}

/// The value bytes of an object: its payload, or its children's
/// encodings one after the other.
pub open spec fn encode_value(o: SpecObject) -> Seq<u8>
    decreases o, 0nat,
{
    match o.value {
        SpecValue::Primitive(b) => b,
        SpecValue::Constructed(c) => {
            proof {
                assert(decreases_to!(o => o.value));
                assert(decreases_to!(o.value => o.value->Constructed_0));
            }
            child_encodings(c).flatten()
        },
    }
}

/// The full encoding of each object of `c`.
pub open spec fn child_encodings(c: Seq<SpecObject>) -> Seq<Seq<u8>>
    decreases c, 1nat,
{
    proof {
        assert forall|i: int| 0 <= i < c.len() implies decreases_to!(c => c[i]) by {
            broadcast use vstd::seq::axiom_seq_index_decreases;

        }
    }
    Seq::new(
        c.len(),
        |i: int|
            if 0 <= i < c.len() {
                encode_tag(c[i].tag) + encode_length(c[i].length) + encode_value(c[i])
            } else {
                Seq::empty()
            },
    )
}

/// The full encoding of an object: tag, length and value bytes.
pub open spec fn encode_object(o: SpecObject) -> Seq<u8> {
    encode_tag(o.tag) + encode_length(o.length) + encode_value(o)
}

proof fn lemma_digits_len(n: nat, b: nat, k: nat)
    requires
        b > 1,
        n < pow(b as int, k),
    ensures
        digits(n, b).len() <= k,
    decreases k,
{
    if n > 0 {
        if k == 0 {
            assert(pow(b as int, 0) == 1) by {
                vstd::arithmetic::power::lemma_pow0(b as int);
            }
        } else {
            let p = pow(b as int, (k - 1) as nat);
            assert(pow(b as int, k) == b * p) by {
                vstd::arithmetic::power::lemma_pow_adds(b as int, 1, (k - 1) as nat);
                vstd::arithmetic::power::lemma_pow1(b as int);
            }
            assert(n / b < p) by (nonlinear_arith)
                requires
                    n < b * p,
                    b > 1,
            ;
            lemma_digits_len(n / b, b, (k - 1) as nat);
        }
    }
}

/// Decodes the arcs of an object identifier from its value bytes.
pub fn oid_arcs(bytes: &[u8]) -> (r: Vec<u32>)
    ensures
        r@ == spec_oid_arcs(bytes@),
{
    let mut arcs: Vec<u32> = Vec::new();
    if bytes.len() == 0 {
        return arcs;
    }
    arcs.push((bytes[0] / 40) as u32);
    arcs.push((bytes[0] % 40) as u32);
    let mut value: u32 = 0;
    let mut i: usize = 1;
    assert(bytes@.subrange(1, bytes@.len() as int) =~= bytes@.drop_first());
    while i < bytes.len()
        invariant
            1 <= i <= bytes@.len(),
            spec_oid_arcs(bytes@) == arcs@ + oid_tail(
                bytes@.subrange(i as int, bytes@.len() as int),
                value,
            ),
        decreases bytes@.len() - i,
    {
        let b = bytes[i];
        let ghost rest = bytes@.subrange(i as int, bytes@.len() as int);
        assert(rest.drop_first() =~= bytes@.subrange(i + 1, bytes@.len() as int));
        let next = ((value as u64 * 128 + (b % 128) as u64) % 0x1_0000_0000) as u32;
        if b < 128 {
            let ghost before = arcs@;
            arcs.push(next);
            assert(before + (seq![next] + oid_tail(rest.drop_first(), 0)) =~= arcs@ + oid_tail(
                rest.drop_first(),
                0,
            ));
            value = 0;
        } else {
            value = next;
        }
        i = i + 1;
    }
    assert(arcs@ + oid_tail(bytes@.subrange(i as int, bytes@.len() as int), value) =~= arcs@);
    arcs
}

fn tag_bytes(tag: &Tag) -> (r: Vec<u8>)
    ensures
        r@ == encode_tag(*tag),
{
    let class: u8 = match tag.class {
        TagClass::Universal => 0,
        TagClass::Application => 1,
        TagClass::ContextSpecific => 2,
        TagClass::Private => 3,
    };
    let first: u8 = class * 64 + if tag.constructed {
        32
    } else {
        0
    };
    let mut out: Vec<u8> = Vec::new();
    if tag.number < 31 {
        out.push(first + tag.number as u8);
        assert(out@ =~= encode_tag(*tag));
        return out;
    }
    out.push(first + 31);
    let mut stack: Vec<u8> = Vec::new();
    let mut n: u32 = tag.number;
    while n > 0
        invariant
            digits(tag.number as nat, 128) == digits(n as nat, 128) + stack@,
            forall|i: int| 0 <= i < stack@.len() ==> #[trigger] stack@[i] < 128,
        decreases n,
    {
        let ghost before = stack@;
        stack.insert(0, (n % 128) as u8);
        assert(digits(n as nat, 128) == digits((n / 128) as nat, 128).push((n % 128) as u8));
        assert(digits((n / 128) as nat, 128) + stack@ =~= digits(n as nat, 128) + before);
        n = n / 128;
    }
    assert(digits(n as nat, 128) =~= Seq::<u8>::empty());
    assert(stack@ =~= digits(tag.number as nat, 128));
    let ghost head = out@;
    let mut i: usize = 0;
    while i < stack.len()
        invariant
            i <= stack@.len(),
            forall|j: int| 0 <= j < stack@.len() ==> #[trigger] stack@[j] < 128,
            out@ == head + continued(stack@).take(i as int),
        decreases stack@.len() - i,
    {
        let d = stack[i];
        if i + 1 < stack.len() {
            out.push(d + 128);
        } else {
            out.push(d);
        }
        i = i + 1;
        assert(out@ =~= head + continued(stack@).take(i as int));
    }
    assert(continued(stack@).take(stack@.len() as int) =~= continued(stack@));
    out
}

fn length_bytes(length: usize) -> (r: Vec<u8>)
    ensures
        r@ == encode_length(length as nat),
{
    let mut out: Vec<u8> = Vec::new();
    if length < 128 {
        out.push(length as u8);
        assert(out@ =~= encode_length(length as nat));
        return out;
    }
    let mut digits_be: Vec<u8> = Vec::new();
    let mut n: usize = length;
    while n > 0
        invariant
            digits(length as nat, 256) == digits(n as nat, 256) + digits_be@,
        decreases n,
    {
        let ghost before = digits_be@;
        digits_be.insert(0, (n % 256) as u8);
        assert(digits(n as nat, 256) == digits((n / 256) as nat, 256).push((n % 256) as u8));
        assert(digits((n / 256) as nat, 256) + digits_be@ =~= digits(n as nat, 256) + before);
        n = n / 256;
    }
    assert(digits(n as nat, 256) =~= Seq::<u8>::empty());
    assert(digits_be@ =~= digits(length as nat, 256));
    proof {
        assert(pow(256, 8) == 0x1_0000_0000_0000_0000) by {
            reveal_with_fuel(pow, 9);
        }
        lemma_digits_len(length as nat, 256, 8);
    }
    out.push(128 + digits_be.len() as u8);
    let mut i: usize = 0;
    let ghost head = out@;
    while i < digits_be.len()
        invariant
            i <= digits_be@.len(),
            out@ == head + digits_be@.take(i as int),
        decreases digits_be@.len() - i,
    {
        out.push(digits_be[i]);
        i = i + 1;
        assert(out@ =~= head + digits_be@.take(i as int));
    }
    assert(digits_be@.take(digits_be@.len() as int) =~= digits_be@);
    out
}

/// The tag, length and value bytes of an object, the tag and length
/// written in their canonical form and the value holding the children's
/// full encodings.
pub fn get_tag_length_value_bytes(obj: &OwnedObject) -> (r: (Vec<u8>, Vec<u8>, Vec<u8>))
    ensures
        r.0@ == encode_tag(obj.tag),
        r.1@ == encode_length(obj.length as nat),
        r.2@ == encode_value(obj@),
    decreases obj,
{
    let tag = tag_bytes(&obj.tag);
    let length = length_bytes(obj.length);
    let value = match &obj.value {
        OwnedValue::Primitive(bytes) => slice_to_vec(bytes.as_slice()),
        OwnedValue::Constructed(children) => {
            let ghost c = obj@.value->Constructed_0;
            let ghost s = child_encodings(c);
            assert(forall|j: int| 0 <= j < c.len() ==> #[trigger] s[j] == encode_object(c[j]));
            let mut out: Vec<u8> = Vec::new();
            let mut i: usize = 0;
            assert(s.take(0).flatten() =~= Seq::<u8>::empty());
            while i < children.len()
                invariant
                    obj.value == OwnedValue::Constructed(*children),
                    c.len() == children@.len(),
                    s.len() == c.len(),
                    forall|j: int| 0 <= j < c.len() ==> #[trigger] c[j] == children@[j]@,
                    forall|j: int| 0 <= j < c.len() ==> #[trigger] s[j] == encode_object(c[j]),
                    i <= children@.len(),
                    out@ == s.take(i as int).flatten(),
                decreases children@.len() - i,
            {
                proof {
                    broadcast use vstd::std_specs::vec::axiom_vec_index_decreases;

                    assert(decreases_to!(*children => children[i as int]));
                    assert(decreases_to!(obj => obj.value));
                    assert(decreases_to!(obj.value => obj.value->Constructed_0));
                    lemma_flatten_step(s, i as int);
                }
                let (mut t, mut l, mut v) = get_tag_length_value_bytes(&children[i]);
                out.append(&mut t);
                out.append(&mut l);
                out.append(&mut v);
                assert(out@ =~= s.take(i as int + 1).flatten());
                i = i + 1;
            }
            assert(s.take(c.len() as int) =~= s);
            out
        },
    };
    (tag, length, value)
}

/// The value of digits in base `b`, most significant first.
pub open spec fn digits_value(d: Seq<u8>, b: nat) -> nat
    decreases d.len(),
{
    if d.len() == 0 {
        0
    } else {
        digits_value(d.drop_last(), b) * b + d.last() as nat
    }
}

proof fn lemma_digits_value(n: nat, b: nat)
    requires
        1 < b <= 256,
    ensures
        digits_value(digits(n, b), b) == n,
        forall|i: int| 0 <= i < digits(n, b).len() ==> #[trigger] digits(n, b)[i] < b,
        n > 0 ==> digits(n, b).len() > 0,
    decreases n,
{
    if n > 0 {
        assert(n / b < n) by (nonlinear_arith)
            requires
                b > 1,
                n > 0,
        ;
        lemma_digits_value(n / b, b);
        let d = digits(n, b);
        assert(d.drop_last() =~= digits(n / b, b));
        assert(n == (n / b) * b + n % b) by (nonlinear_arith)
            requires
                b > 1,
        ;
        assert(forall|i: int| 0 <= i < d.len() - 1 ==> d[i] == digits(n / b, b)[i]);
    }
}

proof fn lemma_digits_value_prefix(d: Seq<u8>, b: nat, j: int, k: int)
    requires
        0 <= j <= k <= d.len(),
        b >= 1,
    ensures
        digits_value(d.take(j), b) <= digits_value(d.take(k), b),
    decreases k - j,
{
    if j < k {
        lemma_digits_value_prefix(d, b, j, k - 1);
        assert(d.take(k).drop_last() =~= d.take(k - 1));
        let v = digits_value(d.take(k - 1), b);
        assert(v <= v * b) by (nonlinear_arith)
            requires
                b >= 1,
        ;
    }
}

proof fn lemma_be_value_is_base_256(d: Seq<u8>)
    ensures
        be_value(d) == digits_value(d, 256),
    decreases d.len(),
{
    if d.len() > 0 {
        lemma_be_value_is_base_256(d.drop_last());
    }
}

proof fn lemma_read_tag_number(s: Seq<u8>, d: Seq<u8>, n: u32, k: int)
    requires
        d == digits(n as nat, 128),
        d.len() > 0,
        1 + d.len() <= s.len(),
        s.subrange(1, 1 + d.len() as int) == continued(d),
        0 <= k < d.len(),
    ensures
        spec_tag_number(s, 1 + k, digits_value(d.take(k), 128)) == Some((n, 1 + d.len() as int)),
    decreases d.len() - k,
{
    lemma_digits_value(n as nat, 128);
    let acc = digits_value(d.take(k), 128);
    assert(s[1 + k] == continued(d)[k]);
    assert(s[1 + k] % 128 == d[k]);
    assert(d.take(k + 1).drop_last() =~= d.take(k));
    let next = acc * 128 + (s[1 + k] % 128) as nat;
    assert(next == digits_value(d.take(k + 1), 128));
    lemma_digits_value_prefix(d, 128, k + 1, d.len() as int);
    assert(d.take(d.len() as int) =~= d);
    if k + 1 < d.len() {
        assert(s[1 + k] >= 128);
        lemma_read_tag_number(s, d, n, k + 1);
    } else {
        assert(s[1 + k] < 128);
    }
}

proof fn lemma_tag_round_trip(tag: Tag, rest: Seq<u8>)
    ensures
        spec_read_tag(encode_tag(tag) + rest) == Some((tag, encode_tag(tag).len() as int)),
{
    let s = encode_tag(tag) + rest;
    let first = class_bits(tag.class) * 64 + if tag.constructed {
        32nat
    } else {
        0nat
    };
    let low: nat = if tag.number < 31 {
        tag.number as nat
    } else {
        31
    };
    assert(s[0] == first + low);
    assert((first + low) / 64 == class_bits(tag.class) && ((first + low) / 32) % 2 == (
    if tag.constructed {
        1nat
    } else {
        0nat
    }) && (first + low) % 32 == low) by (nonlinear_arith)
        requires
            first == class_bits(tag.class) * 64 + if tag.constructed {
                32nat
            } else {
                0nat
            },
            low < 32,
            class_bits(tag.class) < 4,
    ;
    assert(class_of(s[0]) == tag.class);
    if tag.number >= 31 {
        let d = digits(tag.number as nat, 128);
        lemma_digits_value(tag.number as nat, 128);
        assert(s.subrange(1, 1 + d.len() as int) =~= continued(d));
        assert(d.take(0) =~= Seq::<u8>::empty());
        lemma_read_tag_number(s, d, tag.number, 0);
    }
}

proof fn lemma_length_round_trip(len: usize, rest: Seq<u8>)
    ensures
        spec_read_length(encode_length(len as nat) + rest) == Some(
            (len, encode_length(len as nat).len() as int),
        ),
{
    let s = encode_length(len as nat) + rest;
    if len >= 128 {
        let d = digits(len as nat, 256);
        lemma_digits_value(len as nat, 256);
        assert(pow(256, 8) == 0x1_0000_0000_0000_0000) by {
            reveal_with_fuel(pow, 9);
        }
        lemma_digits_len(len as nat, 256, 8);
        assert(s[0] == 128 + d.len());
        assert(s.subrange(1, 1 + d.len() as int) =~= d);
        lemma_be_value_is_base_256(d);
    }
}

/// An object whose declared length is the length of its value bytes, whose
/// tag says constructed exactly when it holds children, and whose children
/// are all such objects too.
pub open spec fn well_formed(o: SpecObject) -> bool
    decreases o, 0nat,
{
    &&& o.length <= usize::MAX
    &&& o.tag.constructed == (o.value is Constructed)
    &&& encode_value(o).len() == o.length
    &&& match o.value {
        SpecValue::Primitive(_) => true,
        SpecValue::Constructed(c) => {
            proof {
                assert(decreases_to!(o => o.value));
                assert(decreases_to!(o.value => o.value->Constructed_0));
            }
            all_well_formed(c)
        },
    }
}

/// Every object of `c` is well formed.
pub open spec fn all_well_formed(c: Seq<SpecObject>) -> bool
    decreases c, 1nat,
{
    forall|i: int|
        0 <= i < c.len() ==> {
            proof {
                broadcast use vstd::seq::axiom_seq_index_decreases;

            }
            well_formed(#[trigger] c[i])
        }
}

proof fn lemma_header_round_trip(tag: Tag, len: usize, rest: Seq<u8>)
    ensures
        spec_header(encode_tag(tag) + encode_length(len as nat) + rest) == Ok::<
            (Tag, usize, int),
            ASN1Error,
        >((tag, len, (encode_tag(tag).len() + encode_length(len as nat).len()) as int)),
{
    let t = encode_tag(tag);
    let l = encode_length(len as nat);
    let s = t + l + rest;
    assert(s =~= t + (l + rest));
    lemma_tag_round_trip(tag, l + rest);
    assert(s.subrange(t.len() as int, s.len() as int) =~= l + rest);
    lemma_length_round_trip(len, rest);
}

/// Decoding the canonical encoding of a well-formed object, followed by
/// anything, gives back that object and the length of its encoding.
pub proof fn lemma_object_round_trip(o: SpecObject, rest: Seq<u8>)
    requires
        well_formed(o),
    ensures
        spec_decode_tlv(encode_object(o) + rest) == Ok::<(SpecObject, int), ASN1Error>(
            (o, encode_object(o).len() as int),
        ),
    decreases o, 1nat,
{
    let t = encode_tag(o.tag);
    let l = encode_length(o.length);
    let v = encode_value(o);
    let s = encode_object(o) + rest;
    assert(s =~= t + l + (v + rest));
    lemma_header_round_trip(o.tag, o.length as usize, v + rest);
    let h = t.len() + l.len();
    assert(s.subrange(h as int, (h + o.length) as int) =~= v);
    if let SpecValue::Constructed(c) = o.value {
        assert(decreases_to!(o => o.value));
        assert(decreases_to!(o.value => o.value->Constructed_0));
        lemma_children_round_trip(c);
    }
}

/// Decoding the encodings of well-formed objects laid end to end gives
/// back those objects.
pub proof fn lemma_children_round_trip(c: Seq<SpecObject>)
    requires
        all_well_formed(c),
    ensures
        spec_decode_all(child_encodings(c).flatten()) == Ok::<Seq<SpecObject>, ASN1Error>(c),
    decreases c, 0nat,
{
    let e = child_encodings(c);
    if c.len() == 0 {
        assert(e.flatten() =~= Seq::<u8>::empty());
        assert(c =~= Seq::<SpecObject>::empty());
    } else {
        broadcast use vstd::seq::axiom_seq_index_decreases;

        let rest = c.drop_first();
        assert(decreases_to!(c => c[0]));
        assert(all_well_formed(rest)) by {
            assert forall|i: int| 0 <= i < rest.len() implies well_formed(#[trigger] rest[i]) by {
                assert(rest[i] == c[i + 1]);
            }
        }
        assert(child_encodings(rest) =~= e.drop_first());
        let tail = child_encodings(rest).flatten();
        assert(e.flatten() == e[0] + e.drop_first().flatten());
        assert(e[0] == encode_object(c[0]));
        lemma_object_round_trip(c[0], tail);
        let s = e.flatten();
        let n = encode_object(c[0]).len() as int;
        assert(s.len() > 0) by {
            assert(encode_tag(c[0].tag).len() > 0);
        }
        lemma_decode_all_unfold(s);
        assert(s.subrange(n, s.len() as int) =~= tail);
        assert(decreases_to!(c => rest));
        lemma_children_round_trip(rest);
        assert(seq![c[0]] + rest =~= c);
    }
}

} // verus!
