use vstd::prelude::*;
use vstd::slice::{slice_subrange, slice_to_vec};

verus! {

/// The class of a tag: the top two bits of its first byte.
#[derive(Debug, Clone, Copy, PartialEq, Eq, Structural)]
pub enum TagClass {
    Universal,
    Application,
    ContextSpecific,
    Private,
}

#[derive(Debug, Clone, Copy, PartialEq, Eq, Structural)]
pub struct Tag {
    pub class: TagClass,
    pub constructed: bool,
    pub number: u32,
}

#[derive(Debug, Clone, Copy, PartialEq, Eq, Structural)]
pub enum ASN1Error {
    UnexpectedEOF,
    InvalidTag,
    InvalidLength,
    IndefiniteLengthNotAllowed,
    TrailingData,
}

/// A cursor over a byte buffer that decodes DER objects from it.
pub struct DerParser<'a> {
    input: &'a [u8],
    position: usize,
}

/// The mathematical model of a decoded value.
pub ghost enum SpecValue {
    Primitive(Seq<u8>),
    Constructed(Seq<SpecObject>),
}

/// The mathematical model of a decoded object.
pub ghost struct SpecObject {
    pub tag: Tag,
    pub length: nat,
    pub value: SpecValue,
}

/// A decoded object whose primitive payloads borrow from the input buffer.
#[derive(Debug, PartialEq)]
pub struct ASN1Object<'a> {
    pub tag: Tag,
    pub length: usize,
    pub value: ASN1Value<'a>,
}

#[derive(Debug, PartialEq)]
pub enum ASN1Value<'a> {
    Primitive(&'a [u8]),
    Constructed(Vec<ASN1Object<'a>>),
}

/// A decoded object that owns its bytes, so that it outlives the buffer it
/// was decoded from.
#[derive(Debug, PartialEq)]
pub struct OwnedObject {
    pub tag: Tag,
    pub length: usize,
    pub value: OwnedValue,
}

#[derive(Debug, PartialEq)]
pub enum OwnedValue {
    Primitive(Vec<u8>),
    Constructed(Vec<OwnedObject>),
}

impl OwnedObject {
    pub open spec fn view(&self) -> SpecObject
        decreases self,
    {
        SpecObject {
            tag: self.tag,
            length: self.length as nat,
            value: match self.value {
                OwnedValue::Primitive(b) => SpecValue::Primitive(b@),
                OwnedValue::Constructed(c) => {
                    proof {
                        assert forall|i: int| 0 <= i < c.len() implies decreases_to!(self => c[i]) by {
                            broadcast use vstd::std_specs::vec::axiom_vec_index_decreases;
                        }
                    }
                    SpecValue::Constructed(
                        Seq::new(
                            c.len() as nat,
                            |i: int|
                                if 0 <= i < c.len() {
                                    c[i].view()
                                } else {
                                    arbitrary()
                                },
                        ),
                    )
                },
            },
        }
    }
}

/// The models of a sequence of owned objects.
pub open spec fn owned_view(v: Seq<OwnedObject>) -> Seq<SpecObject> {
    Seq::new(v.len(), |i: int| v[i]@)
}

impl<'a> ASN1Object<'a> {
    /// Copies the object, with all its descendants and their bytes, into a
    /// tree that does not borrow the input buffer.
    pub fn to_owned(&self) -> (r: OwnedObject)
        ensures
            r@ == self@,
        decreases self,
    {
        let value = match &self.value {
            ASN1Value::Primitive(bytes) => OwnedValue::Primitive(slice_to_vec(bytes)),
            ASN1Value::Constructed(children) => {
                let mut owned: Vec<OwnedObject> = Vec::new();
                let mut i: usize = 0;
                while i < children.len()
                    invariant
                        i <= children.len(),
                        self.value == ASN1Value::Constructed(*children),
                        owned@.len() == i,
                        forall|j: int| 0 <= j < i ==> owned@[j]@ == children@[j]@,
                    decreases children.len() - i,
                {
                    proof {
                        broadcast use vstd::std_specs::vec::axiom_vec_index_decreases;
                        assert(decreases_to!(*children => children[i as int]));
                        assert(decreases_to!(self => self.value));
                        assert(decreases_to!(self.value => self.value->Constructed_0));
                        assert(decreases_to!(self => children[i as int]));
                    }
                    owned.push(children[i].to_owned());
                    i = i + 1;
                }
                OwnedValue::Constructed(owned)
            },
        };
        let r = OwnedObject { tag: self.tag, length: self.length, value };
        proof {
            if let OwnedValue::Constructed(c) = &r.value {
                assert(r@.value->Constructed_0 =~= self@.value->Constructed_0);
            }
        }
        r
    }

    pub open spec fn view(&self) -> SpecObject
        decreases self,
    {
        SpecObject {
            tag: self.tag,
            length: self.length as nat,
            value: match self.value {
                ASN1Value::Primitive(b) => SpecValue::Primitive(b@),
                ASN1Value::Constructed(c) => {
                    proof {
                        assert forall|i: int| 0 <= i < c.len() implies decreases_to!(self => c[i]) by {
                            broadcast use vstd::std_specs::vec::axiom_vec_index_decreases;
                        }
                    }
                    SpecValue::Constructed(
                        Seq::new(c.len() as nat, |i: int|
                            if 0 <= i < c.len() {
                                c[i].view()
                            } else {
                                arbitrary()
                            }),
                    )
                },
            },
        }
    }
}


/// The class that the top two bits of a first tag byte select.
pub open spec fn class_of(b: u8) -> TagClass {
    if b / 64 == 0 {
        TagClass::Universal
    } else if b / 64 == 1 {
        TagClass::Application
    } else if b / 64 == 2 {
        TagClass::ContextSpecific
    } else {
        TagClass::Private
    }
}

/// Reads the base-128 continuation bytes of a long-form tag number that
/// start at `s[i]`, with `acc` accumulated so far. Yields the number and the
/// index just past its last byte; `None` when the input ends before a byte
/// with a clear high bit, or when the number would not fit in a `u32`.
pub open spec fn spec_tag_number(s: Seq<u8>, i: int, acc: nat) -> Option<(u32, int)>
    decreases s.len() - i,
{
    if i < 0 || i >= s.len() {
        None
    } else {
        let next = acc * 128 + (s[i] % 128) as nat;
        if next > u32::MAX {
            None
        } else if s[i] >= 128 {
            spec_tag_number(s, i + 1, next)
        } else {
            Some((next as u32, i + 1))
        }
    }
}

/// The tag at the start of `s`, and the number of bytes it takes.
pub open spec fn spec_read_tag(s: Seq<u8>) -> Option<(Tag, int)> {
    if s.len() == 0 {
        None
    } else {
        let b = s[0];
        let class = class_of(b);
        let constructed = (b / 32) % 2 == 1;
        if b % 32 < 31 {
            Some((Tag { class, constructed, number: (b % 32) as u32 }, 1))
        } else {
            match spec_tag_number(s, 1, 0) {
                Some((number, end)) => Some((Tag { class, constructed, number }, end)),
                None => None,
            }
        }
    }
}

/// The unsigned big-endian value of a byte sequence.
pub open spec fn be_value(b: Seq<u8>) -> nat
    decreases b.len(),
{
    if b.len() == 0 {
        0
    } else {
        be_value(b.drop_last()) * 256 + b.last() as nat
    }
}

/// The length at the start of `s`, and the number of bytes it takes. The
/// indefinite form, a missing byte, and a length beyond `usize` give `None`.
pub open spec fn spec_read_length(s: Seq<u8>) -> Option<(usize, int)> {
    if s.len() == 0 {
        None
    } else if s[0] < 128 {
        Some((s[0] as usize, 1))
    } else {
        let k = s[0] - 128;
        if k == 0 || 1 + k > s.len() {
            None
        } else {
            let v = be_value(s.subrange(1, 1 + k));
            if v > usize::MAX {
                None
            } else {
                Some((v as usize, 1 + k))
            }
        }
    }
}

/// The tag, the declared length and the size of the header (tag and length
/// bytes) of the object encoded at the start of `s`.
pub open spec fn spec_header(s: Seq<u8>) -> Result<(Tag, usize, int), ASN1Error> {
    match spec_read_tag(s) {
        None => Err(ASN1Error::InvalidTag),
        Some((tag, t)) => match spec_read_length(s.subrange(t, s.len() as int)) {
            None => Err(ASN1Error::InvalidLength),
            Some((len, l)) => Ok((tag, len, t + l)),
        },
    }
}

/// Decodes all of `s` as a sequence of objects laid end to end.
pub open spec fn spec_decode_all(s: Seq<u8>) -> Result<Seq<SpecObject>, ASN1Error>
    decreases s.len(),
{
    if s.len() == 0 {
        Ok(Seq::empty())
    } else {
        match spec_header(s) {
            Err(e) => Err(e),
            Ok((tag, len, h)) => {
                if h + len > s.len() {
                    Err(ASN1Error::UnexpectedEOF)
                } else {
                    proof {
                        lemma_header_size(s);
                    }
                    let content = s.subrange(h, h + len);
                    let value = if tag.constructed {
                        match spec_decode_all(content) {
                            Ok(children) => Ok(SpecValue::Constructed(children)),
                            Err(e) => Err(e),
                        }
                    } else {
                        Ok(SpecValue::Primitive(content))
                    };
                    match value {
                        Err(e) => Err(e),
                        Ok(v) => match spec_decode_all(s.subrange(h + len, s.len() as int)) {
                            Err(e) => Err(e),
                            Ok(rest) => Ok(
                                seq![SpecObject { tag, length: len as nat, value: v }] + rest,
                            ),
                        },
                    }
                }
            },
        }
    }
}

/// Decodes the one object at the start of `s`: the object and the number of
/// bytes its encoding takes.
pub open spec fn spec_decode_tlv(s: Seq<u8>) -> Result<(SpecObject, int), ASN1Error> {
    match spec_header(s) {
        Err(e) => Err(e),
        Ok((tag, len, h)) => {
            if h + len > s.len() {
                Err(ASN1Error::UnexpectedEOF)
            } else {
                let content = s.subrange(h, h + len);
                if tag.constructed {
                    match spec_decode_all(content) {
                        Ok(children) => Ok(
                            (
                                SpecObject {
                                    tag,
                                    length: len as nat,
                                    value: SpecValue::Constructed(children),
                                },
                                h + len,
                            ),
                        ),
                        Err(e) => Err(e),
                    }
                } else {
                    Ok(
                        (
                            SpecObject {
                                tag,
                                length: len as nat,
                                value: SpecValue::Primitive(content),
                            },
                            h + len,
                        ),
                    )
                }
            }
        },
    }
}

proof fn lemma_be_value_prefix(b: Seq<u8>, k: int)
    requires
        0 < k <= b.len(),
    ensures
        be_value(b.subrange(0, k)) == be_value(b.subrange(0, k - 1)) * 256 + b[k - 1] as nat,
{
    assert(b.subrange(0, k).drop_last() == b.subrange(0, k - 1));
}

proof fn lemma_be_value_monotone(b: Seq<u8>, j: int, k: int)
    requires
        0 <= j <= k <= b.len(),
    ensures
        be_value(b.subrange(0, j)) <= be_value(b.subrange(0, k)),
    decreases k - j,
{
    if j < k {
        lemma_be_value_monotone(b, j, k - 1);
        lemma_be_value_prefix(b, k);
    }
}

/// Decodes a whole buffer into its top-level objects.
pub fn decode_all<'a>(bytes: &'a [u8]) -> (r: Result<Vec<ASN1Object<'a>>, ASN1Error>)
    ensures
        match spec_decode_all(bytes@) {
            Ok(objs) => r matches Ok(v) && objects_view(v@) == objs,
            Err(e) => r == Err::<Vec<ASN1Object<'a>>, ASN1Error>(e),
        },
{
    let mut parser = DerParser::new(bytes);
    assert(parser.remaining() =~= bytes@);
    parser.parse_all()
}

/// Decodes a whole buffer into top-level objects that own their bytes.
pub fn decode_owned(bytes: &[u8]) -> (r: Result<Vec<OwnedObject>, ASN1Error>)
    ensures
        match spec_decode_all(bytes@) {
            Ok(objs) => r matches Ok(v) && owned_view(v@) == objs,
            Err(e) => r == Err::<Vec<OwnedObject>, ASN1Error>(e),
        },
{
    match decode_all(bytes) {
        Ok(objs) => {
            let mut owned: Vec<OwnedObject> = Vec::new();
            let mut i: usize = 0;
            while i < objs.len()
                invariant
                    i <= objs@.len(),
                    owned@.len() == i,
                    forall|j: int| 0 <= j < i ==> #[trigger] owned@[j]@ == objs@[j]@,
                decreases objs@.len() - i,
            {
                owned.push(objs[i].to_owned());
                i = i + 1;
            }
            assert(owned_view(owned@) =~= objects_view(objs@));
            Ok(owned)
        },
        Err(e) => Err(e),
    }
}

/// Decoding a non-empty input decodes one object, then the rest.
pub proof fn lemma_decode_all_unfold(s: Seq<u8>)
    requires
        s.len() > 0,
    ensures
        spec_decode_all(s) == match spec_decode_tlv(s) {
            Err(e) => Err(e),
            Ok((obj, n)) => match spec_decode_all(s.subrange(n, s.len() as int)) {
                Err(e) => Err(e),
                Ok(rest) => Ok(seq![obj] + rest),
            },
        },
{
}

/// An object's encoding takes at least two bytes, and no more than the
/// input holds.
pub proof fn lemma_tlv_size(s: Seq<u8>)
    ensures
        spec_decode_tlv(s) matches Ok((_, n)) ==> 2 <= n <= s.len(),
{
    lemma_header_size(s);
}

/// Decoding is deterministic: equal buffers decode to the same objects or
/// fail with the same error.
pub proof fn lemma_decode_deterministic(a: Seq<u8>, b: Seq<u8>)
    requires
        a == b,
    ensures
        spec_decode_all(a) == spec_decode_all(b),
{
}

/// The encodings that decoding `s` consumes, one per top-level object, in
/// order; decoding stops contributing at the first error.
pub open spec fn tlv_chunks(s: Seq<u8>) -> Seq<Seq<u8>>
    decreases s.len(),
{
    if s.len() == 0 {
        Seq::empty()
    } else {
        match spec_decode_tlv(s) {
            Ok((_, n)) => {
                proof {
                    lemma_tlv_size(s);
                }
                seq![s.take(n)] + tlv_chunks(s.subrange(n, s.len() as int))
            },
            Err(_) => Seq::empty(),
        }
    }
}

proof fn lemma_tag_number_prefix(s: Seq<u8>, i: int, acc: nat, m: int)
    requires
        spec_tag_number(s, i, acc) matches Some((_, end)) && end <= m <= s.len(),
    ensures
        spec_tag_number(s.take(m), i, acc) == spec_tag_number(s, i, acc),
    decreases s.len() - i,
{
    lemma_tag_number_end(s, i, acc);
    let next = acc * 128 + (s[i] % 128) as nat;
    if next <= u32::MAX && s[i] >= 128 {
        lemma_tag_number_prefix(s, i + 1, next, m);
    }
}

/// Decoding one object reads no byte past its own encoding.
pub proof fn lemma_decode_tlv_prefix(s: Seq<u8>, m: int)
    requires
        spec_decode_tlv(s) matches Ok((_, n)) && n <= m <= s.len(),
    ensures
        spec_decode_tlv(s.take(m)) == spec_decode_tlv(s),
{
    let p = s.take(m);
    lemma_header_size(s);
    lemma_tag_number_end(s, 1, 0);
    if s[0] % 32 >= 31 {
        lemma_tag_number_prefix(s, 1, 0, m);
    }
    assert(spec_read_tag(p) == spec_read_tag(s));
    let (tag, t) = spec_read_tag(s)->0;
    let ls = s.subrange(t, s.len() as int);
    let lp = p.subrange(t, m);
    let (len, l) = spec_read_length(ls)->0;
    assert(ls[0] == lp[0]);
    if ls[0] >= 128 {
        let k = ls[0] - 128;
        assert(lp.subrange(1, 1 + k) =~= ls.subrange(1, 1 + k));
    }
    assert(spec_read_length(lp) == spec_read_length(ls));
    assert(spec_header(p) == spec_header(s));
    let h = t + l;
    assert(p.subrange(h, h + len) =~= s.subrange(h, h + len));
}

/// The chunks that a successful decode consumes lie end to end, cover the
/// whole input, and each decodes, on its own and in full, to its object.
pub proof fn lemma_chunks_cover(s: Seq<u8>)
    requires
        spec_decode_all(s) is Ok,
    ensures
        tlv_chunks(s).len() == spec_decode_all(s)->Ok_0.len(),
        tlv_chunks(s).flatten() == s,
        forall|i: int|
            0 <= i < tlv_chunks(s).len() ==> spec_decode_tlv(#[trigger] tlv_chunks(s)[i]) == Ok::<
                (SpecObject, int),
                ASN1Error,
            >((spec_decode_all(s)->Ok_0[i], tlv_chunks(s)[i].len() as int)),
    decreases s.len(),
{
    if s.len() > 0 {
        lemma_decode_all_unfold(s);
        lemma_tlv_size(s);
        let (obj, n) = spec_decode_tlv(s)->Ok_0;
        let rest = s.subrange(n, s.len() as int);
        lemma_chunks_cover(rest);
        lemma_decode_tlv_prefix(s, n);
        let cs = tlv_chunks(s);
        assert(cs == seq![s.take(n)] + tlv_chunks(rest));
        assert(cs.drop_first() =~= tlv_chunks(rest));
        assert(cs.flatten() =~= s.take(n) + rest);
        assert(s.take(n) + rest =~= s);
        assert forall|i: int| 0 <= i < cs.len() implies spec_decode_tlv(#[trigger] cs[i]) == Ok::<
            (SpecObject, int),
            ASN1Error,
        >((spec_decode_all(s)->Ok_0[i], cs[i].len() as int)) by {
            if i > 0 {
                assert(cs[i] == tlv_chunks(rest)[i - 1]);
            }
        }
    } else {
        assert(tlv_chunks(s).flatten() =~= s);
    }
}

/// For a constructed object, the full encodings of its children, laid end
/// to end, are exactly the declared-length value bytes of the object, and
/// each of them decodes to its child.
pub proof fn lemma_children_reconstruct_value(s: Seq<u8>)
    requires
        spec_decode_tlv(s) matches Ok((obj, _)) && obj.value is Constructed,
    ensures
        ({
            let (obj, n) = spec_decode_tlv(s)->Ok_0;
            let value = s.subrange(n - obj.length, n);
            let chunks = tlv_chunks(value);
            &&& chunks.flatten() == value
            &&& chunks.len() == obj.value->Constructed_0.len()
            &&& forall|i: int|
                0 <= i < chunks.len() ==> spec_decode_tlv(#[trigger] chunks[i]) == Ok::<
                    (SpecObject, int),
                    ASN1Error,
                >((obj.value->Constructed_0[i], chunks[i].len() as int))
        }),
{
    lemma_header_size(s);
    let (obj, n) = spec_decode_tlv(s)->Ok_0;
    let (tag, len, h) = spec_header(s)->Ok_0;
    assert(s.subrange(n - obj.length, n) == s.subrange(h, h + len));
    lemma_chunks_cover(s.subrange(h, h + len));
}

proof fn lemma_tag_number_end(s: Seq<u8>, i: int, acc: nat)
    ensures
        spec_tag_number(s, i, acc) matches Some((_, end)) ==> i < end <= s.len(),
    decreases s.len() - i,
{
    if 0 <= i < s.len() {
        let next = acc * 128 + (s[i] % 128) as nat;
        if next <= u32::MAX && s[i] >= 128 {
            lemma_tag_number_end(s, i + 1, next);
        }
    }
}

/// A header takes at least two bytes, and no more than the input holds.
pub proof fn lemma_header_size(s: Seq<u8>)
    ensures
        spec_header(s) matches Ok((_, _, h)) ==> 2 <= h <= s.len(),
{
    lemma_tag_number_end(s, 1, 0);
}


/// The models of a sequence of decoded objects.
pub open spec fn objects_view<'a>(v: Seq<ASN1Object<'a>>) -> Seq<SpecObject> {
    Seq::new(v.len(), |i: int| v[i]@)
}

impl<'a> DerParser<'a> {
    /// The buffer being decoded.
    pub closed spec fn spec_input(&self) -> Seq<u8> {
        self.input@
    }

    /// The index of the next byte to read.
    pub closed spec fn spec_position(&self) -> int {
        self.position as int
    }

    pub closed spec fn wf(&self) -> bool {
        self.position <= self.input.len()
    }

    /// The bytes not read yet.
    pub open spec fn remaining(&self) -> Seq<u8> {
        self.spec_input().subrange(self.spec_position(), self.spec_input().len() as int)
    }

    /// States that the parser still reads the same buffer and has moved
    /// forward by `n` bytes, within it.
    pub open spec fn advanced_by(&self, before: &Self, n: int) -> bool {
        &&& self.wf()
        &&& self.spec_input() == before.spec_input()
        &&& self.spec_position() == before.spec_position() + n
    }

    pub fn new(input: &'a [u8]) -> (r: Self)
        ensures
            r.wf(),
            r.spec_input() == input@,
            r.spec_position() == 0,
    {
        Self { input, position: 0 }
    }

    /// The next byte, without consuming it.
    pub fn peek(&self) -> (r: Option<u8>)
        requires
            self.wf(),
        ensures
            r == (if self.remaining().len() > 0 {
                Some(self.remaining()[0])
            } else {
                None::<u8>
            }),
    {
        if self.position < self.input.len() {
            Some(self.input[self.position])
        } else {
            None
        }
    }

    /// Consumes and returns the next byte, if there is one.
    pub fn read_byte(&mut self) -> (r: Option<u8>)
        requires
            old(self).wf(),
        ensures
            old(self).remaining().len() > 0 ==> r == Some(old(self).remaining()[0])
                && final(self).advanced_by(old(self), 1),
            old(self).remaining().len() == 0 ==> r is None && *final(self) == *old(self),
    {
        if self.position < self.input.len() {
            let byte = self.input[self.position];
            self.position = self.position + 1;
            Some(byte)
        } else {
            None
        }
    }

    /// Consumes and returns the next `n` bytes, if that many remain;
    /// otherwise consumes nothing.
    pub fn read_n(&mut self, n: usize) -> (r: Option<&'a [u8]>)
        requires
            old(self).wf(),
        ensures
            n <= old(self).remaining().len() ==> (r matches Some(b) && b@
                == old(self).remaining().subrange(0, n as int)) && final(self).advanced_by(
                old(self),
                n as int,
            ),
            n > old(self).remaining().len() ==> r is None && *final(self) == *old(self),
    {
        if n <= self.input.len() - self.position {
            let slice = slice_subrange(self.input, self.position, self.position + n);
            self.position = self.position + n;
            Some(slice)
        } else {
            None
        }
    }

    /// Reads a tag: its class, whether it is constructed, and its number,
    /// in the short form or the long base-128 form.
    pub fn read_tag(&mut self) -> (r: Option<Tag>)
        requires
            old(self).wf(),
        ensures
            final(self).wf(),
            final(self).spec_input() == old(self).spec_input(),
            match spec_read_tag(old(self).remaining()) {
                Some((tag, n)) => r == Some(tag) && final(self).spec_position()
                    == old(self).spec_position() + n,
                None => r is None,
            },
    {
        let ghost s = self.remaining();
        let first = match self.read_byte() {
            Some(b) => b,
            None => {
                return None;
            },
        };
        let class = if first / 64 == 0 {
            TagClass::Universal
        } else if first / 64 == 1 {
            TagClass::Application
        } else if first / 64 == 2 {
            TagClass::ContextSpecific
        } else {
            TagClass::Private
        };
        let constructed = (first / 32) % 2 == 1;
        if first % 32 < 31 {
            return Some(Tag { class, constructed, number: (first % 32) as u32 });
        }
        let mut number: u32 = 0;
        let ghost mut i: int = 1;
        loop
            invariant
                self.wf(),
                self.spec_input() == old(self).spec_input(),
                s == old(self).remaining(),
                1 <= i <= s.len(),
                self.spec_position() == old(self).spec_position() + i,
                spec_tag_number(s, i, number as nat) == spec_tag_number(s, 1, 0),
                spec_read_tag(s) == match spec_tag_number(s, 1, 0) {
                    Some((number, end)) => Some((Tag { class, constructed, number }, end)),
                    None => None,
                },
            decreases s.len() - i,
        {
            let byte = match self.read_byte() {
                Some(b) => b,
                None => {
                    return None;
                },
            };
            assert(s[i] == byte);
            if number > 0x1FF_FFFF {
                return None;
            }
            let next = number * 128 + (byte % 128) as u32;
            if byte < 128 {
                return Some(Tag { class, constructed, number: next });
            }
            number = next;
            proof {
                i = i + 1;
            }
        }
    }

    /// Reads a length in the short form, or in the long form with the count
    /// of length bytes that follow. The indefinite form is refused.
    pub fn read_length(&mut self) -> (r: Option<usize>)
        requires
            old(self).wf(),
        ensures
            final(self).wf(),
            final(self).spec_input() == old(self).spec_input(),
            match spec_read_length(old(self).remaining()) {
                Some((len, n)) => r == Some(len) && final(self).spec_position()
                    == old(self).spec_position() + n,
                None => r is None,
            },
    {
        let ghost s = self.remaining();
        let first = match self.read_byte() {
            Some(b) => b,
            None => {
                return None;
            },
        };
        if first < 128 {
            return Some(first as usize);
        }
        let num_bytes = (first - 128) as usize;
        if num_bytes == 0 {
            return None;
        }
        let bytes = match self.read_n(num_bytes) {
            Some(b) => b,
            None => {
                return None;
            },
        };
        assert(bytes@ == s.subrange(1, 1 + num_bytes));
        let mut length: usize = 0;
        let mut i: usize = 0;
        while i < bytes.len()
            invariant
                self.wf(),
                self.spec_input() == old(self).spec_input(),
                s == old(self).remaining(),
                s.len() > 0 && s[0] == first && first >= 128,
                num_bytes == first - 128 && num_bytes > 0 && 1 + num_bytes <= s.len(),
                self.spec_position() == old(self).spec_position() + 1 + num_bytes,
                bytes@ == s.subrange(1, 1 + num_bytes),
                i <= bytes@.len(),
                length as nat == be_value(bytes@.subrange(0, i as int)),
            decreases bytes@.len() - i,
        {
            proof {
                lemma_be_value_prefix(bytes@, i as int + 1);
                lemma_be_value_monotone(bytes@, i as int + 1, bytes@.len() as int);
                assert(bytes@.subrange(0, bytes@.len() as int) == bytes@);
            }
            let b = bytes[i];
            match length.checked_mul(256) {
                Some(m) => match m.checked_add(b as usize) {
                    Some(next) => {
                        length = next;
                    },
                    None => {
                        return None;
                    },
                },
                None => {
                    proof {
                        assert(length as nat * 256 + b as nat > usize::MAX) by (nonlinear_arith)
                            requires
                                length as nat * 256 > usize::MAX,
                        ;
                    }
                    return None;
                },
            }
            i = i + 1;
        }
        assert(bytes@.subrange(0, bytes@.len() as int) == bytes@);
        Some(length)
    }

    /// Consumes and returns the `length` bytes of a value.
    pub fn read_value(&mut self, length: usize) -> (r: Option<&'a [u8]>)
        requires
            old(self).wf(),
        ensures
            length <= old(self).remaining().len() ==> (r matches Some(b) && b@
                == old(self).remaining().subrange(0, length as int)) && final(self).advanced_by(
                old(self),
                length as int,
            ),
            length > old(self).remaining().len() ==> r is None && *final(self) == *old(self),
    {
        self.read_n(length)
    }

    /// Decodes the one object at the current position: its tag, its length,
    /// and its value, whose children are decoded from exactly the value's
    /// bytes when the tag is constructed.
    pub fn parse_tlv(&mut self) -> (r: Result<ASN1Object<'a>, ASN1Error>)
        requires
            old(self).wf(),
        ensures
            final(self).wf(),
            final(self).spec_input() == old(self).spec_input(),
            match spec_decode_tlv(old(self).remaining()) {
                Ok((obj, n)) => (r matches Ok(o) && o@ == obj) && final(self).spec_position()
                    == old(self).spec_position() + n,
                Err(e) => r == Err::<ASN1Object<'a>, ASN1Error>(e),
            },
        decreases old(self).remaining().len(), 0nat,
    {
        let ghost s = self.remaining();
        let tag = match self.read_tag() {
            Some(t) => t,
            None => {
                return Err(ASN1Error::InvalidTag);
            },
        };
        let ghost t = self.spec_position() - old(self).spec_position();
        proof {
            lemma_tag_number_end(s, 1, 0);
        }
        assert(self.remaining() =~= s.subrange(t, s.len() as int));
        let length = match self.read_length() {
            Some(l) => l,
            None => {
                return Err(ASN1Error::InvalidLength);
            },
        };
        let ghost h = self.spec_position() - old(self).spec_position();
        assert(self.remaining() =~= s.subrange(h, s.len() as int));
        proof {
            lemma_header_size(s);
        }
        let bytes = match self.read_value(length) {
            Some(b) => b,
            None => {
                return Err(ASN1Error::UnexpectedEOF);
            },
        };
        assert(bytes@ =~= s.subrange(h, h + length));
        let value = if tag.constructed {
            let mut parser = DerParser::new(bytes);
            assert(parser.remaining() =~= bytes@);
            match parser.parse_all() {
                Ok(children) => ASN1Value::Constructed(children),
                Err(e) => {
                    return Err(e);
                },
            }
        } else {
            ASN1Value::Primitive(bytes)
        };
        let obj = ASN1Object { tag, length, value };
        proof {
            if tag.constructed {
                if let ASN1Value::Constructed(c) = &obj.value {
                    assert(obj@.value->Constructed_0 =~= objects_view(c@));
                }
            }
        }
        Ok(obj)
    }

    /// Decodes objects laid end to end until the input is exhausted; the
    /// first error ends the decode.
    pub fn parse_all(&mut self) -> (r: Result<Vec<ASN1Object<'a>>, ASN1Error>)
        requires
            old(self).wf(),
        ensures
            final(self).wf(),
            final(self).spec_input() == old(self).spec_input(),
            match spec_decode_all(old(self).remaining()) {
                Ok(objs) => (r matches Ok(v) && objects_view(v@) == objs)
                    && final(self).remaining().len() == 0,
                Err(e) => r == Err::<Vec<ASN1Object<'a>>, ASN1Error>(e),
            },
        decreases old(self).remaining().len(), 1nat,
    {
        let ghost s0 = self.remaining();
        let mut der_data: Vec<ASN1Object<'a>> = Vec::new();
        while !self.is_done()
            invariant
                self.wf(),
                self.spec_input() == old(self).spec_input(),
                s0 == old(self).remaining(),
                self.remaining().len() <= s0.len(),
                spec_decode_all(s0) == match spec_decode_all(self.remaining()) {
                    Ok(rest) => Ok(objects_view(der_data@) + rest),
                    Err(e) => Err(e),
                },
            decreases self.remaining().len(),
        {
            let ghost rem = self.remaining();
            proof {
                lemma_decode_all_unfold(rem);
                lemma_tlv_size(rem);
            }
            let object = self.parse_tlv();
            match object {
                Ok(object) => {
                    let ghost n = self.spec_position() - (self.spec_input().len() - rem.len());
                    assert(self.remaining() =~= rem.subrange(n, rem.len() as int));
                    let ghost before = der_data@;
                    der_data.push(object);
                    assert(objects_view(der_data@) =~= objects_view(before).push(object@));
                    proof {
                        match spec_decode_all(self.remaining()) {
                            Ok(rest) => {
                                assert(objects_view(before) + (seq![object@] + rest)
                                    =~= objects_view(der_data@) + rest);
                            },
                            Err(e) => {},
                        }
                    }
                },
                Err(err) => {
                    return Err(err);
                },
            }
        }
        assert(objects_view(der_data@) + Seq::<SpecObject>::empty() =~= objects_view(der_data@));
        Ok(der_data)
    }

    /// Whether every byte has been read.
    pub fn is_done(&self) -> (r: bool)
        requires
            self.wf(),
        ensures
            r == (self.remaining().len() == 0),
    {
        self.position >= self.input.len()
    }
}

} // verus!
