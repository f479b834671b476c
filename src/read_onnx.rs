//! Schema-driven decoding of a binary message into a flat, pre-order list
//! of fields.
use vstd::prelude::*;
use vstd::slice::{slice_subrange, slice_to_vec};
use crate::proto_structure::{chars_is, links_valid, numbering_scope, schema_wf, tags_unique, KindOf, Schema};
use crate::read_proto::{chars_of, child_of};
use crate::wire::{
    concat_bytes, get_wire_type, has_varint_at, le32, le64, read_u32_le, read_u64_le, varint_at,
    varint_enc, wire_type_of, DecodeError, WireType,
};

verus! {

/// How a primitive type travels on the wire.
#[derive(Debug, Clone, Copy, PartialEq, Eq, Structural)]
pub enum ScalarClass {
    VarintScalar,
    Fixed32Scalar,
    Fixed64Scalar,
    LenScalar,
}

/// The scalar kind of a primitive type name, if it is one.
pub open spec fn scalar_class_of(t: Seq<char>) -> Option<ScalarClass> {
    if t == seq!['i', 'n', 't', '3', '2'] || t == seq!['i', 'n', 't', '6', '4'] || t == seq!['u', 'i', 'n', 't', '3', '2'] || t == seq!['u', 'i', 'n', 't', '6', '4'] || t == seq!['s', 'i', 'n', 't', '3', '2'] || t == seq!['s', 'i', 'n', 't', '6', '4'] || t == seq!['b', 'o', 'o', 'l'] {
        Some(ScalarClass::VarintScalar)
    } else if t == seq!['f', 'l', 'o', 'a', 't'] || t == seq!['f', 'i', 'x', 'e', 'd', '3', '2'] || t == seq!['s', 'f', 'i', 'x', 'e', 'd', '3', '2'] {
        Some(ScalarClass::Fixed32Scalar)
    } else if t == seq!['d', 'o', 'u', 'b', 'l', 'e'] || t == seq!['f', 'i', 'x', 'e', 'd', '6', '4'] || t == seq!['s', 'f', 'i', 'x', 'e', 'd', '6', '4'] {
        Some(ScalarClass::Fixed64Scalar)
    } else if t == seq!['s', 't', 'r', 'i', 'n', 'g'] || t == seq!['b', 'y', 't', 'e', 's'] {
        Some(ScalarClass::LenScalar)
    } else {
        None
    }
}

/// The scalar kind of a primitive type name.
pub fn scalar_class(t: &String) -> (r: Option<ScalarClass>)
    ensures
        r == scalar_class_of(t@),
{
    let cs = chars_of(t.as_str());
    let w = cs.as_slice();
    if chars_is(w, vec!['i', 'n', 't', '3', '2']) || chars_is(w, vec!['i', 'n', 't', '6', '4']) || chars_is(w, vec!['u', 'i', 'n', 't', '3', '2']) || chars_is(w, vec!['u', 'i', 'n', 't', '6', '4']) || chars_is(w, vec!['s', 'i', 'n', 't', '3', '2']) || chars_is(w, vec!['s', 'i', 'n', 't', '6', '4']) || chars_is(w, vec!['b', 'o', 'o', 'l']) {
        Some(ScalarClass::VarintScalar)
    } else if chars_is(w, vec!['f', 'l', 'o', 'a', 't']) || chars_is(w, vec!['f', 'i', 'x', 'e', 'd', '3', '2']) || chars_is(w, vec!['s', 'f', 'i', 'x', 'e', 'd', '3', '2']) {
        Some(ScalarClass::Fixed32Scalar)
    } else if chars_is(w, vec!['d', 'o', 'u', 'b', 'l', 'e']) || chars_is(w, vec!['f', 'i', 'x', 'e', 'd', '6', '4']) || chars_is(w, vec!['s', 'f', 'i', 'x', 'e', 'd', '6', '4']) {
        Some(ScalarClass::Fixed64Scalar)
    } else if chars_is(w, vec!['s', 't', 'r', 'i', 'n', 'g']) || chars_is(w, vec!['b', 'y', 't', 'e', 's']) {
        Some(ScalarClass::LenScalar)
    } else {
        None
    }
}

/// Whether a type name is a primitive of the encoding.
pub fn is_simple_type(value_type: &String) -> (r: bool)
    ensures
        r == scalar_class_of(value_type@) is Some,
{
    scalar_class(value_type).is_some()
}

/// The value carried by one decoded field.
#[derive(Debug)]
pub enum FieldValue {
    /// A varint of a primitive type.
    Varint(u64),
    /// Four bytes of a 32-bit primitive (a float is kept as its bits).
    Fixed32(u32),
    /// Eight bytes of a 64-bit primitive.
    Fixed64(u64),
    /// The payload of a string, bytes or packed repeated field.
    Bytes(Vec<u8>),
    /// The start of a nested message whose payload has this many bytes;
    /// its fields follow, one level deeper.
    Nested(u64),
    /// An enum constant: its number and its name.
    EnumConst(u64, String),
}

/// One field read from the input.
#[derive(Debug)]
pub struct DecodedField {
    /// How many messages enclose it (the root counts as one).
    pub depth: usize,
    pub field_number: u64,
    pub wire_type: WireType,
    pub name: String,
    pub field_type: String,
    pub value: FieldValue,
}

pub open spec fn wt_num(w: WireType) -> nat {
    match w {
        WireType::Varint => 0,
        WireType::I64 => 1,
        WireType::Len => 2,
        WireType::SGroup => 3,
        WireType::EGroup => 4,
        WireType::I32 => 5,
    }
}

/// Four little-endian bytes of `v`.
pub open spec fn le32_bytes(v: nat) -> Seq<u8> {
    seq![(v % 256) as u8, ((v / 256) % 256) as u8, ((v / 65536) % 256) as u8, ((v / 16777216) % 256) as u8]
}

/// Eight little-endian bytes of `v`.
pub open spec fn le64_bytes(v: nat) -> Seq<u8> {
    le32_bytes(v % 4294967296) + le32_bytes(v / 4294967296)
}

/// The bytes that carry a value after its key.
pub open spec fn payload_bytes(v: FieldValue) -> Seq<u8> {
    match v {
        FieldValue::Varint(x) => varint_enc(x as nat),
        FieldValue::Fixed32(x) => le32_bytes(x as nat),
        FieldValue::Fixed64(x) => le64_bytes(x as nat),
        FieldValue::Bytes(b) => varint_enc(b@.len()) + b@,
        FieldValue::Nested(l) => varint_enc(l as nat),
        FieldValue::EnumConst(x, _) => varint_enc(x as nat),
    }
}

/// The bytes of one field: its key, then its payload (for a nested
/// message, only the length: the payload is made of the fields after it).
pub open spec fn record_bytes(f: DecodedField) -> Seq<u8> {
    varint_enc((f.field_number * 8 + wt_num(f.wire_type)) as nat) + payload_bytes(f.value)
}

/// The encoding of a list of fields: their bytes one after another.
pub open spec fn encoding_of(fs: Seq<DecodedField>) -> Seq<u8>
    decreases fs.len(),
{
    if fs.len() == 0 {
        Seq::empty()
    } else {
        encoding_of(fs.drop_last()) + record_bytes(fs.last())
    }
}

/// The number of bytes that each field took, summed.
pub open spec fn bytes_consumed(fs: Seq<DecodedField>) -> nat
    decreases fs.len(),
{
    if fs.len() == 0 {
        0
    } else {
        bytes_consumed(fs.drop_last()) + record_bytes(fs.last()).len()
    }
}

proof fn lemma_le32_bytes(b: Seq<u8>, pos: int)
    requires
        0 <= pos,
        pos + 4 <= b.len(),
    ensures
        b.subrange(pos, pos + 4) == le32_bytes(le32(b, pos)),
{
    let v = le32(b, pos);
    let b0 = b[pos] as int;
    let b1 = b[pos + 1] as int;
    let b2 = b[pos + 2] as int;
    let b3 = b[pos + 3] as int;
    assert(v % 256 == b0 && (v / 256) % 256 == b1 && (v / 65536) % 256 == b2 && (v / 16777216)
        % 256 == b3) by (nonlinear_arith)
        requires
            v == b0 + 256 * b1 + 65536 * b2 + 16777216 * b3,
            0 <= b0 < 256,
            0 <= b1 < 256,
            0 <= b2 < 256,
            0 <= b3 < 256,
    ;
    assert(b.subrange(pos, pos + 4) =~= le32_bytes(v));
}

proof fn lemma_le64_bytes(b: Seq<u8>, pos: int)
    requires
        0 <= pos,
        pos + 8 <= b.len(),
    ensures
        b.subrange(pos, pos + 8) == le64_bytes(le64(b, pos)),
{
    lemma_le32_bytes(b, pos);
    lemma_le32_bytes(b, pos + 4);
    let lo = le32(b, pos);
    let hi = le32(b, pos + 4);
    let v = le64(b, pos);
    assert(v % 4294967296 == lo && v / 4294967296 == hi) by (nonlinear_arith)
        requires
            v == lo + 4294967296 * hi,
            0 <= lo < 4294967296,
    ;
    assert(b.subrange(pos, pos + 8) =~= b.subrange(pos, pos + 4) + b.subrange(pos + 4, pos + 8));
}

/// Reads the payload of a primitive field whose key ended at `pos`.
fn read_payload(bytes: &Vec<u8>, pos: usize, wt: WireType) -> (r: Result<(FieldValue, usize), DecodeError>)
    requires
        pos <= bytes@.len(),
    ensures
        r matches Ok((v, e)) ==> pos <= e <= bytes@.len() && bytes@.subrange(pos as int, e as int)
            == payload_bytes(v) && match wt {
            WireType::Varint => v is Varint,
            WireType::I32 => v is Fixed32,
            WireType::I64 => v is Fixed64,
            WireType::Len => v is Bytes,
            _ => false,
        },
        (wt == WireType::SGroup || wt == WireType::EGroup) ==> r is Err,
        r matches Ok((v, e)) ==> payload_spec(bytes@, pos as int, wt) == Ok::<(ValueView, int), DecodeError>((value_view(v), e as int)),
        r matches Err(e) ==> payload_spec(bytes@, pos as int, wt) == Err::<(ValueView, int), DecodeError>(e),
{
    let n = bytes.len();
    match wt {
        WireType::Varint => {
            let (v, e) = concat_bytes(bytes, pos)?;
            proof {
                crate::wire::lemma_varint_at(bytes@, pos as int, v as nat, e as int);
            }
            Ok((FieldValue::Varint(v), e))
        },
        WireType::I32 => {
            if n - pos < 4 {
                return Err(DecodeError::Malformed);
            }
            let v = read_u32_le(bytes, pos);
            proof {
                lemma_le32_bytes(bytes@, pos as int);
            }
            Ok((FieldValue::Fixed32(v), pos + 4))
        },
        WireType::I64 => {
            if n - pos < 8 {
                return Err(DecodeError::Malformed);
            }
            let v = read_u64_le(bytes, pos);
            proof {
                lemma_le64_bytes(bytes@, pos as int);
            }
            Ok((FieldValue::Fixed64(v), pos + 8))
        },
        WireType::Len => {
            let (l, p) = concat_bytes(bytes, pos)?;
            proof {
                crate::wire::lemma_varint_at(bytes@, pos as int, l as nat, p as int);
            }
            if l > (n - p) as u64 {
                return Err(DecodeError::Malformed);
            }
            let e = p + l as usize;
            let payload = slice_to_vec(slice_subrange(bytes.as_slice(), p, e));
            proof {
                assert(bytes@.subrange(pos as int, e as int) =~= bytes@.subrange(pos as int, p as int)
                    + bytes@.subrange(p as int, e as int));
            }
            Ok((FieldValue::Bytes(payload), e))
        },
        _ => Err(DecodeError::Malformed),
    }
}

/// The field of the tag space of message `scope` whose tag is `number`:
/// one of the message's own fields or a field of one of its oneofs.
pub fn get_field(s: &Schema, scope: usize, number: u64) -> (r: Option<usize>)
    requires
        links_valid(s),
        scope < s.scopes@.len(),
    ensures
        r matches Some(f) ==> f < s.fields@.len() && s.fields@[f as int].tag as int == number as int
            && numbering_scope(s, s.fields@[f as int].owner as int) == numbering_scope(s, scope as int),
        r is None ==> forall|f: int|
            0 <= f < s.fields@.len() ==> !(#[trigger] s.fields@[f].tag as int == number as int
                && numbering_scope(s, s.fields@[f].owner as int) == numbering_scope(s, scope as int)),
{
    let target: usize = match s.scopes[scope].parent {
        Some(p) => if s.scopes[scope].kind == KindOf::OneOf {
            p
        } else {
            scope
        },
        None => scope,
    };
    let mut f: usize = 0;
    while f < s.fields.len()
        invariant
            links_valid(s),
            target == numbering_scope(s, scope as int),
            f <= s.fields@.len(),
            forall|g: int|
                0 <= g < f ==> !(#[trigger] s.fields@[g].tag as int == number as int
                    && numbering_scope(s, s.fields@[g].owner as int) == target),
        decreases s.fields@.len() - f,
    {
        let o = s.fields[f].owner;
        let ns: usize = match s.scopes[o].parent {
            Some(p) => if s.scopes[o].kind == KindOf::OneOf {
                p
            } else {
                o
            },
            None => o,
        };
        if s.fields[f].tag >= 0 && s.fields[f].tag as u64 == number && ns == target {
            return Some(f);
        }
        f += 1;
    }
    None
}

/// The constant of enum `enum_scope` whose number is `value`.
pub fn search_enum_in_proto_structure(s: &Schema, enum_scope: usize, value: u64) -> (r: Option<usize>)
    requires
        schema_wf(s),
        enum_scope < s.scopes@.len(),
        s.scopes@[enum_scope as int].kind == KindOf::Enum,
    ensures
        r matches Some(f) ==> enum_const_of(s, enum_scope, value) == Some(f as int),
        r is None ==> enum_const_of(s, enum_scope, value) is None,
        r matches Some(f) ==> f < s.fields@.len() && s.fields@[f as int].owner == enum_scope
            && s.fields@[f as int].tag as int == value as int,
        r is None ==> forall|f: int|
            0 <= f < s.fields@.len() ==> !(#[trigger] s.fields@[f].owner == enum_scope
                && s.fields@[f].tag as int == value as int),
{
    let mut f: usize = 0;
    while f < s.fields.len()
        invariant
            schema_wf(s),
            enum_scope < s.scopes@.len(),
            s.scopes@[enum_scope as int].kind == KindOf::Enum,
            f <= s.fields@.len(),
            forall|g: int|
                0 <= g < f ==> !(#[trigger] s.fields@[g].owner == enum_scope && s.fields@[g].tag as int
                    == value as int),
        decreases s.fields@.len() - f,
    {
        if s.fields[f].owner == enum_scope && s.fields[f].tag >= 0 && s.fields[f].tag as u64 == value {
            proof {
                let c = choose|c: int| 0 <= c < s.fields@.len() && #[trigger] s.fields@[c].owner == enum_scope && s.fields@[c].tag as int == value as int;
                assert(numbering_scope(s, enum_scope as int) == enum_scope);
                if c < f {
                    assert(s.fields@[c].tag != s.fields@[f as int].tag);
                } else if c > f {
                    assert(s.fields@[f as int].tag != s.fields@[c].tag);
                }
            }
            return Some(f);
        }
        f += 1;
    }
    None
}

/// The scope that a type name used inside `cur` refers to: a child of
/// `cur` of that name, else the same search from the enclosing scope, up
/// to the top level.
pub open spec fn resolve_from(s: &Schema, cur: Option<usize>, name: Seq<char>) -> Option<usize>
    decreases (match cur {
        Some(c) => c + 1,
        None => 0,
    }),
{
    match child_of(s, cur, name) {
        Some(x) => Some(x),
        None => match cur {
            Some(c) => match s.scopes@[c as int].parent {
                Some(p) => if p < c {
                    resolve_from(s, Some(p), name)
                } else {
                    None
                },
                None => resolve_from(s, None, name),
            },
            None => None,
        },
    }
}

/// Resolves a type name used inside scope `scope`.
pub fn resolve_type(s: &Schema, scope: usize, field_type: &String) -> (r: Option<usize>)
    requires
        schema_wf(s),
        scope < s.scopes@.len(),
    ensures
        r == resolve_from(s, Some(scope), field_type@),
        r matches Some(x) ==> x < s.scopes@.len(),
{
    let mut cur: Option<usize> = Some(scope);
    loop
        invariant
            schema_wf(s),
            cur matches Some(c) ==> c < s.scopes@.len(),
            resolve_from(s, Some(scope), field_type@) == resolve_from(s, cur, field_type@),
        decreases (match cur {
            Some(c) => c + 1,
            None => 0,
        }),
    {
        match crate::read_proto::find_child(s, cur, field_type) {
            Some(x) => {
                proof {
                    let j = choose|j: int|
                        0 <= j < s.scopes@.len() && #[trigger] s.scopes@[j].parent == cur
                            && s.scopes@[j].name@ == field_type@;
                    if x != j {
                        if x < j {
                            assert(s.scopes@[x as int].name@ != s.scopes@[j].name@);
                        } else {
                            assert(s.scopes@[j].name@ != s.scopes@[x as int].name@);
                        }
                    }
                }
                return Some(x);
            },
            None => {
                match cur {
                    Some(c) => {
                        cur = s.scopes[c].parent;
                    },
                    None => {
                        return None;
                    },
                }
            },
        }
    }
}

} // verus!

verus! {

/// Takes `value` consumed bytes off every open region, then closes the
/// innermost regions that are used up (their entries in `remaining` and
/// `scopes` go together). Fails, changing nothing, when some region has
/// fewer than `value` bytes left.
pub fn decrement_length(remaining: &mut Vec<u64>, scopes: &mut Vec<usize>, value: u64) -> (r: Result<
    (),
    DecodeError,
>)
    requires
        old(remaining)@.len() == old(scopes)@.len(),
    ensures
        r is Err <==> exists|k: int| 0 <= k < old(remaining)@.len() && #[trigger] old(remaining)@[k] < value,
        r is Err ==> r == Err::<(), DecodeError>(DecodeError::InconsistentLength) && final(remaining)@
            == old(remaining)@ && final(scopes)@ == old(scopes)@,
        r is Ok ==> {
            let m = final(remaining)@.len() as int;
            &&& m <= old(remaining)@.len()
            &&& final(scopes)@ == old(scopes)@.subrange(0, m)
            &&& forall|k: int| 0 <= k < m ==> #[trigger] final(remaining)@[k] == old(remaining)@[k] - value
            &&& forall|k: int| m <= k < old(remaining)@.len() ==> #[trigger] old(remaining)@[k] == value
            &&& m > 0 ==> final(remaining)@[m - 1] != 0
        },
{
    let n = remaining.len();
    let mut k: usize = 0;
    while k < n
        invariant
            n == remaining@.len(),
            k <= n,
            forall|j: int| 0 <= j < k ==> #[trigger] remaining@[j] >= value,
        decreases n - k,
    {
        if remaining[k] < value {
            return Err(DecodeError::InconsistentLength);
        }
        k += 1;
    }
    let ghost orig = remaining@;
    k = 0;
    while k < n
        invariant
            n == remaining@.len(),
            n == orig.len(),
            k <= n,
            forall|j: int| 0 <= j < n ==> #[trigger] orig[j] >= value,
            forall|j: int| 0 <= j < k ==> #[trigger] remaining@[j] == orig[j] - value,
            forall|j: int| k <= j < n ==> #[trigger] remaining@[j] == orig[j],
        decreases n - k,
    {
        let v = remaining[k] - value;
        remaining.set(k, v);
        k += 1;
    }
    let ghost orig_scopes = scopes@;
    while remaining.len() > 0 && remaining[remaining.len() - 1] == 0
        invariant
            remaining@.len() == scopes@.len(),
            remaining@.len() <= n,
            n == orig.len(),
            n == orig_scopes.len(),
            scopes@ == orig_scopes.subrange(0, remaining@.len() as int),
            forall|j: int| 0 <= j < remaining@.len() ==> #[trigger] remaining@[j] == orig[j] - value,
            forall|j: int| remaining@.len() <= j < n ==> #[trigger] orig[j] == value,
        decreases remaining@.len(),
    {
        remaining.pop();
        scopes.pop();
        assert(scopes@ =~= orig_scopes.subrange(0, remaining@.len() as int));
    }
    Ok(())
}

/// What the decoder knows of a field's type once it is looked up.
#[derive(Debug, Clone, Copy, PartialEq, Eq, Structural)]
pub enum FieldShape {
    Scalar,
    EnumOf(usize),
    MessageOf(usize),
}

/// A decoded value as plain data: a variant number, an integer, bytes and
/// text.
pub type ValueView = (nat, u64, Seq<u8>, Seq<char>);

/// A decoded field as plain data: depth, number, wire type, name, type, value.
pub type RecordView = (usize, u64, WireType, Seq<char>, Seq<char>, ValueView);

pub open spec fn value_view(v: FieldValue) -> ValueView {
    match v {
        FieldValue::Varint(x) => (0, x, Seq::empty(), Seq::empty()),
        FieldValue::Fixed32(x) => (1, x as u64, Seq::empty(), Seq::empty()),
        FieldValue::Fixed64(x) => (2, x, Seq::empty(), Seq::empty()),
        FieldValue::Bytes(b) => (3, 0, b@, Seq::empty()),
        FieldValue::Nested(l) => (4, l, Seq::empty(), Seq::empty()),
        FieldValue::EnumConst(x, n) => (5, x, Seq::empty(), n@),
    }
}

pub open spec fn record_view(f: DecodedField) -> RecordView {
    (f.depth, f.field_number, f.wire_type, f.name@, f.field_type@, value_view(f.value))
}

/// The key at `pos`: field number, wire type, and the position after it.
pub open spec fn key_spec(b: Seq<u8>, pos: int) -> Result<(u64, WireType, int), DecodeError> {
    if !has_varint_at(b, pos) {
        Err(DecodeError::Malformed)
    } else {
        let (k, e) = varint_at(b, pos);
        match wire_type_of((k % 8) as u64) {
            None => Err(DecodeError::Malformed),
            Some(w) => Ok(((k / 8) as u64, w, e)),
        }
    }
}

/// The field of the tag space of message `top` numbered `number`.
pub open spec fn field_of(s: &Schema, top: usize, number: u64) -> Option<int> {
    if exists|f: int|
        0 <= f < s.fields@.len() && #[trigger] s.fields@[f].tag as int == number as int && numbering_scope(
            s,
            s.fields@[f].owner as int,
        ) == numbering_scope(s, top as int) {
        Some(
            choose|f: int|
                0 <= f < s.fields@.len() && #[trigger] s.fields@[f].tag as int == number as int
                    && numbering_scope(s, s.fields@[f].owner as int) == numbering_scope(s, top as int),
        )
    } else {
        None
    }
}

/// The wire type fits the declared primitive type (a repeated primitive
/// may also come packed, as a length-delimited run).
pub open spec fn scalar_fits(c: ScalarClass, wt: WireType, annotation: crate::proto_structure::ProtoAnnotation) -> bool {
    (match c {
        ScalarClass::VarintScalar => wt == WireType::Varint,
        ScalarClass::Fixed32Scalar => wt == WireType::I32,
        ScalarClass::Fixed64Scalar => wt == WireType::I64,
        ScalarClass::LenScalar => wt == WireType::Len,
    }) || (wt == WireType::Len && annotation == crate::proto_structure::ProtoAnnotation::Repeated)
}

/// Looks up field `number` of message `top` and what its type is.
pub open spec fn shape_spec(s: &Schema, top: usize, number: u64, wt: WireType) -> Result<(int, FieldShape), DecodeError> {
    match field_of(s, top, number) {
        None => Err(DecodeError::UnknownField),
        Some(f) => {
            let a = s.fields@[f].attribute;
            match scalar_class_of(a.attribute_type@) {
                Some(c) => if scalar_fits(c, wt, a.annotation) {
                    Ok((f, FieldShape::Scalar))
                } else {
                    Err(DecodeError::TypeMismatch)
                },
                None => match resolve_from(s, Some(top), a.attribute_type@) {
                    Some(x) => if s.scopes@[x as int].kind == KindOf::Enum {
                        Ok((f, FieldShape::EnumOf(x)))
                    } else if s.scopes@[x as int].kind == KindOf::Message {
                        Ok((f, FieldShape::MessageOf(x)))
                    } else {
                        Err(DecodeError::UnknownField)
                    },
                    None => Err(DecodeError::UnknownField),
                },
            }
        },
    }
}

/// The payload of a primitive field at `p`.
pub open spec fn payload_spec(b: Seq<u8>, p: int, wt: WireType) -> Result<(ValueView, int), DecodeError> {
    let n = b.len();
    match wt {
        WireType::Varint => if has_varint_at(b, p) {
            Ok(((0, varint_at(b, p).0 as u64, Seq::empty(), Seq::empty()), varint_at(b, p).1))
        } else {
            Err(DecodeError::Malformed)
        },
        WireType::I32 => if n - p < 4 {
            Err(DecodeError::Malformed)
        } else {
            Ok(((1, le32(b, p) as u64, Seq::empty(), Seq::empty()), p + 4))
        },
        WireType::I64 => if n - p < 8 {
            Err(DecodeError::Malformed)
        } else {
            Ok(((2, le64(b, p) as u64, Seq::empty(), Seq::empty()), p + 8))
        },
        WireType::Len => if !has_varint_at(b, p) {
            Err(DecodeError::Malformed)
        } else {
            let (l, q) = varint_at(b, p);
            if l > n - q {
                Err(DecodeError::Malformed)
            } else {
                Ok(((3, 0, b.subrange(q, q + l), Seq::empty()), q + l))
            }
        },
        _ => Err(DecodeError::Malformed),
    }
}

/// The constant of enum `x` numbered `v`.
pub open spec fn enum_const_of(s: &Schema, x: usize, v: u64) -> Option<int> {
    if exists|f: int| 0 <= f < s.fields@.len() && #[trigger] s.fields@[f].owner == x && s.fields@[f].tag as int == v as int {
        Some(choose|f: int| 0 <= f < s.fields@.len() && #[trigger] s.fields@[f].owner == x && s.fields@[f].tag as int == v as int)
    } else {
        None
    }
}

/// The value of a field of the given shape at `p`, and for a nested
/// message the scope and length of the region it opens.
pub open spec fn value_spec(b: Seq<u8>, s: &Schema, p: int, wt: WireType, shape: FieldShape) -> Result<
    (ValueView, int, Option<(usize, u64)>),
    DecodeError,
> {
    match shape {
        FieldShape::Scalar => match payload_spec(b, p, wt) {
            Err(e) => Err(e),
            Ok((v, e)) => Ok((v, e, None)),
        },
        FieldShape::EnumOf(x) => if wt != WireType::Varint {
            Err(DecodeError::TypeMismatch)
        } else if !has_varint_at(b, p) {
            Err(DecodeError::Malformed)
        } else {
            let (v, e) = varint_at(b, p);
            match enum_const_of(s, x, v as u64) {
                None => Err(DecodeError::UnknownField),
                Some(c) => Ok(((5, v as u64, Seq::empty(), s.fields@[c].attribute.attribute_name@), e, None)),
            }
        },
        FieldShape::MessageOf(x) => if wt != WireType::Len {
            Err(DecodeError::TypeMismatch)
        } else if !has_varint_at(b, p) {
            Err(DecodeError::Malformed)
        } else {
            let (l, e) = varint_at(b, p);
            if l > b.len() - e {
                Err(DecodeError::Malformed)
            } else {
                Ok(((4, l as u64, Seq::empty(), Seq::empty()), e, Some((x, l as u64))))
            }
        },
    }
}

/// The field at `pos` in message `top`: its record, the position after
/// it, and the region a nested message opens.
pub open spec fn field_spec(b: Seq<u8>, s: &Schema, top: usize, pos: int, depth: usize) -> Result<
    (RecordView, int, Option<(usize, u64)>),
    DecodeError,
> {
    match key_spec(b, pos) {
        Err(e) => Err(e),
        Ok((number, wt, after)) => match shape_spec(s, top, number, wt) {
            Err(e) => Err(e),
            Ok((f, shape)) => match value_spec(b, s, after, wt, shape) {
                Err(e) => Err(e),
                Ok((v, e, nested)) => {
                    let a = s.fields@[f].attribute;
                    Ok(((depth, number, wt, a.attribute_name@, a.attribute_type@, v), e, nested))
                },
            },
        },
    }
}


/// Reads a field key at `pos`: the field number and the wire type.
fn read_key(bytes: &Vec<u8>, pos: usize) -> (r: Result<(u64, WireType, usize), DecodeError>)
    requires
        pos < bytes@.len(),
    ensures
        r matches Ok((number, wt, after_key)) ==> pos < after_key <= bytes@.len() && bytes@.subrange(
            pos as int,
            after_key as int,
        ) == varint_enc((number * 8 + wt_num(wt)) as nat) && number < 0x2000_0000_0000_0000,
        r matches Ok((number, wt, after)) ==> key_spec(bytes@, pos as int) == Ok::<(u64, WireType, int), DecodeError>((number, wt, after as int)),
        r matches Err(e) ==> key_spec(bytes@, pos as int) == Err::<(u64, WireType, int), DecodeError>(e),
{
    let (key, after_key) = concat_bytes(bytes, pos)?;
    proof {
        crate::wire::lemma_varint_at(bytes@, pos as int, key as nat, after_key as int);
    }
    let wt = match get_wire_type(key % 8) {
        Some(w) => w,
        None => {
            return Err(DecodeError::Malformed);
        },
    };
    let number = key / 8;
    proof {
        assert(key == 8 * (key / 8) + key % 8);
        assert(wt_num(wt) == key % 8);
    }
    Ok((number, wt, after_key))
}

proof fn lemma_field_of(s: &Schema, top: usize, number: u64, f: int)
    requires
        tags_unique(s),
        0 <= f < s.fields@.len(),
        s.fields@[f].tag as int == number as int,
        numbering_scope(s, s.fields@[f].owner as int) == numbering_scope(s, top as int),
    ensures
        field_of(s, top, number) == Some(f),
{
    let c = choose|c: int|
        0 <= c < s.fields@.len() && #[trigger] s.fields@[c].tag as int == number as int
            && numbering_scope(s, s.fields@[c].owner as int) == numbering_scope(s, top as int);
    if c < f {
        assert(s.fields@[c].tag != s.fields@[f].tag);
    } else if c > f {
        assert(s.fields@[f].tag != s.fields@[c].tag);
    }
}

/// Looks up field `number` of message scope `top` and checks that its
/// declared type fits the wire type.
fn lookup_shape(s: &Schema, top: usize, number: u64, wt: WireType) -> (r: Result<(usize, FieldShape), DecodeError>)
    requires
        schema_wf(s),
        top < s.scopes@.len(),
    ensures
        r matches Ok((f, shape)) ==> f < s.fields@.len() && match shape {
            FieldShape::MessageOf(x) => x < s.scopes@.len() && s.scopes@[x as int].kind
                == KindOf::Message,
            FieldShape::EnumOf(x) => x < s.scopes@.len() && s.scopes@[x as int].kind == KindOf::Enum,
            FieldShape::Scalar => true,
        },
        r matches Ok((f, shape)) ==> shape_spec(s, top, number, wt) == Ok::<(int, FieldShape), DecodeError>((f as int, shape)),
        r matches Err(e) ==> shape_spec(s, top, number, wt) == Err::<(int, FieldShape), DecodeError>(e),
{
    let f = match get_field(s, top, number) {
        Some(f) => f,
        None => {
            return Err(DecodeError::UnknownField);
        },
    };
    proof {
        lemma_field_of(s, top, number, f as int);
    }
    let attr = &s.fields[f].attribute;
    let shape = match scalar_class(&attr.attribute_type) {
        Some(c) => {
            let fits = match c {
                ScalarClass::VarintScalar => wt == WireType::Varint,
                ScalarClass::Fixed32Scalar => wt == WireType::I32,
                ScalarClass::Fixed64Scalar => wt == WireType::I64,
                ScalarClass::LenScalar => wt == WireType::Len,
            } || (wt == WireType::Len && attr.annotation == crate::proto_structure::ProtoAnnotation::Repeated);
            if !fits {
                return Err(DecodeError::TypeMismatch);
            }
            FieldShape::Scalar
        },
        None => match resolve_type(s, top, &attr.attribute_type) {
            Some(x) => match s.scopes[x].kind {
                KindOf::Enum => FieldShape::EnumOf(x),
                KindOf::Message => FieldShape::MessageOf(x),
                KindOf::OneOf => {
                    return Err(DecodeError::UnknownField);
                },
            },
            None => {
                return Err(DecodeError::UnknownField);
            },
        },
    };
    Ok((f, shape))
}

/// Reads the payload of a field of the given shape, which starts at `after_key`.
#[verifier::spinoff_prover]
#[verifier::rlimit(100)]
fn read_value(bytes: &Vec<u8>, s: &Schema, after_key: usize, wt: WireType, shape: FieldShape) -> (r: Result<
    (FieldValue, usize, Option<(usize, u64)>),
    DecodeError,
>)
    requires
        after_key <= bytes@.len(),
        schema_wf(s),
        match shape {
            FieldShape::MessageOf(x) => x < s.scopes@.len() && s.scopes@[x as int].kind
                == KindOf::Message,
            FieldShape::EnumOf(x) => x < s.scopes@.len() && s.scopes@[x as int].kind == KindOf::Enum,
            _ => true,
        },
    ensures
        r matches Ok((v, e, nested)) ==> after_key <= e <= bytes@.len() && bytes@.subrange(
            after_key as int,
            e as int,
        ) == payload_bytes(v) && match nested {
            Some((x, l)) => x < s.scopes@.len() && s.scopes@[x as int].kind == KindOf::Message,
            None => true,
        },
        r matches Ok((v, e, nested)) ==> value_spec(bytes@, s, after_key as int, wt, shape) == Ok::<(ValueView, int, Option<(usize, u64)>), DecodeError>((value_view(v), e as int, nested)),
        r matches Err(e) ==> value_spec(bytes@, s, after_key as int, wt, shape) == Err::<(ValueView, int, Option<(usize, u64)>), DecodeError>(e),
        r matches Ok((v, e, nested)) ==> (nested is Some <==> v is Nested) && (nested matches Some((x, l)) ==> v->Nested_0 == l),
{
    match shape {
        FieldShape::Scalar => {
            let (v, e) = read_payload(bytes, after_key, wt)?;
            Ok((v, e, None))
        },
        FieldShape::EnumOf(x) => {
            if wt != WireType::Varint {
                return Err(DecodeError::TypeMismatch);
            }
            let (v, e) = concat_bytes(bytes, after_key)?;
            proof {
                crate::wire::lemma_varint_at(bytes@, after_key as int, v as nat, e as int);
            }
            let name = match search_enum_in_proto_structure(s, x, v) {
                Some(c) => s.fields[c].attribute.attribute_name.clone(),
                None => {
                    return Err(DecodeError::UnknownField);
                },
            };
            Ok((FieldValue::EnumConst(v, name), e, None))
        },
        FieldShape::MessageOf(x) => {
            if wt != WireType::Len {
                return Err(DecodeError::TypeMismatch);
            }
            let (l, e) = concat_bytes(bytes, after_key)?;
            proof {
                crate::wire::lemma_varint_at(bytes@, after_key as int, l as nat, e as int);
            }
            if l > (bytes.len() - e) as u64 {
                return Err(DecodeError::Malformed);
            }
            Ok((FieldValue::Nested(l), e, Some((x, l))))
        },
    }
}

/// Reads the field that starts at `pos` inside message scope `top`:
/// its key, its payload, and for a nested message the scope and length of
/// the region that it opens.
proof fn lemma_record_bytes_split(
    b: Seq<u8>,
    pos: int,
    after_key: int,
    e: int,
    record: DecodedField,
    number: u64,
    wt: WireType,
    payload: Seq<u8>,
)
    requires
        0 <= pos <= after_key <= e <= b.len(),
        b.subrange(pos, after_key) == varint_enc((number * 8 + wt_num(wt)) as nat),
        b.subrange(after_key, e) == payload,
        payload == payload_bytes(record.value),
        record.field_number == number,
        record.wire_type == wt,
    ensures
        b.subrange(pos, e) == record_bytes(record),
{
    assert(b.subrange(pos, e) =~= b.subrange(pos, after_key) + b.subrange(after_key, e));
}

#[verifier::spinoff_prover]
#[verifier::rlimit(100)]
fn read_field_at(bytes: &Vec<u8>, s: &Schema, top: usize, pos: usize, depth: usize) -> (r: Result<
    (DecodedField, usize, Option<(usize, u64)>),
    DecodeError,
>)
    requires
        schema_wf(s),
        top < s.scopes@.len(),
        pos < bytes@.len(),
    ensures
        r matches Ok((record, e, nested)) ==> pos < e <= bytes@.len() && bytes@.subrange(
            pos as int,
            e as int,
        ) == record_bytes(record) && record.depth == depth && record.field_number
            < 0x2000_0000_0000_0000 && match nested {
            Some((x, l)) => x < s.scopes@.len() && s.scopes@[x as int].kind == KindOf::Message,
            None => true,
        },
        r matches Ok((record, e, nested)) ==> field_spec(bytes@, s, top, pos as int, depth) == Ok::<(RecordView, int, Option<(usize, u64)>), DecodeError>((record_view(record), e as int, nested)),
        r matches Err(e) ==> field_spec(bytes@, s, top, pos as int, depth) == Err::<(RecordView, int, Option<(usize, u64)>), DecodeError>(e),
        r matches Ok((record, e, nested)) ==> (nested is Some <==> record.value is Nested) && (nested matches Some((x, l)) ==> record.value->Nested_0 == l),
{
    let (number, wt, after_key) = read_key(bytes, pos)?;
    let (f, shape) = lookup_shape(s, top, number, wt)?;
    let (value, e, nested) = read_value(bytes, s, after_key, wt, shape)?;
    let ghost payload = payload_bytes(value);
    let attr = &s.fields[f].attribute;
    let record = DecodedField {
        depth,
        field_number: number,
        wire_type: wt,
        name: attr.attribute_name.clone(),
        field_type: attr.attribute_type.clone(),
        value,
    };
    proof {
        lemma_record_bytes_split(bytes@, pos as int, after_key as int, e as int, record, number, wt, payload);
    }
    Ok((record, e, nested))
}

/// The open regions after `value` consumed bytes are taken off each and
/// the used-up innermost ones are closed.
pub open spec fn pop_used(rem: Seq<u64>, scopes: Seq<usize>) -> (Seq<u64>, Seq<usize>)
    decreases rem.len(),
{
    if rem.len() > 0 && rem.last() == 0 {
        pop_used(rem.drop_last(), scopes.drop_last())
    } else {
        (rem, scopes)
    }
}

/// Takes `c` consumed bytes off every open region and closes the used-up
/// innermost ones; fails when a region has fewer than `c` bytes left.
pub open spec fn dec_spec(rem: Seq<u64>, scopes: Seq<usize>, c: u64) -> Result<(Seq<u64>, Seq<usize>), DecodeError> {
    if exists|k: int| 0 <= k < rem.len() && #[trigger] rem[k] < c {
        Err(DecodeError::InconsistentLength)
    } else {
        Ok(pop_used(rem.map_values(|x: u64| (x - c) as u64), scopes))
    }
}

proof fn lemma_pop_used(sub: Seq<u64>, scopes: Seq<usize>, m: int)
    requires
        0 <= m <= sub.len(),
        sub.len() == scopes.len(),
        forall|k: int| m <= k < sub.len() ==> #[trigger] sub[k] == 0,
        m > 0 ==> sub[m - 1] != 0,
    ensures
        pop_used(sub, scopes) == (sub.subrange(0, m), scopes.subrange(0, m)),
    decreases sub.len(),
{
    if sub.len() > m {
        assert(sub.last() == 0);
        lemma_pop_used(sub.drop_last(), scopes.drop_last(), m);
        assert(sub.drop_last().subrange(0, m) =~= sub.subrange(0, m));
        assert(scopes.drop_last().subrange(0, m) =~= scopes.subrange(0, m));
    } else {
        assert(sub.subrange(0, m) =~= sub);
        assert(scopes.subrange(0, m) =~= scopes);
    }
}

/// The open regions after a field of `c` bytes: `c` is taken off each
/// region, used-up innermost regions close, and a nested message of
/// positive length opens a region of its own, which must fit in what is
/// left of the innermost region.
pub open spec fn regions_after(rem: Seq<u64>, scopes: Seq<usize>, c: u64, nested: Option<(usize, u64)>) -> Result<
    (Seq<u64>, Seq<usize>),
    DecodeError,
> {
    match dec_spec(rem, scopes, c) {
        Err(err) => Err(err),
        Ok((rem2, sc2)) => match nested {
            Some((x, l)) => if l > 0 {
                if rem.len() == 0 || l > rem.last() - c {
                    Err(DecodeError::InconsistentLength)
                } else {
                    Ok((rem2.push(l), sc2.push(x)))
                }
            } else {
                Ok((rem2, sc2))
            },
            None => Ok((rem2, sc2)),
        },
    }
}

/// Decodes from `pos` on, inside the open message scopes `scopes` whose
/// regions have `rem` bytes left, after the records `acc`.
pub open spec fn decode_walk(
    b: Seq<u8>,
    s: &Schema,
    pos: int,
    scopes: Seq<usize>,
    rem: Seq<u64>,
    acc: Seq<RecordView>,
) -> Result<Seq<RecordView>, DecodeError>
    decreases b.len() - pos,
{
    if pos < 0 || pos >= b.len() {
        Ok(acc)
    } else if scopes.len() == 0 {
        Err(DecodeError::Malformed)
    } else {
        match field_spec(b, s, scopes.last(), pos, scopes.len() as usize) {
            Err(e) => Err(e),
            Ok((rec, e, nested)) => if e <= pos || e > b.len() {
                Err(DecodeError::Malformed)
            } else {
                match regions_after(rem, scopes, (e - pos) as u64, nested) {
                    Err(err) => Err(err),
                    Ok((rem2, sc2)) => decode_walk(b, s, e, sc2, rem2, acc.push(rec)),
                }
            },
        }
    }
}

/// What decoding `b` as a message `root` of the schema gives: the records
/// of every field in the order read, or the first error met.
pub open spec fn decode_spec(b: Seq<u8>, s: &Schema, root: usize) -> Result<Seq<RecordView>, DecodeError> {
    if b.len() == 0 {
        Ok(Seq::empty())
    } else {
        decode_walk(b, s, 0, seq![root], seq![b.len() as u64], Seq::empty())
    }
}

/// The decoder state is consistent at `pos`: the regions' scopes are
/// messages, and the outermost region reaches exactly to the end.
pub open spec fn decode_state_ok(s: &Schema, n: int, pos: int, scopes: Seq<usize>, rem: Seq<u64>) -> bool {
    &&& rem.len() == scopes.len()
    &&& pos < n ==> rem.len() > 0 && rem[0] == n - pos
    &&& forall|k: int| 0 <= k < rem.len() ==> #[trigger] rem[k] <= n - pos
    &&& forall|k: int|
        0 <= k < scopes.len() ==> #[trigger] scopes[k] < s.scopes@.len() && s.scopes@[scopes[k] as int].kind
            == KindOf::Message
    &&& forall|k: int| 0 <= k < rem.len() ==> #[trigger] rem[k] > 0
    &&& forall|a: int, b: int| 0 <= a < b < rem.len() ==> #[trigger] rem[a] >= #[trigger] rem[b]
}

/// The field opens a nested message of positive length.
pub open spec fn opens_region(f: DecodedField) -> bool {
    nested_len(f) is Some && nested_len(f)->Some_0 > 0
}

/// The length of the nested message a field opens, if it opens one.
pub open spec fn nested_len(f: DecodedField) -> Option<u64> {
    match f.value {
        FieldValue::Nested(l) => Some(l),
        _ => None,
    }
}

/// Takes a field of `consumed` bytes off the open regions, closes the used-up
/// ones, and opens the region of a nested message.
#[verifier::spinoff_prover]
#[verifier::rlimit(100)]
fn update_regions(
    s: &Schema,
    scopes: &mut Vec<usize>,
    remaining: &mut Vec<u64>,
    consumed: u64,
    nested: Option<(usize, u64)>,
) -> (r: Result<(), DecodeError>)
    requires
        old(remaining)@.len() == old(scopes)@.len(),
        old(remaining)@.len() > 0,
        forall|k: int| 0 <= k < old(remaining)@.len() ==> #[trigger] old(remaining)@[k] > 0,
        forall|a: int, b: int| 0 <= a < b < old(remaining)@.len() ==> #[trigger] old(remaining)@[a] >= #[trigger] old(remaining)@[b],
        forall|k: int|
            0 <= k < old(scopes)@.len() ==> #[trigger] old(scopes)@[k] < s.scopes@.len() && s.scopes@[old(scopes)@[k] as int].kind
                == KindOf::Message,
        nested matches Some((x, l)) ==> x < s.scopes@.len() && s.scopes@[x as int].kind == KindOf::Message,
    ensures
        r matches Err(e) ==> regions_after(old(remaining)@, old(scopes)@, consumed, nested) == Err::<(Seq<u64>, Seq<usize>), DecodeError>(e),
        r is Ok ==> regions_after(old(remaining)@, old(scopes)@, consumed, nested) == Ok::<(Seq<u64>, Seq<usize>), DecodeError>((final(remaining)@, final(scopes)@)),
        r is Ok ==> {
            &&& final(remaining)@.len() == final(scopes)@.len()
            &&& forall|k: int| 0 <= k < final(remaining)@.len() ==> #[trigger] final(remaining)@[k] > 0
            &&& forall|a: int, b: int| 0 <= a < b < final(remaining)@.len() ==> #[trigger] final(remaining)@[a] >= #[trigger] final(remaining)@[b]
            &&& forall|k: int|
                0 <= k < final(scopes)@.len() ==> #[trigger] final(scopes)@[k] < s.scopes@.len() && s.scopes@[final(scopes)@[k] as int].kind
                    == KindOf::Message
            &&& forall|k: int| 0 <= k < old(remaining)@.len() ==> #[trigger] old(remaining)@[k] >= consumed
            &&& forall|k: int| 0 <= k < final(remaining)@.len() ==> #[trigger] final(remaining)@[k] <= old(remaining)@[0] - consumed
        },
        r is Ok ==> (nested matches Some((x, l)) && l > 0) ==> final(remaining)@
            == old(remaining)@.map_values(|y: u64| (y - consumed) as u64).push(nested->Some_0.1),
        r is Ok ==> !(nested matches Some((x, l)) && l > 0) ==> final(remaining)@.len() <= old(remaining)@.len()
            && (forall|k: int| 0 <= k < final(remaining)@.len() ==> #[trigger] final(remaining)@[k] == old(remaining)@[k] - consumed)
            && (forall|k: int| final(remaining)@.len() <= k < old(remaining)@.len() ==> #[trigger] old(remaining)@[k] == consumed),
{
    let ghost rem_before = remaining@;
    let ghost sc_before = scopes@;
    let inner_left = remaining[remaining.len() - 1];
    let dec = decrement_length(remaining, scopes, consumed);
    proof {
        let sub = rem_before.map_values(|x: u64| (x - consumed) as u64);
        if dec is Ok {
            let m = remaining@.len() as int;
            assert forall|k: int| m <= k < sub.len() implies #[trigger] sub[k] == 0 by {}
            lemma_pop_used(sub, sc_before, m);
            assert(remaining@ =~= sub.subrange(0, m));
            assert(dec_spec(rem_before, sc_before, consumed) == Ok::<(Seq<u64>, Seq<usize>), DecodeError>((remaining@, scopes@)));
        }
    }
    match dec {
        Ok(_) => {},
        Err(err) => {
            return Err(err);
        },
    }
    proof {
        assert forall|k: int| 0 <= k < scopes@.len() implies #[trigger] scopes@[k] < s.scopes@.len()
            && s.scopes@[scopes@[k] as int].kind == KindOf::Message by {
            assert(scopes@[k] == sc_before[k]);
        }
        let m = remaining@.len() as int;
        if m > 0 {
            assert forall|k: int| 0 <= k < m implies #[trigger] remaining@[k] > 0 by {
                assert(rem_before[k] >= rem_before[m - 1]);
            }
        }
        assert forall|a: int, b: int| 0 <= a < b < remaining@.len() implies #[trigger] remaining@[a] >= #[trigger] remaining@[b] by {
            assert(rem_before[a] >= rem_before[b]);
        }
        assert forall|k: int| 0 <= k < remaining@.len() implies #[trigger] remaining@[k] <= rem_before[0] - consumed by {
            assert(rem_before[0] >= rem_before[k]);
        }
    }
    if let Some((x, l)) = nested {
        if l > 0 {
            proof {
                assert(rem_before[rem_before.len() - 1] >= consumed);
            }
            if l > inner_left - consumed {
                return Err(DecodeError::InconsistentLength);
            }
            proof {
                let sub = rem_before.map_values(|x: u64| (x - consumed) as u64);
                let m = remaining@.len() as int;
                assert(sub[sub.len() - 1] == inner_left - consumed);
                assert(m == sub.len()) by {
                    if m < sub.len() {
                        assert(rem_before[sub.len() - 1] == consumed);
                    }
                }
                assert(remaining@ =~= sub);
            }
            let ghost r1 = remaining@;
            let ghost s1 = scopes@;
            remaining.push(l);
            scopes.push(x);
            proof {
                assert forall|k: int| 0 <= k < scopes@.len() implies #[trigger] scopes@[k] < s.scopes@.len()
                    && s.scopes@[scopes@[k] as int].kind == KindOf::Message by {
                    if k < s1.len() {
                        assert(scopes@[k] == s1[k]);
                    }
                }
                assert forall|k: int| 0 <= k < remaining@.len() implies #[trigger] remaining@[k] > 0 by {
                    if k < r1.len() {
                        assert(remaining@[k] == r1[k]);
                    }
                }
                assert forall|a: int, b: int| 0 <= a < b < remaining@.len() implies #[trigger] remaining@[a] >= #[trigger] remaining@[b] by {
                    if b < r1.len() {
                        assert(r1[a] >= r1[b]);
                    } else {
                        assert(r1[a] >= r1[r1.len() - 1]);
                    }
                }
                assert forall|k: int| 0 <= k < remaining@.len() implies #[trigger] remaining@[k] <= rem_before[0] - consumed by {
                    if k < r1.len() {
                        assert(remaining@[k] == r1[k]);
                    } else {
                        assert(rem_before[0] >= rem_before[rem_before.len() - 1]);
                    }
                }
            }
        }
    }
    Ok(())
}

/// Reads one field at `pos` and updates the open regions.
#[verifier::spinoff_prover]
#[verifier::rlimit(100)]
fn decode_step(
    bytes: &Vec<u8>,
    s: &Schema,
    scopes: &mut Vec<usize>,
    remaining: &mut Vec<u64>,
    pos: usize,
) -> (r: Result<(DecodedField, usize), DecodeError>)
    requires
        schema_wf(s),
        pos < bytes@.len(),
        decode_state_ok(s, bytes@.len() as int, pos as int, old(scopes)@, old(remaining)@),
    ensures
        r matches Ok((record, e)) ==> pos < e <= bytes@.len() && bytes@.subrange(pos as int, e as int)
            == record_bytes(record) && record.field_number < 0x2000_0000_0000_0000 && decode_state_ok(
            s,
            bytes@.len() as int,
            e as int,
            final(scopes)@,
            final(remaining)@,
        ) && forall|acc: Seq<RecordView>| #[trigger] decode_walk(bytes@, s, pos as int, old(scopes)@, old(remaining)@, acc)
            == decode_walk(bytes@, s, e as int, final(scopes)@, final(remaining)@, acc.push(record_view(record))),
        r matches Ok((record, e)) ==> record.depth == old(scopes)@.len() && (forall|k: int|
            0 <= k < old(remaining)@.len() ==> #[trigger] old(remaining)@[k] >= e - pos),
        r matches Ok((record, e)) ==> opens_region(record) ==> final(remaining)@
            == old(remaining)@.map_values(|x: u64| (x - (e - pos)) as u64).push(nested_len(record)->Some_0),
        r matches Ok((record, e)) ==> !opens_region(record) ==> final(remaining)@.len()
            <= old(remaining)@.len() && (forall|k: int|
            0 <= k < final(remaining)@.len() ==> #[trigger] final(remaining)@[k] == old(remaining)@[k] - (e - pos))
            && (forall|k: int|
            final(remaining)@.len() <= k < old(remaining)@.len() ==> #[trigger] old(remaining)@[k] == e - pos),
        r matches Err(err) ==> forall|acc: Seq<RecordView>| #[trigger] decode_walk(bytes@, s, pos as int, old(scopes)@, old(remaining)@, acc)
            == Err::<Seq<RecordView>, DecodeError>(err),
{
    let n = bytes.len();
    let depth = scopes.len();
    let top = scopes[depth - 1];
    let (record, e, nested) = read_field_at(bytes, s, top, pos, depth)?;
    let consumed = (e - pos) as u64;
    let ghost sc_before = scopes@;
    let ghost rem_before = remaining@;
    update_regions(s, scopes, remaining, consumed, nested)?;
    proof {
        assert forall|k: int| 0 <= k < remaining@.len() implies #[trigger] remaining@[k] <= n - e by {
            if k < rem_before.len() {
                assert(rem_before[k] <= n - pos);
            }
        }
        if let Some((x, l)) = nested {
            assert(record.value is Nested);
        } else {
            assert(!(record.value is Nested));
        }
    }
    Ok((record, e))
}

/// Decodes `bytes` as a message of the schema's message `root`. The
/// result lists every field in the order read; the fields of a nested
/// message follow the field that opens it. Each field's bytes (key, then
/// payload) come one after another, so that, together, they are exactly
/// the input. A nested message spans exactly its declared length, inside
/// the message that encloses it; a length past the input is malformed, one
/// past the enclosing message is inconsistent.
#[verifier::spinoff_prover]
#[verifier::rlimit(100)]
pub fn read_onnx_file(bytes: &Vec<u8>, s: &Schema, root: usize) -> (r: Result<Vec<DecodedField>, DecodeError>)
    requires
        schema_wf(s),
        root < s.scopes@.len(),
        s.scopes@[root as int].kind == KindOf::Message,
    ensures
        r matches Ok(fs) ==> encoding_of(fs@) == bytes@ && forall|k: int|
            0 <= k < fs@.len() ==> #[trigger] fs@[k].field_number < 0x2000_0000_0000_0000,
        r matches Ok(fs) ==> decode_spec(bytes@, s, root) == Ok::<Seq<RecordView>, DecodeError>(fs@.map_values(|f: DecodedField| record_view(f))),
        r matches Ok(fs) ==> forall|k: int| 0 <= k < fs@.len() ==> #[trigger] region_ok(fs@, k),
        r matches Err(e) ==> decode_spec(bytes@, s, root) == Err::<Seq<RecordView>, DecodeError>(e),
{
    let n = bytes.len();
    let mut fields: Vec<DecodedField> = Vec::new();
    let mut scopes: Vec<usize> = Vec::new();
    let mut remaining: Vec<u64> = Vec::new();
    if n > 0 {
        scopes.push(root);
        remaining.push(n as u64);
        assert(scopes@ =~= seq![root]);
        assert(remaining@ =~= seq![n as u64]);
    }
    let mut pos: usize = 0;
    assert(encoding_of(fields@) =~= bytes@.subrange(0, 0));
    assert(fields@.map_values(|f: DecodedField| record_view(f)) =~= Seq::<RecordView>::empty());
    let ghost mut opens: Seq<int> = if n > 0 {
        seq![-1int]
    } else {
        Seq::empty()
    };
    while pos < n
        invariant
            n == bytes@.len(),
            schema_wf(s),
            pos <= n,
            encoding_of(fields@) == bytes@.subrange(0, pos as int),
            forall|k: int|
                0 <= k < fields@.len() ==> #[trigger] fields@[k].field_number < 0x2000_0000_0000_0000,
            decode_state_ok(s, n as int, pos as int, scopes@, remaining@),
            decode_walk(bytes@, s, pos as int, scopes@, remaining@, fields@.map_values(|f: DecodedField| record_view(f)))
                == decode_spec(bytes@, s, root),
            regions_inv(fields@, pos as int, remaining@, opens, remaining@.len() as int),
        decreases n - pos,
    {
        let ghost acc = fields@.map_values(|f: DecodedField| record_view(f));
        let ghost sc0 = scopes@;
        let ghost rm0 = remaining@;
        let (record, e) = match decode_step(bytes, s, &mut scopes, &mut remaining, pos) {
            Ok(x) => x,
            Err(err) => {
                proof {
                    assert(decode_walk(bytes@, s, pos as int, sc0, rm0, acc) == Err::<Seq<RecordView>, DecodeError>(err));
                }
                return Err(err);
            },
        };
        proof {
            assert(decode_walk(bytes@, s, pos as int, sc0, rm0, acc) == decode_walk(bytes@, s, e as int, scopes@, remaining@, acc.push(record_view(record))));
        }
        proof {
            assert(bytes@.subrange(0, e as int) =~= bytes@.subrange(0, pos as int) + bytes@.subrange(
                pos as int,
                e as int,
            ));
        }
        let ghost before_fields = fields@;
        fields.push(record);
        proof {
            assert(fields@.drop_last() =~= before_fields);
            assert(fields@.map_values(|f: DecodedField| record_view(f)) =~= acc.push(record_view(record)));
            assert(fields@ == before_fields.push(record));
            opens = lemma_regions_step(before_fields, record, pos as int, e as int, rm0, remaining@, opens);
        }
        pos = e;
    }
    proof {
        assert(remaining@.len() == 0) by {
            if remaining@.len() > 0 {
                assert(remaining@[0] > 0);
            }
        }
        assert forall|k: int| 0 <= k < fields@.len() implies #[trigger] region_ok(fields@, k) by {
            assert(!is_open(opens, k));
        }
    }
    Ok(fields)
}

/// The bytes consumed by the decoded fields add up to the whole input.
pub proof fn lemma_decoded_bytes_cover_input(fs: Seq<DecodedField>, bytes: Seq<u8>)
    requires
        encoding_of(fs) == bytes,
    ensures
        bytes_consumed(fs) == bytes.len(),
{
    lemma_consumed_is_encoding_len(fs);
}

proof fn lemma_consumed_is_encoding_len(fs: Seq<DecodedField>)
    ensures
        bytes_consumed(fs) == encoding_of(fs).len(),
    decreases fs.len(),
{
    if fs.len() > 0 {
        lemma_consumed_is_encoding_len(fs.drop_last());
    }
}

} // verus!

verus! {

fn push_all(out: &mut Vec<u8>, b: &Vec<u8>)
    ensures
        final(out)@ == old(out)@ + b@,
{
    let mut i: usize = 0;
    while i < b.len()
        invariant
            i <= b@.len(),
            out@ == old(out)@ + b@.subrange(0, i as int),
        decreases b@.len() - i,
    {
        out.push(b[i]);
        i += 1;
        assert(out@ =~= old(out)@ + b@.subrange(0, i as int));
    }
    assert(b@.subrange(0, b@.len() as int) =~= b@);
}

fn le32_encode(v: u32) -> (r: Vec<u8>)
    ensures
        r@ == le32_bytes(v as nat),
{
    let mut r: Vec<u8> = Vec::new();
    r.push((v % 256) as u8);
    r.push(((v / 256) % 256) as u8);
    r.push(((v / 65536) % 256) as u8);
    r.push(((v / 16777216) % 256) as u8);
    assert(r@ =~= le32_bytes(v as nat));
    r
}

fn wire_type_number(w: WireType) -> (r: u64)
    ensures
        r as nat == wt_num(w),
{
    match w {
        WireType::Varint => 0,
        WireType::I64 => 1,
        WireType::Len => 2,
        WireType::SGroup => 3,
        WireType::EGroup => 4,
        WireType::I32 => 5,
    }
}

/// The encoding of one field: its key, then its payload.
pub fn encode_field(f: &DecodedField) -> (r: Vec<u8>)
    requires
        f.field_number < 0x2000_0000_0000_0000,
    ensures
        r@ == record_bytes(*f),
{
    let mut out = crate::wire::encode_varint(f.field_number * 8 + wire_type_number(f.wire_type));
    match &f.value {
        FieldValue::Varint(x) => push_all(&mut out, &crate::wire::encode_varint(*x)),
        FieldValue::Fixed32(x) => push_all(&mut out, &le32_encode(*x)),
        FieldValue::Fixed64(x) => {
            push_all(&mut out, &le32_encode((*x % 4294967296) as u32));
            push_all(&mut out, &le32_encode((*x / 4294967296) as u32));
            assert(out@ =~= varint_enc((f.field_number * 8 + wt_num(f.wire_type)) as nat)
                + le64_bytes(*x as nat));
        },
        FieldValue::Bytes(b) => {
            push_all(&mut out, &crate::wire::encode_varint(b.len() as u64));
            push_all(&mut out, b);
            assert(out@ =~= varint_enc((f.field_number * 8 + wt_num(f.wire_type)) as nat) + (
            varint_enc(b@.len()) + b@));
        },
        FieldValue::Nested(l) => push_all(&mut out, &crate::wire::encode_varint(*l)),
        FieldValue::EnumConst(x, _) => push_all(&mut out, &crate::wire::encode_varint(*x)),
    }
    out
}

/// Writes a list of decoded fields back to bytes.
pub fn generate_onnx_file(fields: &Vec<DecodedField>) -> (r: Vec<u8>)
    requires
        forall|k: int| 0 <= k < fields@.len() ==> #[trigger] fields@[k].field_number < 0x2000_0000_0000_0000,
    ensures
        r@ == encoding_of(fields@),
{
    let mut out: Vec<u8> = Vec::new();
    let mut k: usize = 0;
    assert(fields@.subrange(0, 0) =~= Seq::<DecodedField>::empty());
    while k < fields.len()
        invariant
            k <= fields@.len(),
            forall|j: int| 0 <= j < fields@.len() ==> #[trigger] fields@[j].field_number < 0x2000_0000_0000_0000,
            out@ == encoding_of(fields@.subrange(0, k as int)),
        decreases fields@.len() - k,
    {
        let b = encode_field(&fields[k]);
        push_all(&mut out, &b);
        assert(fields@.subrange(0, k + 1).drop_last() =~= fields@.subrange(0, k as int));
        k += 1;
    }
    assert(fields@.subrange(0, k as int) =~= fields@);
    out
}

/// Writing back what was decoded gives the input byte for byte: if
/// `fields` is what `read_onnx_file` returned for `bytes`, and `out` is
/// what `generate_onnx_file` returns for `fields`, then `out` is `bytes`.
pub proof fn lemma_decode_round_trip(bytes: Seq<u8>, fields: Seq<DecodedField>, out: Seq<u8>)
    requires
        encoding_of(fields) == bytes,
        out == encoding_of(fields),
    ensures
        out == bytes,
{
}

} // verus!

verus! {

/// The character whose code is the byte `b` (for ASCII bytes, the byte's
/// own character).
pub fn binary_string_to_ascii(b: u8) -> (r: Option<char>)
    ensures
        r == Some(b as char),
{
    Some(b as char)
}

} // verus!

verus! {

/// The byte offset at which field `k` starts.
pub open spec fn start_of(fs: Seq<DecodedField>, k: int) -> int {
    encoding_of(fs.subrange(0, k)).len() as int
}

/// The nested message opened by field `k` ends where field `j` starts: the
/// fields in between are exactly its declared length of bytes, all one
/// level deeper or more.
pub open spec fn region_closed_at(fs: Seq<DecodedField>, k: int, j: int) -> bool {
    &&& k < j <= fs.len()
    &&& start_of(fs, j) == start_of(fs, k + 1) + nested_len(fs[k])->Some_0
    &&& forall|m: int| k < m < j ==> #[trigger] fs[m].depth > fs[k].depth
}

/// A field that opens a nested message is followed by exactly that
/// message: its declared length of bytes, in fields one level deeper or
/// more, after which decoding is back at its own level or above.
pub open spec fn region_ok(fs: Seq<DecodedField>, k: int) -> bool {
    nested_len(fs[k]) is Some ==> exists|j: int| #[trigger] region_closed_at(fs, k, j) && (j < fs.len() ==> fs[j].depth <= fs[k].depth)
}

/// Field `k` opens the region at stack place `i`.
pub open spec fn is_open(opens: Seq<int>, k: int) -> bool {
    exists|i: int| 1 <= i < opens.len() && #[trigger] opens[i] == k
}

/// How the decoded fields and the open regions relate while decoding.
pub open spec fn regions_inv(fs: Seq<DecodedField>, pos: int, rem: Seq<u64>, opens: Seq<int>, depth: int) -> bool {
    &&& opens.len() == rem.len()
    &&& depth == rem.len()
    &&& encoding_of(fs).len() == pos
    &&& forall|i: int|
        1 <= i < opens.len() ==> {
            let k = #[trigger] opens[i];
            &&& 0 <= k < fs.len()
            &&& opens_region(fs[k])
            &&& fs[k].depth == i
            &&& start_of(fs, k + 1) + nested_len(fs[k])->Some_0 == pos + rem[i]
            &&& forall|m: int| k < m < fs.len() ==> #[trigger] fs[m].depth > i
        }
    &&& forall|k: int|
        0 <= k < fs.len() && nested_len(#[trigger] fs[k]) is Some && !is_open(opens, k) ==> (exists|j: int|
            #[trigger] region_closed_at(fs, k, j) && j < fs.len() && fs[j].depth <= fs[k].depth) || (
        region_closed_at(fs, k, fs.len() as int) && depth <= fs[k].depth)
}

proof fn lemma_start_of_push(fs: Seq<DecodedField>, r: DecodedField, k: int)
    requires
        0 <= k <= fs.len(),
    ensures
        start_of(fs.push(r), k) == start_of(fs, k),
{
    assert(fs.push(r).subrange(0, k) =~= fs.subrange(0, k));
}

proof fn lemma_step_basics(fs: Seq<DecodedField>, r: DecodedField, pos: int, e: int)
    requires
        encoding_of(fs).len() == pos,
        encoding_of(fs.push(r)).len() == e,
    ensures
        start_of(fs.push(r), fs.len() as int + 1) == e,
        start_of(fs.push(r), fs.len() as int) == pos,
        forall|k: int| 0 <= k <= fs.len() ==> #[trigger] start_of(fs.push(r), k) == start_of(fs, k),
{
    let f2 = fs.push(r);
    let n = fs.len() as int;
    assert(f2.subrange(0, n + 1) =~= f2);
    assert(f2.subrange(0, n) =~= fs);
    assert forall|k: int| 0 <= k <= n implies #[trigger] start_of(f2, k) == start_of(fs, k) by {
        lemma_start_of_push(fs, r, k);
    }
}

#[verifier::spinoff_prover]
#[verifier::rlimit(100)]
proof fn lemma_step_open(
    fs: Seq<DecodedField>,
    r: DecodedField,
    pos: int,
    e: int,
    rem: Seq<u64>,
    rem2: Seq<u64>,
    opens: Seq<int>,
    opens2: Seq<int>,
)
    requires
        regions_inv(fs, pos, rem, opens, rem.len() as int),
        rem.len() > 0,
        r.depth == rem.len(),
        encoding_of(fs.push(r)).len() == e,
        pos < e,
        forall|k: int| 0 <= k < rem.len() ==> #[trigger] rem[k] >= e - pos,
        opens_region(r) ==> rem2 == rem.map_values(|y: u64| (y - (e - pos)) as u64).push(nested_len(r)->Some_0),
        !opens_region(r) ==> rem2.len() <= rem.len() && (forall|k: int|
            0 <= k < rem2.len() ==> #[trigger] rem2[k] == rem[k] - (e - pos)) && (forall|k: int|
            rem2.len() <= k < rem.len() ==> #[trigger] rem[k] == e - pos),
        opens2 == (if opens_region(r) { opens.push(fs.len() as int) } else { opens.subrange(0, rem2.len() as int) }),
    ensures
        forall|i: int|
            1 <= i < opens2.len() ==> {
                let k = #[trigger] opens2[i];
                &&& 0 <= k < fs.push(r).len()
                &&& opens_region(fs.push(r)[k])
                &&& fs.push(r)[k].depth == i
                &&& start_of(fs.push(r), k + 1) + nested_len(fs.push(r)[k])->Some_0 == e + rem2[i]
                &&& forall|m: int| k < m < fs.push(r).len() ==> #[trigger] fs.push(r)[m].depth > i
            },
{
    let f2 = fs.push(r);
    let n = fs.len() as int;
    let d = rem.len() as int;
    lemma_step_basics(fs, r, pos, e);
    assert forall|i: int| 1 <= i < opens2.len() implies {
        let k = #[trigger] opens2[i];
        &&& 0 <= k < f2.len()
        &&& opens_region(f2[k])
        &&& f2[k].depth == i
        &&& start_of(f2, k + 1) + nested_len(f2[k])->Some_0 == e + rem2[i]
        &&& forall|m: int| k < m < f2.len() ==> #[trigger] f2[m].depth > i
    } by {
        let k = opens2[i];
        if i < d {
            assert(opens2[i] == opens[i]);
            assert(f2[k] == fs[k]);
            assert(start_of(f2, k + 1) == start_of(fs, k + 1));
            assert forall|m: int| k < m < f2.len() implies #[trigger] f2[m].depth > i by {
                if m < n {
                    assert(f2[m] == fs[m]);
                } else {
                    assert(f2[m] == r);
                }
            }
        } else {
            assert(opens_region(r) && i == d && k == n);
            assert(f2[n] == r);
        }
    }
}

#[verifier::spinoff_prover]
#[verifier::rlimit(100)]
proof fn lemma_step_closed(
    fs: Seq<DecodedField>,
    r: DecodedField,
    pos: int,
    e: int,
    rem: Seq<u64>,
    rem2: Seq<u64>,
    opens: Seq<int>,
    opens2: Seq<int>,
)
    requires
        regions_inv(fs, pos, rem, opens, rem.len() as int),
        rem.len() > 0,
        r.depth == rem.len(),
        encoding_of(fs.push(r)).len() == e,
        pos < e,
        forall|k: int| 0 <= k < rem.len() ==> #[trigger] rem[k] >= e - pos,
        opens_region(r) ==> rem2 == rem.map_values(|y: u64| (y - (e - pos)) as u64).push(nested_len(r)->Some_0),
        !opens_region(r) ==> rem2.len() <= rem.len() && (forall|k: int|
            0 <= k < rem2.len() ==> #[trigger] rem2[k] == rem[k] - (e - pos)) && (forall|k: int|
            rem2.len() <= k < rem.len() ==> #[trigger] rem[k] == e - pos),
        opens2 == (if opens_region(r) { opens.push(fs.len() as int) } else { opens.subrange(0, rem2.len() as int) }),
    ensures
        forall|k: int|
            0 <= k < fs.push(r).len() && nested_len(#[trigger] fs.push(r)[k]) is Some && !is_open(opens2, k) ==> (exists|j: int|
                #[trigger] region_closed_at(fs.push(r), k, j) && j < fs.push(r).len() && fs.push(r)[j].depth <= fs.push(r)[k].depth) || (
            region_closed_at(fs.push(r), k, fs.push(r).len() as int) && rem2.len() <= fs.push(r)[k].depth),
{
    let f2 = fs.push(r);
    let n = fs.len() as int;
    let d = rem.len() as int;
    let c = e - pos;
    lemma_step_basics(fs, r, pos, e);
    assert forall|k: int|
        0 <= k < f2.len() && nested_len(#[trigger] f2[k]) is Some && !is_open(opens2, k) implies (exists|j: int|
            #[trigger] region_closed_at(f2, k, j) && j < f2.len() && f2[j].depth <= f2[k].depth) || (
        region_closed_at(f2, k, f2.len() as int) && rem2.len() <= f2[k].depth) by {
        if k < n {
            assert(f2[k] == fs[k]);
            assert(start_of(f2, k + 1) == start_of(fs, k + 1));
            if is_open(opens, k) {
                let i = choose|i: int| 1 <= i < opens.len() && #[trigger] opens[i] == k;
                if opens_region(r) {
                    assert(opens2[i] == k);
                    assert(is_open(opens2, k));
                }
                assert(i >= rem2.len()) by {
                    if i < rem2.len() {
                        assert(opens2[i] == opens[i]);
                        assert(is_open(opens2, k));
                    }
                }
                assert(rem[i] == c);
                assert forall|m: int| k < m < f2.len() implies #[trigger] f2[m].depth > f2[k].depth by {
                    if m < n {
                        assert(f2[m] == fs[m]);
                    }
                }
                assert(region_closed_at(f2, k, f2.len() as int));
            } else {
                if exists|j: int| #[trigger] region_closed_at(fs, k, j) && j < fs.len() && fs[j].depth <= fs[k].depth {
                    let j = choose|j: int| #[trigger] region_closed_at(fs, k, j) && j < fs.len() && fs[j].depth <= fs[k].depth;
                    assert(start_of(f2, j) == start_of(fs, j));
                    assert forall|m: int| k < m < j implies #[trigger] f2[m].depth > f2[k].depth by {
                        assert(f2[m] == fs[m]);
                    }
                    assert(region_closed_at(f2, k, j));
                    assert(f2[j] == fs[j]);
                } else {
                    assert(region_closed_at(fs, k, n) && d <= fs[k].depth);
                    assert forall|m: int| k < m < n implies #[trigger] f2[m].depth > f2[k].depth by {
                        assert(f2[m] == fs[m]);
                    }
                    assert(region_closed_at(f2, k, n));
                    assert(f2[n] == r);
                }
            }
        } else {
            assert(k == n && f2[n] == r);
            if opens_region(r) {
                assert(opens2[d] == n);
                assert(is_open(opens2, k));
            } else {
                assert(nested_len(r)->Some_0 == 0);
                assert(region_closed_at(f2, k, f2.len() as int));
            }
        }
    }
}

proof fn lemma_regions_step(
    fs: Seq<DecodedField>,
    r: DecodedField,
    pos: int,
    e: int,
    rem: Seq<u64>,
    rem2: Seq<u64>,
    opens: Seq<int>,
) -> (opens2: Seq<int>)
    requires
        regions_inv(fs, pos, rem, opens, rem.len() as int),
        rem.len() > 0,
        r.depth == rem.len(),
        encoding_of(fs.push(r)).len() == e,
        pos < e,
        forall|k: int| 0 <= k < rem.len() ==> #[trigger] rem[k] >= e - pos,
        opens_region(r) ==> rem2 == rem.map_values(|y: u64| (y - (e - pos)) as u64).push(nested_len(r)->Some_0),
        !opens_region(r) ==> rem2.len() <= rem.len() && (forall|k: int|
            0 <= k < rem2.len() ==> #[trigger] rem2[k] == rem[k] - (e - pos)) && (forall|k: int|
            rem2.len() <= k < rem.len() ==> #[trigger] rem[k] == e - pos),
    ensures
        regions_inv(fs.push(r), e, rem2, opens2, rem2.len() as int),
{
    let opens2 = if opens_region(r) {
        opens.push(fs.len() as int)
    } else {
        opens.subrange(0, rem2.len() as int)
    };
    lemma_step_open(fs, r, pos, e, rem, rem2, opens, opens2);
    lemma_step_closed(fs, r, pos, e, rem, rem2, opens, opens2);
    opens2
}

} // verus!
