//! Protocol Buffers wire-format primitives: varints, field keys and
//! little-endian fixed-width integers.
use vstd::prelude::*;

verus! {

/// Errors raised while reading a binary message.
#[derive(Debug, Clone, Copy, PartialEq, Eq, Structural)]
pub enum DecodeError {
    /// Truncated input, a bad varint or an unknown wire type.
    Malformed,
    /// A field number that does not resolve in the current scope.
    UnknownField,
    /// A wire type that does not fit the declared field type.
    TypeMismatch,
    /// A length-delimited payload that runs past its enclosing region.
    InconsistentLength,
}

/// The six wire types of the encoding.
#[derive(Debug, Clone, Copy, PartialEq, Eq, Structural)]
pub enum WireType {
    Varint,
    I64,
    Len,
    SGroup,
    EGroup,
    I32,
}

/// The minimal varint encoding of `v`: seven bits per byte, least
/// significant group first, high bit set on every byte but the last.
pub open spec fn varint_enc(v: nat) -> Seq<u8>
    decreases v,
{
    if v < 128 {
        seq![v as u8]
    } else {
        seq![((v % 128) + 128) as u8] + varint_enc(v / 128)
    }
}

/// The wire type whose number is `n`, if there is one.
pub open spec fn wire_type_of(n: u64) -> Option<WireType> {
    if n == 0 {
        Some(WireType::Varint)
    } else if n == 1 {
        Some(WireType::I64)
    } else if n == 2 {
        Some(WireType::Len)
    } else if n == 3 {
        Some(WireType::SGroup)
    } else if n == 4 {
        Some(WireType::EGroup)
    } else if n == 5 {
        Some(WireType::I32)
    } else {
        None
    }
}

/// Some varint that fits in 64 bits is encoded at `b[pos..e]`.
pub open spec fn has_varint_at(b: Seq<u8>, pos: int) -> bool {
    exists|v: nat, e: int|
        #![trigger b.subrange(pos, e), varint_enc(v)]
        v <= u64::MAX && pos < e <= b.len() && b.subrange(pos, e) == varint_enc(v)
}

/// The varint that starts at `p` (when there is one): its value and the
/// position after it.
pub open spec fn varint_at(b: Seq<u8>, p: int) -> (nat, int) {
    choose|v: nat, e: int|
        #![trigger b.subrange(p, e), varint_enc(v)]
        v <= u64::MAX && p < e <= b.len() && b.subrange(p, e) == varint_enc(v)
}

/// A varint found at `p` is the one that `varint_at` names.
pub proof fn lemma_varint_at(b: Seq<u8>, p: int, v: nat, e: int)
    requires
        0 <= p < e <= b.len(),
        v <= u64::MAX,
        b.subrange(p, e) == varint_enc(v),
    ensures
        has_varint_at(b, p),
        varint_at(b, p) == (v, e),
{
    assert(has_varint_at(b, p));
    let (w, e2) = varint_at(b, p);
    lemma_varint_prefix_unique(b, p, e, e2, v, w);
}

/// Little-endian value of four bytes.
pub open spec fn le32(b: Seq<u8>, pos: int) -> nat {
    (b[pos] + 256 * b[pos + 1] + 65536 * b[pos + 2] + 16777216 * b[pos + 3]) as nat
}

/// Little-endian value of eight bytes.
pub open spec fn le64(b: Seq<u8>, pos: int) -> nat {
    le32(b, pos) + 4294967296 * le32(b, pos + 4)
}

proof fn lemma_varint_enc_first(v: nat)
    ensures
        varint_enc(v).len() >= 1,
        v < 128 ==> varint_enc(v)[0] == v,
        v >= 128 ==> varint_enc(v)[0] >= 128 && varint_enc(v)[0] == (v % 128) + 128,
        v >= 128 ==> varint_enc(v).drop_first() == varint_enc(v / 128),
        varint_enc(v)[0] == 0 <==> v == 0,
{
    if v >= 128 {
        assert(varint_enc(v).drop_first() =~= varint_enc(v / 128));
    }
}

/// A varint is never a proper prefix of another: two encodings found at
/// the same place of a byte string have the same value and the same length.
pub proof fn lemma_varint_prefix_unique(s: Seq<u8>, p: int, e1: int, e2: int, a: nat, c: nat)
    requires
        0 <= p < e1 <= s.len(),
        p < e2 <= s.len(),
        s.subrange(p, e1) == varint_enc(a),
        s.subrange(p, e2) == varint_enc(c),
    ensures
        a == c,
        e1 == e2,
    decreases a,
{
    lemma_varint_enc_first(a);
    lemma_varint_enc_first(c);
    assert(s[p] == s.subrange(p, e1)[0]);
    assert(s[p] == s.subrange(p, e2)[0]);
    if a < 128 {
        assert(c < 128);
        assert(varint_enc(a).len() == 1);
        assert(varint_enc(c).len() == 1);
    } else {
        assert(c >= 128);
        assert(s.subrange(p + 1, e1) =~= s.subrange(p, e1).drop_first());
        assert(s.subrange(p + 1, e2) =~= s.subrange(p, e2).drop_first());
        lemma_varint_prefix_unique(s, p + 1, e1, e2, a / 128, c / 128);
        assert(a == 128 * (a / 128) + a % 128);
        assert(c == 128 * (c / 128) + c % 128);
    }
}

/// Decoding what `encode_varint` wrote gives back the value and consumes
/// every byte: the only varint that starts the encoding of `v` is `v`
/// itself, over the whole encoding.
pub proof fn lemma_varint_round_trip(v: nat, w: nat, e: int)
    requires
        0 < e <= varint_enc(v).len(),
        varint_enc(v).subrange(0, e) == varint_enc(w),
    ensures
        w == v,
        e == varint_enc(v).len(),
{
    let s = varint_enc(v);
    lemma_varint_enc_first(v);
    assert(s.subrange(0, s.len() as int) =~= s);
    lemma_varint_prefix_unique(s, 0, s.len() as int, e, v, w);
}

/// Reads the varint that starts at `pos` and returns its value and the
/// position just after it. Overlong encodings and values beyond 64 bits
/// are refused.
pub fn concat_bytes(bytes: &Vec<u8>, pos: usize) -> (r: Result<(u64, usize), DecodeError>)
    requires
        pos <= bytes@.len(),
    ensures
        r is Ok <==> has_varint_at(bytes@, pos as int),
        r is Ok ==> pos < r->Ok_0.1 <= bytes@.len() && bytes@.subrange(pos as int, r->Ok_0.1 as int)
            == varint_enc(r->Ok_0.0 as nat),
        r is Err ==> r == Err::<(u64, usize), DecodeError>(DecodeError::Malformed),
    decreases bytes@.len() - pos,
{
    if pos >= bytes.len() {
        return Err(DecodeError::Malformed);
    }
    let b = bytes[pos];
    if b < 128 {
        proof {
            lemma_varint_enc_first(b as nat);
            assert(bytes@.subrange(pos as int, pos + 1) =~= varint_enc(b as nat));
        }
        return Ok((b as u64, pos + 1));
    }
    let low: u64 = (b - 128) as u64;
    let inner = concat_bytes(bytes, pos + 1);
    proof {
        if has_varint_at(bytes@, pos as int) {
            let (w, e) = choose|w: nat, e: int|
                w <= u64::MAX && pos < e <= bytes@.len() && bytes@.subrange(pos as int, e)
                    == varint_enc(w);
            lemma_varint_enc_first(w);
            assert(bytes@[pos as int] == bytes@.subrange(pos as int, e)[0]);
            assert(w >= 128);
            assert(bytes@.subrange(pos + 1, e) =~= bytes@.subrange(pos as int, e).drop_first());
            assert(w / 128 <= u64::MAX);
            assert(has_varint_at(bytes@, pos + 1));
        }
    }
    match inner {
        Err(err) => Err(err),
        Ok((v, e)) => {
            if v == 0 || v > (u64::MAX - low) / 128 {
                proof {
                    if has_varint_at(bytes@, pos as int) {
                        let (w, e2) = choose|w: nat, e2: int|
                            w <= u64::MAX && pos < e2 <= bytes@.len() && bytes@.subrange(
                                pos as int,
                                e2,
                            ) == varint_enc(w);
                        lemma_varint_enc_first(w);
                        assert(bytes@[pos as int] == bytes@.subrange(pos as int, e2)[0]);
                        assert(bytes@.subrange(pos + 1, e2) =~= bytes@.subrange(
                            pos as int,
                            e2,
                        ).drop_first());
                        lemma_varint_prefix_unique(bytes@, pos + 1, e as int, e2, v as nat, w / 128);
                        assert(w == 128 * (w / 128) + w % 128);
                        assert(w % 128 == low);
                    }
                }
                Err(DecodeError::Malformed)
            } else {
                let val: u64 = low + 128 * v;
                proof {
                    assert(val % 128 == low);
                    assert(val / 128 == v);
                    lemma_varint_enc_first(val as nat);
                    assert(bytes@.subrange(pos as int, e as int) =~= seq![b] + bytes@.subrange(
                        pos + 1,
                        e as int,
                    ));
                    assert(varint_enc(val as nat) =~= seq![b] + varint_enc(v as nat));
                }
                Ok((val, e))
            }
        },
    }
}

/// Writes the minimal varint encoding of `v`.
pub fn encode_varint(v: u64) -> (r: Vec<u8>)
    ensures
        r@ == varint_enc(v as nat),
{
    let mut r: Vec<u8> = Vec::new();
    let mut x: u64 = v;
    while x >= 128
        invariant
            r@ + varint_enc(x as nat) == varint_enc(v as nat),
        decreases x,
    {
        let byte: u8 = ((x % 128) + 128) as u8;
        proof {
            assert(varint_enc(x as nat) =~= seq![byte] + varint_enc((x / 128) as nat));
            assert(r@.push(byte) + varint_enc((x / 128) as nat) =~= r@ + varint_enc(x as nat));
        }
        r.push(byte);
        x = x / 128;
    }
    proof {
        assert(r@.push(x as u8) =~= r@ + varint_enc(x as nat));
    }
    r.push(x as u8);
    r
}

/// The wire type named by the low three bits of a field key.
pub fn get_wire_type(bits: u64) -> (r: Option<WireType>)
    ensures
        r == wire_type_of(bits),
{
    if bits == 0 {
        Some(WireType::Varint)
    } else if bits == 1 {
        Some(WireType::I64)
    } else if bits == 2 {
        Some(WireType::Len)
    } else if bits == 3 {
        Some(WireType::SGroup)
    } else if bits == 4 {
        Some(WireType::EGroup)
    } else if bits == 5 {
        Some(WireType::I32)
    } else {
        None
    }
}

/// Reads four little-endian bytes at `pos`.
pub fn read_u32_le(bytes: &Vec<u8>, pos: usize) -> (r: u32)
    requires
        pos + 4 <= bytes@.len(),
    ensures
        r as nat == le32(bytes@, pos as int),
{
    let _n = bytes.len();
    (bytes[pos] as u32) + 256 * (bytes[pos + 1] as u32) + 65536 * (bytes[pos + 2] as u32) + 16777216
        * (bytes[pos + 3] as u32)
}

/// Reads eight little-endian bytes at `pos`.
pub fn read_u64_le(bytes: &Vec<u8>, pos: usize) -> (r: u64)
    requires
        pos + 8 <= bytes@.len(),
    ensures
        r as nat == le64(bytes@, pos as int),
{
    let _n = bytes.len();
    let lo = read_u32_le(bytes, pos);
    let hi = read_u32_le(bytes, pos + 4);
    (lo as u64) + 4294967296 * (hi as u64)
}

/// Writes `v` as four little-endian bytes.
pub fn encode_u32_le(v: u32) -> (r: Vec<u8>)
    ensures
        r@.len() == 4,
        le32(r@, 0) == v,
{
    let mut r: Vec<u8> = Vec::new();
    r.push((v % 256) as u8);
    r.push(((v / 256) % 256) as u8);
    r.push(((v / 65536) % 256) as u8);
    r.push((v / 16777216) as u8);
    r
}

} // verus!
