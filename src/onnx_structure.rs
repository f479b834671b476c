//! The model tree: the parts of an ONNX `ModelProto` that inference reads,
//! built from the decoder's field list.
use vstd::prelude::*;
use crate::proto_structure::chars_is;
use crate::read_onnx::{DecodedField, FieldValue};
use crate::read_proto::chars_of;
use crate::wire::{concat_bytes, has_varint_at, read_u32_le, varint_at};

verus! {

/// Names the text that `String::from_utf8_lossy` makes of some bytes.
pub uninterp spec fn utf8_lossy(b: Seq<u8>) -> Seq<char>;

/// Relies on `String::from_utf8_lossy`: the bytes read as UTF-8, with each
/// invalid sequence replaced; ASCII bytes stand for themselves.
#[verifier::external_body]
fn text_of(b: &Vec<u8>) -> (r: String)
    ensures
        r@ == utf8_lossy(b@),
        (forall|k: int| 0 <= k < b@.len() ==> #[trigger] b@[k] < 128) ==> r@ == b@.map_values(
            |c: u8| c as char,
        ),
{
    String::from_utf8_lossy(b).into_owned()
}

/// A node attribute. Floats are kept as their IEEE-754 bits.
#[derive(Debug)]
pub struct AttributeProto {
    pub name: String,
    pub f: Option<u32>,
    pub i: Option<i64>,
    pub s: Option<Vec<u8>>,
    pub ints: Vec<i64>,
    pub floats: Vec<u32>,
}

/// An operator application.
#[derive(Debug)]
pub struct NodeProto {
    pub input: Vec<String>,
    pub output: Vec<String>,
    pub name: String,
    pub op_type: String,
    pub attribute: Vec<AttributeProto>,
}

/// A constant tensor. Floats are kept as their IEEE-754 bits.
#[derive(Debug)]
pub struct TensorProto {
    pub dims: Vec<i64>,
    pub data_type: i64,
    pub float_data: Vec<u32>,
    pub int64_data: Vec<i64>,
    pub name: String,
    pub raw_data: Option<Vec<u8>>,
}

/// A graph input or output: its name and the fixed sizes of its shape.
#[derive(Debug)]
pub struct ValueInfoProto {
    pub name: String,
    pub dims: Vec<i64>,
}

#[derive(Debug)]
pub struct GraphProto {
    pub node: Vec<NodeProto>,
    pub name: String,
    pub initializer: Vec<TensorProto>,
    pub input: Vec<ValueInfoProto>,
    pub output: Vec<ValueInfoProto>,
}

#[derive(Debug)]
pub struct ModelProto {
    pub ir_version: i64,
    pub producer_name: String,
    pub graph: GraphProto,
}

impl ModelProto {
    /// An empty model.
    pub fn new() -> (r: Self)
        ensures
            r.ir_version == 0,
            r.producer_name@.len() == 0,
            r.graph.node@.len() == 0,
            r.graph.name@.len() == 0,
            r.graph.initializer@.len() == 0,
            r.graph.input@.len() == 0,
            r.graph.output@.len() == 0,
    {
        ModelProto {
            ir_version: 0,
            producer_name: String::new(),
            graph: GraphProto {
                node: Vec::new(),
                name: String::new(),
                initializer: Vec::new(),
                input: Vec::new(),
                output: Vec::new(),
            },
        }
    }
}

pub(crate) fn name_is(s: &String, lit: Vec<char>) -> (r: bool)
    ensures
        r == (s@ == lit@),
{
    let cs = chars_of(s.as_str());
    chars_is(cs.as_slice(), lit)
}

/// The first index from `j` on whose field is at depth `d` or less, or `end`.
pub open spec fn scan_end(fields: Seq<DecodedField>, d: usize, j: int, end: int) -> int
    decreases end - j,
{
    if j >= end || fields[j].depth <= d {
        j
    } else {
        scan_end(fields, d, j + 1, end)
    }
}

fn name_is_char(s: &String, c: char) -> (r: bool)
    ensures
        r == (s@ == seq![c]),
{
    let cs = chars_of(s.as_str());
    if cs.len() != 1 {
        return false;
    }
    let r = cs[0] == c;
    proof {
        if r {
            assert(cs@ =~= seq![c]);
        }
    }
    r
}

/// The index after the fields that belong to the message opened at `k`
/// (those that follow it one level deeper or more), within `end`.
pub open spec fn msg_end(fields: Seq<DecodedField>, k: int, end: int) -> int {
    scan_end(fields, fields[k].depth, k + 1, end)
}

proof fn lemma_scan_end_bounds(fields: Seq<DecodedField>, d: usize, j: int, end: int)
    requires
        j <= end,
    ensures
        j <= scan_end(fields, d, j, end) <= end,
    decreases end - j,
{
    if !(j >= end || fields[j].depth <= d) {
        lemma_scan_end_bounds(fields, d, j + 1, end);
    }
}

fn message_end(fields: &Vec<DecodedField>, k: usize, end: usize) -> (r: usize)
    requires
        k < end <= fields@.len(),
    ensures
        k < r <= end,
        r == msg_end(fields@, k as int, end as int),
{
    let d = fields[k].depth;
    let mut j = k + 1;
    proof {
        lemma_scan_end_bounds(fields@, d, j as int, end as int);
    }
    while j < end && fields[j].depth > d
        invariant
            k < j <= end,
            end <= fields@.len(),
            d == fields@[k as int].depth,
            scan_end(fields@, d, j as int, end as int) == msg_end(fields@, k as int, end as int),
        decreases end - j,
    {
        j += 1;
    }
    j
}

/// The text of a string field (of nothing, for other fields).
pub open spec fn text_spec(v: FieldValue) -> Seq<char> {
    utf8_lossy(
        match v {
            FieldValue::Bytes(b) => b@,
            _ => Seq::<u8>::empty(),
        },
    )
}

/// An attribute as the builder sees it: name, `f`, `i`, `s`, `ints`, `floats`.
pub type AttrView = (Seq<char>, Option<u32>, Option<i64>, Option<Seq<u8>>, Seq<i64>, Seq<u32>);

/// A node as the builder sees it: inputs, outputs, name, operator, attributes.
pub type NodeView = (Seq<Seq<char>>, Seq<Seq<char>>, Seq<char>, Seq<char>, Seq<AttrView>);

/// A tensor as the builder sees it: dims, data type, `float_data`,
/// `int64_data`, name, raw payload.
pub type TensorView = (Seq<i64>, i64, Seq<u32>, Seq<i64>, Seq<char>, Option<Seq<u8>>);

/// A graph as the builder sees it: nodes, name, initializers, and the name
/// and dims of each input and each output.
pub type GraphView = (Seq<NodeView>, Seq<char>, Seq<TensorView>, Seq<(Seq<char>, Seq<i64>)>, Seq<(Seq<char>, Seq<i64>)>);

/// The payload bytes of a field (nothing, for fields that carry none).
pub open spec fn bytes_spec(v: FieldValue) -> Seq<u8> {
    match v {
        FieldValue::Bytes(b) => b@,
        _ => Seq::<u8>::empty(),
    }
}

pub open spec fn attr_view(a: AttributeProto) -> AttrView {
    (a.name@, a.f, a.i, match a.s {
        Some(b) => Some(b@),
        None => None,
    }, a.ints@, a.floats@)
}

/// The effect of one field of an `AttributeProto` on the attribute read so far.
pub open spec fn attr_step(acc: AttrView, f: DecodedField) -> AttrView {
    let n = f.name@;
    if n == seq!['n', 'a', 'm', 'e'] {
        (text_spec(f.value), acc.1, acc.2, acc.3, acc.4, acc.5)
    } else if n == seq!['f'] {
        match f.value {
            FieldValue::Fixed32(x) => (acc.0, Some(x), acc.2, acc.3, acc.4, acc.5),
            _ => acc,
        }
    } else if n == seq!['i'] {
        (acc.0, acc.1, Some(int_spec(f.value)), acc.3, acc.4, acc.5)
    } else if n == seq!['s'] {
        (acc.0, acc.1, acc.2, Some(bytes_spec(f.value)), acc.4, acc.5)
    } else if n == seq!['i', 'n', 't', 's'] {
        (acc.0, acc.1, acc.2, acc.3, acc.4 + ints_of(f.value), acc.5)
    } else if n == seq!['f', 'l', 'o', 'a', 't', 's'] {
        (acc.0, acc.1, acc.2, acc.3, acc.4, acc.5 + words_of(f.value))
    } else {
        acc
    }
}

pub open spec fn attr_walk(fields: Seq<DecodedField>, k: int, end: int, acc: AttrView) -> AttrView
    decreases end - k,
{
    if k >= end || msg_end(fields, k, end) <= k || msg_end(fields, k, end) > end {
        acc
    } else {
        attr_walk(fields, msg_end(fields, k, end), end, attr_step(acc, fields[k]))
    }
}

/// The attribute that the fields `start..end` describe.
pub open spec fn attr_of(fields: Seq<DecodedField>, start: int, end: int) -> AttrView {
    attr_walk(fields, start, end, (Seq::empty(), None, None, None, Seq::empty(), Seq::empty()))
}

pub open spec fn tensor_view(t: TensorProto) -> TensorView {
    (t.dims@, t.data_type, t.float_data@, t.int64_data@, t.name@, match t.raw_data {
        Some(b) => Some(b@),
        None => None,
    })
}

/// The effect of one field of a `TensorProto` on the tensor read so far.
pub open spec fn tensor_step(acc: TensorView, f: DecodedField) -> TensorView {
    let n = f.name@;
    if n == seq!['d', 'i', 'm', 's'] {
        (acc.0 + ints_of(f.value), acc.1, acc.2, acc.3, acc.4, acc.5)
    } else if n == seq!['d', 'a', 't', 'a', '_', 't', 'y', 'p', 'e'] {
        (acc.0, int_spec(f.value), acc.2, acc.3, acc.4, acc.5)
    } else if n == seq!['f', 'l', 'o', 'a', 't', '_', 'd', 'a', 't', 'a'] {
        (acc.0, acc.1, acc.2 + words_of(f.value), acc.3, acc.4, acc.5)
    } else if n == seq!['i', 'n', 't', '6', '4', '_', 'd', 'a', 't', 'a'] {
        (acc.0, acc.1, acc.2, acc.3 + ints_of(f.value), acc.4, acc.5)
    } else if n == seq!['n', 'a', 'm', 'e'] {
        (acc.0, acc.1, acc.2, acc.3, text_spec(f.value), acc.5)
    } else if n == seq!['r', 'a', 'w', '_', 'd', 'a', 't', 'a'] {
        (acc.0, acc.1, acc.2, acc.3, acc.4, Some(bytes_spec(f.value)))
    } else {
        acc
    }
}

pub open spec fn tensor_walk(fields: Seq<DecodedField>, k: int, end: int, acc: TensorView) -> TensorView
    decreases end - k,
{
    if k >= end || msg_end(fields, k, end) <= k || msg_end(fields, k, end) > end {
        acc
    } else {
        tensor_walk(fields, msg_end(fields, k, end), end, tensor_step(acc, fields[k]))
    }
}

/// The tensor that the fields `start..end` describe.
pub open spec fn tensor_of(fields: Seq<DecodedField>, start: int, end: int) -> TensorView {
    tensor_walk(fields, start, end, (Seq::empty(), 0, Seq::empty(), Seq::empty(), Seq::empty(), None))
}

pub open spec fn node_view(n: NodeProto) -> NodeView {
    (n.input@.map_values(|s: String| s@), n.output@.map_values(|s: String| s@), n.name@, n.op_type@, n.attribute@.map_values(|a: AttributeProto| attr_view(a)))
}

/// The effect of field `k` of a `NodeProto` (whose nested fields end at
/// `end`) on the node read so far.
pub open spec fn node_step(acc: NodeView, fields: Seq<DecodedField>, k: int, end: int) -> NodeView {
    let f = fields[k];
    let n = f.name@;
    if n == seq!['i', 'n', 'p', 'u', 't'] {
        (acc.0.push(text_spec(f.value)), acc.1, acc.2, acc.3, acc.4)
    } else if n == seq!['o', 'u', 't', 'p', 'u', 't'] {
        (acc.0, acc.1.push(text_spec(f.value)), acc.2, acc.3, acc.4)
    } else if n == seq!['n', 'a', 'm', 'e'] {
        (acc.0, acc.1, text_spec(f.value), acc.3, acc.4)
    } else if n == seq!['o', 'p', '_', 't', 'y', 'p', 'e'] {
        (acc.0, acc.1, acc.2, text_spec(f.value), acc.4)
    } else if n == seq!['a', 't', 't', 'r', 'i', 'b', 'u', 't', 'e'] {
        (acc.0, acc.1, acc.2, acc.3, acc.4.push(attr_of(fields, k + 1, msg_end(fields, k, end))))
    } else {
        acc
    }
}

/// The node read from the fields `k..end` (one level: nested fields are
/// passed over), starting from `acc`.
pub open spec fn node_walk(
    fields: Seq<DecodedField>,
    k: int,
    end: int,
    acc: NodeView,
) -> NodeView
    decreases end - k,
{
    if k >= end || msg_end(fields, k, end) <= k || msg_end(fields, k, end) > end {
        acc
    } else {
        node_walk(fields, msg_end(fields, k, end), end, node_step(acc, fields, k, end))
    }
}

/// The view of a graph.
pub open spec fn graph_view(g: GraphProto) -> GraphView {
    (
        g.node@.map_values(|n: NodeProto| node_view(n)),
        g.name@,
        g.initializer@.map_values(|t: TensorProto| tensor_view(t)),
        g.input@.map_values(|v: ValueInfoProto| (v.name@, v.dims@)),
        g.output@.map_values(|v: ValueInfoProto| (v.name@, v.dims@)),
    )
}

/// The effect of field `k` of a `GraphProto` (whose nested fields end at
/// `end`) on the graph read so far.
pub open spec fn graph_step(
    acc: GraphView,
    fields: Seq<DecodedField>,
    k: int,
    end: int,
) -> GraphView {
    let n = fields[k].name@;
    if n == seq!['n', 'o', 'd', 'e'] {
        (acc.0.push(node_of(fields, k + 1, msg_end(fields, k, end))), acc.1, acc.2, acc.3, acc.4)
    } else if n == seq!['n', 'a', 'm', 'e'] {
        (acc.0, text_spec(fields[k].value), acc.2, acc.3, acc.4)
    } else if n == seq!['i', 'n', 'i', 't', 'i', 'a', 'l', 'i', 'z', 'e', 'r'] {
        (acc.0, acc.1, acc.2.push(tensor_of(fields, k + 1, msg_end(fields, k, end))), acc.3, acc.4)
    } else if n == seq!['i', 'n', 'p', 'u', 't'] {
        (acc.0, acc.1, acc.2, acc.3.push(value_info_of(fields, k + 1, msg_end(fields, k, end))), acc.4)
    } else if n == seq!['o', 'u', 't', 'p', 'u', 't'] {
        (acc.0, acc.1, acc.2, acc.3, acc.4.push(value_info_of(fields, k + 1, msg_end(fields, k, end))))
    } else {
        acc
    }
}

/// The graph read from the fields `k..end` (one level), starting from `acc`.
pub open spec fn graph_walk(
    fields: Seq<DecodedField>,
    k: int,
    end: int,
    acc: GraphView,
) -> GraphView
    decreases end - k,
{
    if k >= end || msg_end(fields, k, end) <= k || msg_end(fields, k, end) > end {
        acc
    } else {
        graph_walk(fields, msg_end(fields, k, end), end, graph_step(acc, fields, k, end))
    }
}

/// The graph that the fields `start..end` describe.
pub open spec fn graph_of(fields: Seq<DecodedField>, start: int, end: int) -> GraphView {
    graph_walk(fields, start, end, (Seq::empty(), Seq::empty(), Seq::empty(), Seq::empty(), Seq::empty()))
}

/// The integer of a varint or enum field (zero for other fields).
pub open spec fn int_spec(v: FieldValue) -> i64 {
    match v {
        FieldValue::Varint(x) => x as i64,
        FieldValue::EnumConst(x, _) => x as i64,
        _ => 0,
    }
}

/// The effect of field `k` of a `ModelProto` on the model read so far:
/// `(ir_version, producer_name, graph)`.
pub open spec fn model_step(
    acc: (i64, Seq<char>, GraphView),
    fields: Seq<DecodedField>,
    k: int,
    end: int,
) -> (i64, Seq<char>, GraphView) {
    let n = fields[k].name@;
    if n == seq!['i', 'r', '_', 'v', 'e', 'r', 's', 'i', 'o', 'n'] {
        (int_spec(fields[k].value), acc.1, acc.2)
    } else if n == seq!['p', 'r', 'o', 'd', 'u', 'c', 'e', 'r', '_', 'n', 'a', 'm', 'e'] {
        (acc.0, text_spec(fields[k].value), acc.2)
    } else if n == seq!['g', 'r', 'a', 'p', 'h'] {
        (acc.0, acc.1, graph_of(fields, k + 1, msg_end(fields, k, end)))
    } else {
        acc
    }
}

/// The model read from the fields `k..end` (one level), starting from `acc`.
pub open spec fn model_walk(
    fields: Seq<DecodedField>,
    k: int,
    end: int,
    acc: (i64, Seq<char>, GraphView),
) -> (i64, Seq<char>, GraphView)
    decreases end - k,
{
    if k >= end || msg_end(fields, k, end) <= k || msg_end(fields, k, end) > end {
        acc
    } else {
        model_walk(fields, msg_end(fields, k, end), end, model_step(acc, fields, k, end))
    }
}

/// The view of an empty model.
pub open spec fn empty_model_view() -> (i64, Seq<char>, GraphView) {
    (0, Seq::empty(), (Seq::empty(), Seq::empty(), Seq::empty(), Seq::empty(), Seq::empty()))
}

/// The model as the builder sees it.
pub open spec fn model_view(m: ModelProto) -> (i64, Seq<char>, GraphView) {
    (m.ir_version, m.producer_name@, graph_view(m.graph))
}

/// The effect of one field of a `ValueInfoProto` (whose own fields are at
/// depth `base`) on the name and dims read so far: the name is its own
/// `name` field, the dims every `dim_value` of its type, in order.
pub open spec fn value_info_step(acc: (Seq<char>, Seq<i64>), f: DecodedField, base: usize) -> (Seq<char>, Seq<i64>) {
    if f.depth == base && f.name@ == seq!['n', 'a', 'm', 'e'] {
        (text_spec(f.value), acc.1)
    } else if f.name@ == seq!['d', 'i', 'm', '_', 'v', 'a', 'l', 'u', 'e'] {
        (acc.0, acc.1.push(int_spec(f.value)))
    } else {
        acc
    }
}

pub open spec fn value_info_walk(fields: Seq<DecodedField>, k: int, end: int, base: usize, acc: (Seq<char>, Seq<i64>)) -> (Seq<char>, Seq<i64>)
    decreases end - k,
{
    if k >= end {
        acc
    } else {
        value_info_walk(fields, k + 1, end, base, value_info_step(acc, fields[k], base))
    }
}

/// The name and dims that the fields `start..end` give a graph input or output.
pub open spec fn value_info_of(fields: Seq<DecodedField>, start: int, end: int) -> (Seq<char>, Seq<i64>) {
    value_info_walk(fields, start, end, if start < end { fields[start].depth } else { 0 }, (Seq::empty(), Seq::empty()))
}

/// The node that the fields `start..end` describe.
pub open spec fn node_of(fields: Seq<DecodedField>, start: int, end: int) -> NodeView {
    node_walk(fields, start, end, (Seq::empty(), Seq::empty(), Seq::empty(), Seq::empty(), Seq::empty()))
}

/// The values of the run of varints that starts at `p`, up to the end or
/// to the first place where no varint starts.
pub open spec fn packed_varints(b: Seq<u8>, p: int) -> Seq<u64>
    decreases b.len() - p,
{
    if p < 0 || p >= b.len() || !has_varint_at(b, p) || varint_at(b, p).1 <= p {
        Seq::empty()
    } else {
        seq![varint_at(b, p).0 as u64] + packed_varints(b, varint_at(b, p).1)
    }
}

/// The integers that a field carries: its varint, or a packed run of them.
pub open spec fn ints_of(v: FieldValue) -> Seq<i64> {
    match v {
        FieldValue::Varint(x) => seq![x as i64],
        FieldValue::Bytes(b) => packed_varints(b@, 0).map_values(|x: u64| x as i64),
        _ => Seq::empty(),
    }
}

/// The 32-bit words that a field carries: its fixed32 value, or the
/// little-endian words of a packed run (a trailing partial word dropped).
pub open spec fn words_of(v: FieldValue) -> Seq<u32> {
    match v {
        FieldValue::Fixed32(x) => seq![x],
        FieldValue::Bytes(b) => Seq::new(b@.len() / 4, |k: int| crate::wire::le32(b@, 4 * k) as u32),
        _ => Seq::empty(),
    }
}

/// Appends the integers of a varint field, or of a packed run of varints
/// (up to the first byte that does not start a varint).
fn push_ints(out: &mut Vec<i64>, v: &FieldValue)
    ensures
        final(out)@ == old(out)@ + ints_of(*v),
{
    match v {
        FieldValue::Varint(x) => {
            out.push(*x as i64);
            assert(out@ =~= old(out)@ + ints_of(*v));
        },
        FieldValue::Bytes(b) => {
            let ghost start = out@;
            let ghost all = packed_varints(b@, 0).map_values(|x: u64| x as i64);
            let mut p: usize = 0;
            assert(out@ + packed_varints(b@, 0).map_values(|x: u64| x as i64) =~= start + all);
            while p < b.len()
                invariant
                    p <= b@.len(),
                    *v == FieldValue::Bytes(*b),
                    start == old(out)@,
                    all == packed_varints(b@, 0).map_values(|x: u64| x as i64),
                    out@ + packed_varints(b@, p as int).map_values(|x: u64| x as i64) == start + all,
                decreases b@.len() - p,
            {
                match concat_bytes(b, p) {
                    Ok((x, q)) => {
                        proof {
                            let (w, e) = varint_at(b@, p as int);
                            crate::wire::lemma_varint_prefix_unique(b@, p as int, q as int, e, x as nat, w);
                            let rest = packed_varints(b@, q as int);
                            assert(packed_varints(b@, p as int) == seq![x] + rest);
                            assert((seq![x] + rest).map_values(|y: u64| y as i64) =~= seq![x as i64] + rest.map_values(|y: u64| y as i64));
                        }
                        let ghost before = out@;
                        out.push(x as i64);
                        proof {
                            assert(out@ + packed_varints(b@, q as int).map_values(|y: u64| y as i64) =~= before + (seq![x as i64] + packed_varints(b@, q as int).map_values(|y: u64| y as i64)));
                        }
                        p = q;
                    },
                    Err(_) => {
                        proof {
                            assert(packed_varints(b@, p as int) =~= Seq::<u64>::empty());
                            assert(out@ =~= out@ + packed_varints(b@, p as int).map_values(|y: u64| y as i64));
                        }
                        return;
                    },
                }
            }
            proof {
                assert(packed_varints(b@, p as int) =~= Seq::<u64>::empty());
                assert(out@ =~= out@ + packed_varints(b@, p as int).map_values(|y: u64| y as i64));
            }
        },
        _ => {
            assert(out@ =~= old(out)@ + ints_of(*v));
        },
    }
}

/// Appends the bits of a fixed32 field, or the little-endian words of a
/// packed run of them (a trailing partial word is dropped).
fn push_words(out: &mut Vec<u32>, v: &FieldValue)
    ensures
        final(out)@ == old(out)@ + words_of(*v),
{
    match v {
        FieldValue::Fixed32(x) => {
            out.push(*x);
            assert(out@ =~= old(out)@ + words_of(*v));
        },
        FieldValue::Bytes(b) => {
            let ghost start = out@;
            let bl = b.len();
            let n = bl / 4;
            let mut k: usize = 0;
            while k < n
                invariant
                    n == b@.len() / 4,
                    bl == b@.len(),
                    start == old(out)@,
                    *v == FieldValue::Bytes(*b),
                    k <= n,
                    out@.len() == start.len() + k,
                    out@.subrange(0, start.len() as int) == start,
                    forall|j: int| 0 <= j < k ==> #[trigger] out@[start.len() + j] as nat == crate::wire::le32(b@, 4 * j),
                decreases n - k,
            {
                let ghost before = out@;
                out.push(read_u32_le(b, 4 * k));
                proof {
                    assert(out@.subrange(0, start.len() as int) =~= before.subrange(0, start.len() as int));
                    assert forall|j: int| 0 <= j < k + 1 implies #[trigger] out@[start.len() + j] as nat == crate::wire::le32(b@, 4 * j) by {
                        if j < k {
                            assert(out@[start.len() + j] == before[start.len() + j]);
                        }
                    }
                }
                k += 1;
            }
            proof {
                assert forall|i: int| start.len() <= i < out@.len() implies #[trigger] out@[i] == crate::wire::le32(b@, 4 * (i - start.len())) as u32 by {
                    let j = i - start.len();
                    assert(out@[start.len() + j] as nat == crate::wire::le32(b@, 4 * j));
                }
                assert forall|j: int| 0 <= j < start.len() implies #[trigger] out@[j] == start[j] by {
                    assert(out@.subrange(0, start.len() as int)[j] == out@[j]);
                }
                assert(out@ =~= old(out)@ + words_of(*v));
            }
        },
        _ => {
            assert(out@ =~= old(out)@ + words_of(*v));
        },
    }
}

fn bytes_of(v: &FieldValue) -> (r: Vec<u8>)
    ensures
        r@ == bytes_spec(*v),
{
    match v {
        FieldValue::Bytes(b) => b.clone(),
        _ => Vec::new(),
    }
}

fn text_value(v: &FieldValue) -> (r: String)
    ensures
        r@ == text_spec(*v),
{
    text_of(&bytes_of(v))
}

fn int_value(v: &FieldValue) -> (r: i64)
    ensures
        r == int_spec(*v),
{
    match v {
        FieldValue::Varint(x) => *x as i64,
        FieldValue::EnumConst(x, _) => *x as i64,
        _ => 0,
    }
}

/// Reads an `AttributeProto` from the fields in `start..end`.
fn read_attribute(fields: &Vec<DecodedField>, start: usize, end: usize) -> (r: AttributeProto)
    requires
        start <= end <= fields@.len(),
    ensures
        attr_view(r) == attr_of(fields@, start as int, end as int),
{
    let mut a = AttributeProto { name: String::new(), f: None, i: None, s: None, ints: Vec::new(), floats: Vec::new() };
    let mut k = start;
    proof {
        assert(attr_view(a) =~~= (Seq::<char>::empty(), None::<u32>, None::<i64>, None::<Seq<u8>>, Seq::<i64>::empty(), Seq::<u32>::empty()));
    }
    while k < end
        invariant
            start <= k <= end,
            end <= fields@.len(),
            attr_walk(fields@, k as int, end as int, attr_view(a)) == attr_of(fields@, start as int, end as int),
        decreases end - k,
    {
        let fd = &fields[k];
        let next = message_end(fields, k, end);
        let ghost before = attr_view(a);
        if name_is(&fd.name, vec!['n', 'a', 'm', 'e']) {
            a.name = text_value(&fd.value);
        } else if name_is_char(&fd.name, 'f') {
            match &fd.value {
                FieldValue::Fixed32(x) => {
                    a.f = Some(*x);
                },
                _ => {},
            }
        } else if name_is_char(&fd.name, 'i') {
            a.i = Some(int_value(&fd.value));
        } else if name_is_char(&fd.name, 's') {
            a.s = Some(bytes_of(&fd.value));
        } else if name_is(&fd.name, vec!['i', 'n', 't', 's']) {
            push_ints(&mut a.ints, &fd.value);
        } else if name_is(&fd.name, vec!['f', 'l', 'o', 'a', 't', 's']) {
            push_words(&mut a.floats, &fd.value);
        }
        proof {
            assert(attr_view(a) =~~= attr_step(before, fields@[k as int]));
        }
        k = next;
    }
    a
}

/// Reads a `NodeProto` from the fields in `start..end`.
fn read_node(fields: &Vec<DecodedField>, start: usize, end: usize) -> (r: NodeProto)
    requires
        start <= end <= fields@.len(),
    ensures
        node_view(r) == node_of(fields@, start as int, end as int),
{
    let mut n = NodeProto { input: Vec::new(), output: Vec::new(), name: String::new(), op_type: String::new(), attribute: Vec::new() };
    let mut k = start;
    proof {
        assert(node_view(n) =~~= (Seq::<Seq<char>>::empty(), Seq::<Seq<char>>::empty(), Seq::<char>::empty(), Seq::<char>::empty(), Seq::<AttrView>::empty()));
    }
    while k < end
        invariant
            start <= k <= end,
            end <= fields@.len(),
            node_walk(fields@, k as int, end as int, node_view(n)) == node_of(fields@, start as int, end as int),
        decreases end - k,
    {
        let fd = &fields[k];
        let next = message_end(fields, k, end);
        let ghost before = node_view(n);
        if name_is(&fd.name, vec!['i', 'n', 'p', 'u', 't']) {
            n.input.push(text_value(&fd.value));
        } else if name_is(&fd.name, vec!['o', 'u', 't', 'p', 'u', 't']) {
            n.output.push(text_value(&fd.value));
        } else if name_is(&fd.name, vec!['n', 'a', 'm', 'e']) {
            n.name = text_value(&fd.value);
        } else if name_is(&fd.name, vec!['o', 'p', '_', 't', 'y', 'p', 'e']) {
            n.op_type = text_value(&fd.value);
        } else if name_is(&fd.name, vec!['a', 't', 't', 'r', 'i', 'b', 'u', 't', 'e']) {
            n.attribute.push(read_attribute(fields, k + 1, next));
        }
        proof {
            assert(node_view(n) =~~= node_step(before, fields@, k as int, end as int));
        }
        k = next;
    }
    n
}

/// Reads a `TensorProto` from the fields in `start..end`.
fn read_tensor(fields: &Vec<DecodedField>, start: usize, end: usize) -> (r: TensorProto)
    requires
        start <= end <= fields@.len(),
    ensures
        tensor_view(r) == tensor_of(fields@, start as int, end as int),
{
    let mut t = TensorProto { dims: Vec::new(), data_type: 0, float_data: Vec::new(), int64_data: Vec::new(), name: String::new(), raw_data: None };
    let mut k = start;
    proof {
        assert(tensor_view(t) =~~= (Seq::<i64>::empty(), 0i64, Seq::<u32>::empty(), Seq::<i64>::empty(), Seq::<char>::empty(), None::<Seq<u8>>));
    }
    while k < end
        invariant
            start <= k <= end,
            end <= fields@.len(),
            tensor_walk(fields@, k as int, end as int, tensor_view(t)) == tensor_of(fields@, start as int, end as int),
        decreases end - k,
    {
        let fd = &fields[k];
        let next = message_end(fields, k, end);
        let ghost before = tensor_view(t);
        if name_is(&fd.name, vec!['d', 'i', 'm', 's']) {
            push_ints(&mut t.dims, &fd.value);
        } else if name_is(&fd.name, vec!['d', 'a', 't', 'a', '_', 't', 'y', 'p', 'e']) {
            t.data_type = int_value(&fd.value);
        } else if name_is(&fd.name, vec!['f', 'l', 'o', 'a', 't', '_', 'd', 'a', 't', 'a']) {
            push_words(&mut t.float_data, &fd.value);
        } else if name_is(&fd.name, vec!['i', 'n', 't', '6', '4', '_', 'd', 'a', 't', 'a']) {
            push_ints(&mut t.int64_data, &fd.value);
        } else if name_is(&fd.name, vec!['n', 'a', 'm', 'e']) {
            t.name = text_value(&fd.value);
        } else if name_is(&fd.name, vec!['r', 'a', 'w', '_', 'd', 'a', 't', 'a']) {
            t.raw_data = Some(bytes_of(&fd.value));
        }
        proof {
            assert(tensor_view(t) =~~= tensor_step(before, fields@[k as int]));
        }
        k = next;
    }
    t
}

/// Reads a `ValueInfoProto` from the fields in `start..end`: its name and
/// every `dim_value` of its type, in order.
fn read_value_info(fields: &Vec<DecodedField>, start: usize, end: usize) -> (r: ValueInfoProto)
    requires
        start <= end <= fields@.len(),
    ensures
        (r.name@, r.dims@) == value_info_of(fields@, start as int, end as int),
{
    let mut v = ValueInfoProto { name: String::new(), dims: Vec::new() };
    let base = if start < end {
        fields[start].depth
    } else {
        0
    };
    let mut k = start;
    proof {
        assert(v.name@ =~= Seq::<char>::empty());
        assert(v.dims@ =~= Seq::<i64>::empty());
    }
    while k < end
        invariant
            start <= k <= end,
            end <= fields@.len(),
            start < end ==> base == fields@[start as int].depth,
            value_info_walk(fields@, k as int, end as int, base, (v.name@, v.dims@)) == value_info_of(fields@, start as int, end as int),
        decreases end - k,
    {
        let fd = &fields[k];
        if fd.depth == base && name_is(&fd.name, vec!['n', 'a', 'm', 'e']) {
            v.name = text_value(&fd.value);
        } else if name_is(&fd.name, vec!['d', 'i', 'm', '_', 'v', 'a', 'l', 'u', 'e']) {
            v.dims.push(int_value(&fd.value));
        }
        k += 1;
    }
    v
}

/// Reads a `GraphProto` from the fields in `start..end`.
fn read_graph(fields: &Vec<DecodedField>, start: usize, end: usize) -> (r: GraphProto)
    requires
        start <= end <= fields@.len(),
    ensures
        graph_view(r) == graph_of(fields@, start as int, end as int),
{
    let mut g = GraphProto { node: Vec::new(), name: String::new(), initializer: Vec::new(), input: Vec::new(), output: Vec::new() };
    let mut k = start;
    proof {
        assert(graph_view(g).0 =~= Seq::<NodeView>::empty());
        assert(graph_view(g).2 =~= Seq::<TensorView>::empty());
        assert(graph_view(g).3 =~= Seq::<(Seq<char>, Seq<i64>)>::empty());
        assert(graph_view(g).4 =~= Seq::<(Seq<char>, Seq<i64>)>::empty());
    }
    while k < end
        invariant
            start <= k <= end,
            end <= fields@.len(),
            graph_walk(fields@, k as int, end as int, graph_view(g)) == graph_of(fields@, start as int, end as int),
        decreases end - k,
    {
        let fd = &fields[k];
        let next = message_end(fields, k, end);
        let ghost before = graph_view(g);
        if name_is(&fd.name, vec!['n', 'o', 'd', 'e']) {
            g.node.push(read_node(fields, k + 1, next));
        } else if name_is(&fd.name, vec!['n', 'a', 'm', 'e']) {
            g.name = text_value(&fd.value);
        } else if name_is(&fd.name, vec!['i', 'n', 'i', 't', 'i', 'a', 'l', 'i', 'z', 'e', 'r']) {
            g.initializer.push(read_tensor(fields, k + 1, next));
        } else if name_is(&fd.name, vec!['i', 'n', 'p', 'u', 't']) {
            g.input.push(read_value_info(fields, k + 1, next));
        } else if name_is(&fd.name, vec!['o', 'u', 't', 'p', 'u', 't']) {
            g.output.push(read_value_info(fields, k + 1, next));
        }
        proof {
            assert(graph_view(g) =~~= graph_step(before, fields@, k as int, end as int));
        }
        k = next;
    }
    g
}

impl ModelProto {
    /// Builds the model tree from the fields that the decoder read for a
    /// `ModelProto`: the version, the producer and the graph with its
    /// nodes, initializers, inputs and outputs. Fields that inference does
    /// not read are passed over.
    pub fn from_fields(fields: &Vec<DecodedField>) -> (r: Self)
        ensures
            model_view(r) == model_walk(fields@, 0, fields@.len() as int, empty_model_view()),
    {
        let mut m = ModelProto::new();
        let end = fields.len();
        let mut k: usize = 0;
        proof {
            assert(m.graph.node@.map_values(|n: NodeProto| node_view(n)) =~= Seq::<NodeView>::empty());
            assert(m.producer_name@ =~= Seq::<char>::empty());
            assert(m.graph.name@ =~= Seq::<char>::empty());
            assert(m.graph.initializer@.map_values(|t: TensorProto| tensor_view(t)) =~= Seq::<TensorView>::empty());
            assert(m.graph.input@.map_values(|v: ValueInfoProto| (v.name@, v.dims@)) =~= Seq::<(Seq<char>, Seq<i64>)>::empty());
            assert(m.graph.output@.map_values(|v: ValueInfoProto| (v.name@, v.dims@)) =~= Seq::<(Seq<char>, Seq<i64>)>::empty());
            assert(model_view(m) =~~= empty_model_view());
        }
        while k < end
            invariant
                k <= end,
                end == fields@.len(),
                model_walk(fields@, k as int, end as int, model_view(m)) == model_walk(fields@, 0, end as int, empty_model_view()),
            decreases end - k,
        {
            let fd = &fields[k];
            let next = message_end(fields, k, end);
            let ghost before = model_view(m);
            if name_is(&fd.name, vec!['i', 'r', '_', 'v', 'e', 'r', 's', 'i', 'o', 'n']) {
                m.ir_version = int_value(&fd.value);
            } else if name_is(&fd.name, vec!['p', 'r', 'o', 'd', 'u', 'c', 'e', 'r', '_', 'n', 'a', 'm', 'e']) {
                m.producer_name = text_value(&fd.value);
            } else if name_is(&fd.name, vec!['g', 'r', 'a', 'p', 'h']) {
                m.graph = read_graph(fields, k + 1, next);
            }
            proof {
                assert(model_view(m) =~~= model_step(before, fields@, k as int, end as int));
            }
            k = next;
        }
        m
    }
}

} // verus!

verus! {

impl TensorProto {
    /// Builds a tensor from the fields that the decoder read for a
    /// top-level `TensorProto` message.
    pub fn from_fields(fields: &Vec<DecodedField>) -> (r: Self)
        ensures
            tensor_view(r) == tensor_of(fields@, 0, fields@.len() as int),
    {
        read_tensor(fields, 0, fields.len())
    }
}

} // verus!
