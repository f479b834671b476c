//! Graph-level decisions of inference: where a node's inputs come from,
//! which nodes can run together, and the attributes of each operator.
use vstd::prelude::*;
use crate::convolution_op::Padding;
use crate::onnx_structure::{name_is, AttributeProto, NodeProto, TensorProto, ValueInfoProto};

verus! {

/// Why inference cannot go on.
#[derive(Debug, Clone, Copy, PartialEq, Eq, Structural)]
pub enum ExecError {
    /// A node input that no initializer, graph input or node produces.
    MissingInput,
    /// An operator outside the kernel catalog.
    UnknownOp,
    /// A required attribute is absent.
    AttrMissing,
    /// An attribute that the operator does not know.
    AttrUnknown,
    /// A kernel's shape precondition does not hold.
    KernelFailure,
}

/// Some element of `v` reads `n`.
pub open spec fn name_in(v: Seq<String>, n: Seq<char>) -> bool {
    exists|k: int| 0 <= k < v.len() && #[trigger] v[k]@ == n
}

/// Whether `name` is among `names`.
pub fn contains_name(names: &Vec<String>, name: &String) -> (r: bool)
    ensures
        r == name_in(names@, name@),
{
    let mut k: usize = 0;
    while k < names.len()
        invariant
            k <= names@.len(),
            forall|j: int| 0 <= j < k ==> #[trigger] names@[j]@ != name@,
        decreases names@.len() - k,
    {
        if names[k] == *name {
            return true;
        }
        k += 1;
    }
    false
}

/// Whether some initializer is named `input_name`.
pub fn already_into_initializer(model_initializers: &Vec<TensorProto>, input_name: &String) -> (r: bool)
    ensures
        r == exists|k: int|
            0 <= k < model_initializers@.len() && #[trigger] model_initializers@[k].name@ == input_name@,
{
    let mut k: usize = 0;
    while k < model_initializers.len()
        invariant
            k <= model_initializers@.len(),
            forall|j: int| 0 <= j < k ==> #[trigger] model_initializers@[j].name@ != input_name@,
        decreases model_initializers@.len() - k,
    {
        if model_initializers[k].name == *input_name {
            return true;
        }
        k += 1;
    }
    false
}

/// The declared sizes of the first graph input named `input_name`, or
/// nothing when there is no such input.
pub fn search_input_data_shape(model_inputs: &Vec<ValueInfoProto>, input_name: &String) -> (r: Vec<i64>)
    ensures
        (exists|k: int| 0 <= k < model_inputs@.len() && #[trigger] model_inputs@[k].name@ == input_name@)
            ==> exists|k: int|
            0 <= k < model_inputs@.len() && #[trigger] model_inputs@[k].name@ == input_name@ && r@
                == model_inputs@[k].dims@ && forall|j: int| 0 <= j < k ==> model_inputs@[j].name@ != input_name@,
        (forall|k: int| 0 <= k < model_inputs@.len() ==> #[trigger] model_inputs@[k].name@ != input_name@)
            ==> r@.len() == 0,
{
    let mut k: usize = 0;
    while k < model_inputs.len()
        invariant
            k <= model_inputs@.len(),
            forall|j: int| 0 <= j < k ==> #[trigger] model_inputs@[j].name@ != input_name@,
        decreases model_inputs@.len() - k,
    {
        if model_inputs[k].name == *input_name {
            let r = model_inputs[k].dims.clone();
            proof {
                assert(r@ == model_inputs@[k as int].dims@);
            }
            return r;
        }
        k += 1;
    }
    Vec::new()
}

/// Every input of `node` is in `known`.
pub open spec fn inputs_known(node: NodeProto, known: Seq<String>) -> bool {
    forall|j: int| 0 <= j < node.input@.len() ==> name_in(known, #[trigger] node.input@[j]@)
}

fn all_inputs_known(node: &NodeProto, known: &Vec<String>) -> (r: bool)
    ensures
        r == inputs_known(*node, known@),
{
    let mut j: usize = 0;
    while j < node.input.len()
        invariant
            j <= node.input@.len(),
            forall|i: int| 0 <= i < j ==> name_in(known@, #[trigger] node.input@[i]@),
        decreases node.input@.len() - j,
    {
        if !contains_name(known, &node.input[j]) {
            return false;
        }
        j += 1;
    }
    true
}

/// Name `x` is among `previous_outputs` or names an initializer.
pub open spec fn input_ready(x: Seq<char>, previous_outputs: Seq<String>, initializers: Seq<TensorProto>) -> bool {
    name_in(previous_outputs, x) || exists|k: int| 0 <= k < initializers.len() && #[trigger] initializers[k].name@ == x
}

/// Every input of `node` is ready.
pub open spec fn node_ready(node: NodeProto, previous_outputs: Seq<String>, initializers: Seq<TensorProto>) -> bool {
    forall|j: int| 0 <= j < node.input@.len() ==> input_ready(#[trigger] node.input@[j]@, previous_outputs, initializers)
}

fn node_ready_exec(node: &NodeProto, previous_outputs: &Vec<String>, initializers: &Vec<TensorProto>) -> (r: bool)
    ensures
        r == node_ready(*node, previous_outputs@, initializers@),
{
    let mut j: usize = 0;
    while j < node.input.len()
        invariant
            j <= node.input@.len(),
            forall|i: int| 0 <= i < j ==> input_ready(#[trigger] node.input@[i]@, previous_outputs@, initializers@),
        decreases node.input@.len() - j,
    {
        if !contains_name(previous_outputs, &node.input[j]) && !already_into_initializer(initializers, &node.input[j]) {
            return false;
        }
        j += 1;
    }
    true
}

/// The positions, in order, of the nodes whose inputs are all in
/// `previous_outputs` or among the initializers, when there are at least
/// two of them (they can start at once, side by side); `None` when fewer
/// than two nodes are ready.
pub fn search_node_without_previous_dependencies(
    nodes: &Vec<NodeProto>,
    previous_outputs: &Vec<String>,
    initializers: &Vec<TensorProto>,
) -> (r: Option<Vec<usize>>)
    ensures
        r is None <==> !exists|a: int, b: int|
            0 <= a < b < nodes@.len() && node_ready(#[trigger] nodes@[a], previous_outputs@, initializers@)
                && node_ready(#[trigger] nodes@[b], previous_outputs@, initializers@),
        r matches Some(p) ==> p@.len() >= 2,
        r matches Some(p) ==> forall|k: int| 0 <= k < p@.len() ==> #[trigger] p@[k] < nodes@.len()
            && node_ready(nodes@[p@[k] as int], previous_outputs@, initializers@),
        r matches Some(p) ==> forall|a: int, b: int| 0 <= a < b < p@.len() ==> p@[a] < p@[b],
        r matches Some(p) ==> forall|i: int|
            0 <= i < nodes@.len() && node_ready(#[trigger] nodes@[i], previous_outputs@, initializers@) ==> p@.contains(i as usize),
{
    let mut p: Vec<usize> = Vec::new();
    let mut i: usize = 0;
    while i < nodes.len()
        invariant
            i <= nodes@.len(),
            forall|k: int| 0 <= k < p@.len() ==> #[trigger] p@[k] < i && node_ready(nodes@[p@[k] as int], previous_outputs@, initializers@),
            forall|a: int, b: int| 0 <= a < b < p@.len() ==> p@[a] < p@[b],
            forall|m: int| 0 <= m < i && node_ready(#[trigger] nodes@[m], previous_outputs@, initializers@) ==> p@.contains(m as usize),
        decreases nodes@.len() - i,
    {
        if node_ready_exec(&nodes[i], previous_outputs, initializers) {
            let ghost before = p@;
            p.push(i);
            proof {
                assert forall|m: int| 0 <= m < i + 1 && node_ready(#[trigger] nodes@[m], previous_outputs@, initializers@) implies p@.contains(m as usize) by {
                    if m < i {
                        let k = choose|k: int| 0 <= k < before.len() && before[k] == m as usize;
                        assert(p@[k] == m as usize);
                    } else {
                        assert(p@[before.len() as int] == i);
                    }
                }
            }
        }
        i += 1;
    }
    proof {
        if exists|a: int, b: int|
            0 <= a < b < nodes@.len() && node_ready(#[trigger] nodes@[a], previous_outputs@, initializers@)
                && node_ready(#[trigger] nodes@[b], previous_outputs@, initializers@) {
            let (a, b) = choose|a: int, b: int|
                0 <= a < b < nodes@.len() && node_ready(#[trigger] nodes@[a], previous_outputs@, initializers@)
                    && node_ready(#[trigger] nodes@[b], previous_outputs@, initializers@);
            assert(p@.contains(a as usize));
            assert(p@.contains(b as usize));
            let ka = choose|k: int| 0 <= k < p@.len() && p@[k] == a as usize;
            let kb = choose|k: int| 0 <= k < p@.len() && p@[k] == b as usize;
            assert(ka != kb);
            assert(p@.len() >= 2);
        }
        if p@.len() >= 2 {
            assert(node_ready(nodes@[p@[0] as int], previous_outputs@, initializers@));
            assert(node_ready(nodes@[p@[1] as int], previous_outputs@, initializers@));
            assert(p@[0] < p@[1]);
        }
    }
    if p.len() < 2 {
        None
    } else {
        Some(p)
    }
}

/// The number of unscheduled nodes.
pub open spec fn count_unplaced(level: Seq<Option<usize>>) -> nat
    decreases level.len(),
{
    if level.len() == 0 {
        0
    } else {
        count_unplaced(level.drop_last()) + if level.last() is None {
            1nat
        } else {
            0nat
        }
    }
}

proof fn lemma_place_one(level: Seq<Option<usize>>, i: int, w: usize)
    requires
        0 <= i < level.len(),
    ensures
        level[i] is None ==> count_unplaced(level.update(i, Some(w))) + 1 == count_unplaced(level),
        level[i] is Some ==> count_unplaced(level.update(i, Some(w))) == count_unplaced(level),
    decreases level.len(),
{
    let u = level.update(i, Some(w));
    if i == level.len() - 1 {
        assert(u.drop_last() =~= level.drop_last());
    } else {
        assert(u.drop_last() =~= level.drop_last().update(i, Some(w)));
        lemma_place_one(level.drop_last(), i, w);
    }
}

/// Every node placed at its level.
pub open spec fn placed(lv: Seq<usize>) -> Seq<Option<usize>> {
    lv.map_values(|l: usize| Some(l))
}

/// A level below `w` is assigned.
pub open spec fn level_lt(l: Option<usize>, w: int) -> bool {
    l is Some && (l->Some_0 as int) < w
}

/// Node `m` is placed at a level below `w` and produces `n`.
pub open spec fn produced_below(nodes: Seq<NodeProto>, level: Seq<Option<usize>>, w: int, n: Seq<char>) -> bool {
    exists|m: int|
        0 <= m < nodes.len() && level_lt(#[trigger] level[m], w) && name_in(nodes[m].output@, n)
}

/// Every input of node `i` is available from the start or produced by a
/// node at a lower level than `i`'s.
pub open spec fn inputs_before(nodes: Seq<NodeProto>, available: Seq<String>, level: Seq<Option<usize>>, i: int) -> bool {
    level[i] matches Some(li) && forall|j: int|
        0 <= j < nodes[i].input@.len() ==> name_in(available, #[trigger] nodes[i].input@[j]@)
            || produced_below(nodes, level, li as int, nodes[i].input@[j]@)
}

/// `lv` gives every node a level, and each node's inputs are available
/// from the start or produced at lower levels.
pub open spec fn valid_levels(nodes: Seq<NodeProto>, available: Seq<String>, lv: Seq<usize>) -> bool {
    lv.len() == nodes.len() && forall|i: int| 0 <= i < nodes.len() ==> #[trigger] inputs_before(nodes, available, placed(lv), i)
}

proof fn lemma_unplaced_exists(level: Seq<Option<usize>>) -> (k: int)
    requires
        count_unplaced(level) > 0,
    ensures
        0 <= k < level.len(),
        level[k] is None,
    decreases level.len(),
{
    if level.last() is None {
        level.len() - 1
    } else {
        let k = lemma_unplaced_exists(level.drop_last());
        k
    }
}

/// An unplaced node whose level in `lv` is least among the unplaced nodes.
proof fn lemma_least_unplaced(lv: Seq<usize>, level: Seq<Option<usize>>, v: nat) -> (i: int)
    requires
        lv.len() == level.len(),
        exists|k: int| 0 <= k < level.len() && #[trigger] level[k] is None && lv[k] <= v,
    ensures
        0 <= i < level.len(),
        level[i] is None,
        forall|j: int| 0 <= j < level.len() && #[trigger] level[j] is None ==> lv[i] <= lv[j],
    decreases v,
{
    if v > 0 && exists|k: int| 0 <= k < level.len() && #[trigger] level[k] is None && lv[k] <= (v - 1) as nat {
        lemma_least_unplaced(lv, level, (v - 1) as nat)
    } else {
        let k = choose|k: int| 0 <= k < level.len() && #[trigger] level[k] is None && lv[k] <= v;
        k
    }
}

/// Assigns each node a level such that a node's inputs are available from
/// the start or produced at lower levels; the nodes of one level can run
/// side by side, and running the levels in order runs every node exactly
/// once, after all its inputs exist. Levels are handed out in rounds: a
/// round places every node whose inputs are then known. Fails exactly when
/// no such assignment exists (some nodes can never run).
pub fn plan_levels(nodes: &Vec<NodeProto>, available: &Vec<String>) -> (r: Result<Vec<usize>, ExecError>)
    ensures
        r matches Ok(lv) ==> valid_levels(nodes@, available@, lv@),
        r matches Ok(lv) ==> forall|i: int| 0 <= i < lv@.len() ==> #[trigger] lv@[i] < nodes@.len(),
        r matches Ok(lv) ==> forall|i: int|
            0 <= i < nodes@.len() && #[trigger] inputs_known(nodes@[i], available@) ==> lv@[i] == 0,
        r is Err ==> r == Err::<Vec<usize>, ExecError>(ExecError::MissingInput),
        r is Err ==> forall|lv: Seq<usize>| !#[trigger] valid_levels(nodes@, available@, lv),
{
    let n = nodes.len();
    let mut level: Vec<Option<usize>> = Vec::new();
    let mut i: usize = 0;
    while i < n
        invariant
            n == nodes@.len(),
            i <= n,
            level@.len() == i,
            forall|k: int| 0 <= k < i ==> #[trigger] level@[k] is None,
        decreases n - i,
    {
        level.push(None);
        i += 1;
    }
    let mut known: Vec<String> = Vec::new();
    let mut a: usize = 0;
    while a < available.len()
        invariant
            a <= available@.len(),
            known@.len() == a,
            forall|k: int| 0 <= k < a ==> #[trigger] known@[k]@ == available@[k]@,
        decreases available@.len() - a,
    {
        known.push(available[a].clone());
        a += 1;
    }
    proof {
        assert forall|x: Seq<char>| name_in(known@, x) <==> name_in(available@, x) by {
            if name_in(known@, x) {
                let k = choose|k: int| 0 <= k < known@.len() && #[trigger] known@[k]@ == x;
                assert(available@[k]@ == x);
            }
            if name_in(available@, x) {
                let k = choose|k: int| 0 <= k < available@.len() && #[trigger] available@[k]@ == x;
                assert(known@[k]@ == x);
            }
        }
    }
    let mut wave: usize = 0;
    proof {
        lemma_count_bounds(level@);
    }
    loop
        invariant
            n == nodes@.len(),
            level@.len() == n,
            wave <= n,
            n - count_unplaced(level@) >= wave,
            count_unplaced(level@) <= n,
            forall|k: int| 0 <= k < n ==> (#[trigger] level@[k] matches Some(l) ==> l < wave),
            forall|x: Seq<char>| #[trigger] name_in(known@, x) <==> (name_in(available@, x) || produced_below(nodes@, level@, wave as int, x)),
            forall|k: int| 0 <= k < n && level@[k] is Some ==> #[trigger] inputs_before(nodes@, available@, level@, k),
            wave > 0 ==> forall|k: int| 0 <= k < n && #[trigger] inputs_known(nodes@[k], available@) ==> level@[k] == Some(0usize),
        decreases count_unplaced(level@),
    {
        // the nodes that can run now, judged before any of them runs
        let mut batch: Vec<usize> = Vec::new();
        let mut k: usize = 0;
        while k < n
            invariant
                n == nodes@.len(),
                level@.len() == n,
                k <= n,
                forall|b: int| 0 <= b < batch@.len() ==> #[trigger] batch@[b] < k && level@[batch@[b] as int] is None
                    && inputs_known(nodes@[batch@[b] as int], known@),
                forall|b1: int, b2: int| 0 <= b1 < b2 < batch@.len() ==> batch@[b1] < batch@[b2],
                forall|j: int|
                    0 <= j < k && #[trigger] level@[j] is None && inputs_known(nodes@[j], known@) ==> batch@.contains(j as usize),
            decreases n - k,
        {
            if level[k].is_none() && all_inputs_known(&nodes[k], &known) {
                let ghost before = batch@;
                batch.push(k);
                proof {
                    assert forall|j: int|
                        0 <= j < k + 1 && #[trigger] level@[j] is None && inputs_known(nodes@[j], known@) implies batch@.contains(j as usize) by {
                        if j < k {
                            let c = choose|c: int| 0 <= c < before.len() && before[c] == j as usize;
                            assert(batch@[c] == j as usize);
                        } else {
                            assert(batch@[before.len() as int] == k);
                        }
                    }
                }
            }
            k += 1;
        }
        if batch.len() == 0 {
            if count_unplaced_exec(&level) == 0 {
                proof {
                    if wave == 0 {
                        assert forall|j: int| 0 <= j < level@.len() implies #[trigger] level@[j] is None by {
                            if let Some(lj) = level@[j] {
                                assert(lj < wave);
                            }
                        }
                        lemma_count_bounds(level@);
                    }
                }
                let mut out: Vec<usize> = Vec::new();
                let mut k2: usize = 0;
                while k2 < n
                    invariant
                        k2 <= n,
                        level@.len() == n,
                        out@.len() == k2,
                        forall|j: int| 0 <= j < k2 ==> Some(#[trigger] out@[j]) == level@[j],
                        count_unplaced(level@) == 0,
                        n == nodes@.len(),
                        forall|j: int| 0 <= j < n ==> (#[trigger] level@[j] matches Some(l) ==> l < n),
                    decreases n - k2,
                {
                    proof {
                        lemma_none_counted(level@, k2 as int);
                    }
                    out.push(level[k2].unwrap());
                    k2 += 1;
                }
                proof {
                    assert(placed(out@) =~= level@);
                }
                return Ok(out);
            }
            proof {
                assert forall|lv: Seq<usize>| !#[trigger] valid_levels(nodes@, available@, lv) by {
                    if valid_levels(nodes@, available@, lv) {
                        let u = lemma_unplaced_exists(level@);
                        let i = lemma_least_unplaced(lv, level@, lv[u] as nat);
                        assert(inputs_before(nodes@, available@, placed(lv), i));
                        assert(placed(lv)[i] == Some(lv[i]));
                        assert forall|j: int| 0 <= j < nodes@[i].input@.len() implies name_in(known@, #[trigger] nodes@[i].input@[j]@) by {
                            let x = nodes@[i].input@[j]@;
                            if !name_in(available@, x) {
                                assert(produced_below(nodes@, placed(lv), lv[i] as int, x));
                                let m = choose|m: int| 0 <= m < nodes@.len() && level_lt(#[trigger] placed(lv)[m], lv[i] as int) && name_in(nodes@[m].output@, x);
                                assert(placed(lv)[m] == Some(lv[m]));
                                assert(level@[m] is Some);
                                assert(produced_below(nodes@, level@, wave as int, x));
                            }
                        }
                        assert(batch@.contains(i as usize));
                    }
                }
            }
            return Err(ExecError::MissingInput);
        }
        let ghost level_before = level@;
        let ghost known_before = known@;
        let mut b: usize = 0;
        while b < batch.len()
            invariant
                n == nodes@.len(),
                level@.len() == n,
                b <= batch@.len(),
                batch@.len() > 0,
                forall|c: int| 0 <= c < batch@.len() ==> #[trigger] batch@[c] < n && level_before[batch@[c] as int] is None
                    && inputs_known(nodes@[batch@[c] as int], known_before),
                forall|c1: int, c2: int| 0 <= c1 < c2 < batch@.len() ==> batch@[c1] < batch@[c2],
                forall|j: int| 0 <= j < n ==> #[trigger] level@[j] == (if exists|c: int| 0 <= c < b && batch@[c] == j {
                    Some(wave)
                } else {
                    level_before[j]
                }),
                b > 0 ==> count_unplaced(level@) < count_unplaced(level_before),
                b == 0 ==> level@ == level_before,
                count_unplaced(level@) <= count_unplaced(level_before),
                forall|x: Seq<char>| #[trigger] name_in(known@, x) <==> (name_in(known_before, x) || exists|c: int|
                    0 <= c < b && name_in(nodes@[batch@[c] as int].output@, x)),
            decreases batch@.len() - b,
        {
            let i = batch[b];
            let ghost lv = level@;
            proof {
                lemma_place_one(lv, i as int, wave);
            }
            level.set(i, Some(wave));
            let ghost known_mid = known@;
            let mut o: usize = 0;
            while o < nodes[i].output.len()
                invariant
                    o <= nodes@[i as int].output@.len(),
                    i < nodes@.len(),
                    forall|x: Seq<char>| #[trigger] name_in(known@, x) <==> (name_in(known_mid, x) || exists|q: int|
                        0 <= q < o && nodes@[i as int].output@[q]@ == x),
                decreases nodes@[i as int].output@.len() - o,
            {
                let ghost kb = known@;
                known.push(nodes[i].output[o].clone());
                proof {
                    assert forall|x: Seq<char>| #[trigger] name_in(known@, x) <==> (name_in(known_mid, x) || exists|q: int|
                        0 <= q < o + 1 && nodes@[i as int].output@[q]@ == x) by {
                        if name_in(known@, x) {
                            let k = choose|k: int| 0 <= k < known@.len() && #[trigger] known@[k]@ == x;
                            if k < kb.len() {
                                assert(kb[k]@ == x);
                            }
                        }
                        if name_in(kb, x) {
                            let k = choose|k: int| 0 <= k < kb.len() && #[trigger] kb[k]@ == x;
                            assert(known@[k]@ == x);
                        }
                        if exists|q: int| 0 <= q < o + 1 && nodes@[i as int].output@[q]@ == x {
                            let q = choose|q: int| 0 <= q < o + 1 && nodes@[i as int].output@[q]@ == x;
                            if q == o {
                                assert(known@[kb.len() as int]@ == x);
                            }
                        }
                    }
                }
                o += 1;
            }
            proof {
                assert forall|x: Seq<char>| #[trigger] name_in(known@, x) <==> (name_in(known_before, x) || exists|c: int|
                    0 <= c < b + 1 && name_in(nodes@[batch@[c] as int].output@, x)) by {
                    if exists|q: int| 0 <= q < nodes@[i as int].output@.len() && nodes@[i as int].output@[q]@ == x {
                        let q = choose|q: int| 0 <= q < nodes@[i as int].output@.len() && nodes@[i as int].output@[q]@ == x;
                        assert(name_in(nodes@[batch@[b as int] as int].output@, x));
                    }
                    if name_in(nodes@[i as int].output@, x) {
                        let q = choose|q: int| 0 <= q < nodes@[i as int].output@.len() && #[trigger] nodes@[i as int].output@[q]@ == x;
                        assert(nodes@[i as int].output@[q]@ == x);
                    }
                    if exists|c: int| 0 <= c < b + 1 && name_in(nodes@[batch@[c] as int].output@, x) {
                        let c = choose|c: int| 0 <= c < b + 1 && name_in(nodes@[batch@[c] as int].output@, x);
                        if c == b {
                            let q = choose|q: int| 0 <= q < nodes@[i as int].output@.len() && #[trigger] nodes@[i as int].output@[q]@ == x;
                            assert(nodes@[i as int].output@[q]@ == x);
                        }
                    }
                }
                assert forall|j: int| 0 <= j < n implies #[trigger] level@[j] == (if exists|c: int| 0 <= c < b + 1 && batch@[c] == j {
                    Some(wave)
                } else {
                    level_before[j]
                }) by {
                    if j == i {
                        assert(batch@[b as int] == j);
                    } else {
                        if exists|c: int| 0 <= c < b + 1 && batch@[c] == j {
                            let c = choose|c: int| 0 <= c < b + 1 && batch@[c] == j;
                            assert(c != b);
                        }
                    }
                }
            }
            b += 1;
        }
        proof {
            // levels placed now are `wave`; inputs of each were known before
            assert forall|x: Seq<char>| #[trigger] name_in(known@, x) <==> (name_in(available@, x) || produced_below(nodes@, level@, wave + 1, x)) by {
                if produced_below(nodes@, level@, wave + 1, x) {
                    let m = choose|m: int| 0 <= m < nodes@.len() && level_lt(#[trigger] level@[m], wave + 1) && name_in(nodes@[m].output@, x);
                    if exists|c: int| 0 <= c < batch@.len() && batch@[c] == m {
                        let c = choose|c: int| 0 <= c < batch@.len() && batch@[c] == m;
                        assert(name_in(nodes@[batch@[c] as int].output@, x));
                    } else {
                        assert(level_before[m] == level@[m]);
                        assert(produced_below(nodes@, level_before, wave as int, x));
                    }
                }
                if name_in(known_before, x) && !name_in(available@, x) {
                    assert(produced_below(nodes@, level_before, wave as int, x));
                    let m = choose|m: int| 0 <= m < nodes@.len() && level_lt(#[trigger] level_before[m], wave as int) && name_in(nodes@[m].output@, x);
                    assert(level@[m] == level_before[m]);
                }
                if exists|c: int| 0 <= c < batch@.len() && name_in(nodes@[batch@[c] as int].output@, x) {
                    let c = choose|c: int| 0 <= c < batch@.len() && name_in(nodes@[batch@[c] as int].output@, x);
                    let m = batch@[c] as int;
                    assert(level@[m] == Some(wave));
                }
            }
            assert forall|k: int| 0 <= k < n && level@[k] is Some implies #[trigger] inputs_before(nodes@, available@, level@, k) by {
                if exists|c: int| 0 <= c < batch@.len() && batch@[c] == k {
                    let c = choose|c: int| 0 <= c < batch@.len() && batch@[c] == k;
                    assert(inputs_known(nodes@[k], known_before));
                    assert forall|j: int| 0 <= j < nodes@[k].input@.len() implies name_in(available@, #[trigger] nodes@[k].input@[j]@)
                        || produced_below(nodes@, level@, wave as int, nodes@[k].input@[j]@) by {
                        let x = nodes@[k].input@[j]@;
                        assert(name_in(known_before, x));
                        if !name_in(available@, x) {
                            let m = choose|m: int| 0 <= m < nodes@.len() && level_lt(#[trigger] level_before[m], wave as int) && name_in(nodes@[m].output@, x);
                            assert(level@[m] == level_before[m]);
                        }
                    }
                } else {
                    assert(level_before[k] == level@[k]);
                    assert(inputs_before(nodes@, available@, level_before, k));
                    let lk = level@[k]->Some_0;
                    assert forall|j: int| 0 <= j < nodes@[k].input@.len() implies name_in(available@, #[trigger] nodes@[k].input@[j]@)
                        || produced_below(nodes@, level@, lk as int, nodes@[k].input@[j]@) by {
                        let x = nodes@[k].input@[j]@;
                        if !name_in(available@, x) {
                            assert(produced_below(nodes@, level_before, lk as int, x));
                            let m = choose|m: int| 0 <= m < nodes@.len() && level_lt(#[trigger] level_before[m], lk as int) && name_in(nodes@[m].output@, x);
                            assert(level@[m] == level_before[m]);
                        }
                    }
                }
            }
        }
        proof {
            assert forall|k: int| 0 <= k < n && #[trigger] inputs_known(nodes@[k], available@) implies level@[k] == Some(0usize) by {
                if wave == 0 {
                    if let Some(lk) = level_before[k] {
                        assert(lk < wave);
                    }
                    assert forall|j: int| 0 <= j < nodes@[k].input@.len() implies name_in(known_before, #[trigger] nodes@[k].input@[j]@) by {
                        assert(name_in(available@, nodes@[k].input@[j]@));
                    }
                    assert(batch@.contains(k as usize));
                    let c = choose|c: int| 0 <= c < batch@.len() && batch@[c] == k as usize;
                    assert(exists|c: int| 0 <= c < batch@.len() && batch@[c] == k);
                } else {
                    assert(level_before[k] == Some(0usize));
                    if exists|c: int| 0 <= c < batch@.len() && batch@[c] == k {
                        let c = choose|c: int| 0 <= c < batch@.len() && batch@[c] == k;
                        assert(level_before[batch@[c] as int] is None);
                    }
                }
            }
        }
        wave += 1;
    }
}

fn count_unplaced_exec(level: &Vec<Option<usize>>) -> (r: usize)
    ensures
        r == count_unplaced(level@),
{
    let mut c: usize = 0;
    let mut k: usize = 0;
    while k < level.len()
        invariant
            k <= level@.len(),
            c == count_unplaced(level@.subrange(0, k as int)),
            c <= k,
        decreases level@.len() - k,
    {
        proof {
            assert(level@.subrange(0, k + 1).drop_last() =~= level@.subrange(0, k as int));
        }
        if level[k].is_none() {
            c += 1;
        }
        k += 1;
    }
    assert(level@.subrange(0, k as int) =~= level@);
    c
}

proof fn lemma_count_bounds(level: Seq<Option<usize>>)
    ensures
        count_unplaced(level) <= level.len(),
        (forall|k: int| 0 <= k < level.len() ==> #[trigger] level[k] is None) ==> count_unplaced(level)
            == level.len(),
    decreases level.len(),
{
    if level.len() > 0 {
        lemma_count_bounds(level.drop_last());
        if forall|k: int| 0 <= k < level.len() ==> #[trigger] level[k] is None {
            assert forall|k: int| 0 <= k < level.drop_last().len() implies #[trigger] level.drop_last()[k] is None by {
                assert(level.drop_last()[k] == level[k]);
            }
        }
    }
}

proof fn lemma_none_counted(level: Seq<Option<usize>>, i: int)
    requires
        0 <= i < level.len(),
        count_unplaced(level) == 0,
    ensures
        level[i] is Some,
    decreases level.len(),
{
    if i < level.len() - 1 {
        lemma_none_counted(level.drop_last(), i);
    }
}

} // verus!

verus! {

/// The attributes of a Conv node.
#[derive(Debug, Clone, Copy)]
pub struct ConvAttributes {
    pub auto_pad: Padding,
    pub dilations: (usize, usize),
    pub group: usize,
    pub pads: (usize, usize, usize, usize),
    pub strides: (usize, usize),
    pub kernel_shape: Option<(usize, usize)>,
}

pub open spec fn chars_auto_pad() -> Seq<char> {
    seq!['a', 'u', 't', 'o', '_', 'p', 'a', 'd']
}

/// The padding policy that an `auto_pad` value names.
pub open spec fn padding_named(s: Seq<u8>) -> Option<Padding> {
    if s == seq![78u8, 79, 84, 83, 69, 84] {
        Some(Padding::NotSet)
    } else if s == seq![83u8, 65, 77, 69, 95, 85, 80, 80, 69, 82] {
        Some(Padding::SameUpper)
    } else if s == seq![83u8, 65, 77, 69, 95, 76, 79, 87, 69, 82] {
        Some(Padding::SameLower)
    } else if s == seq![86u8, 65, 76, 73, 68] {
        Some(Padding::Valid)
    } else {
        None
    }
}

fn bytes_eq(a: &Vec<u8>, b: Vec<u8>) -> (r: bool)
    ensures
        r == (a@ == b@),
{
    if a.len() != b.len() {
        return false;
    }
    let mut i: usize = 0;
    while i < a.len()
        invariant
            a@.len() == b@.len(),
            i <= a@.len(),
            forall|k: int| 0 <= k < i ==> a@[k] == b@[k],
        decreases a@.len() - i,
    {
        if a[i] != b[i] {
            return false;
        }
        i += 1;
    }
    assert(a@ =~= b@);
    true
}

/// Reads an `auto_pad` value: `NOTSET`, `SAME_UPPER`, `SAME_LOWER` or `VALID`.
pub fn padding_from_bytes(s: &Vec<u8>) -> (r: Option<Padding>)
    ensures
        r == padding_named(s@),
{
    if bytes_eq(s, vec![78u8, 79, 84, 83, 69, 84]) {
        Some(Padding::NotSet)
    } else if bytes_eq(s, vec![83u8, 65, 77, 69, 95, 85, 80, 80, 69, 82]) {
        Some(Padding::SameUpper)
    } else if bytes_eq(s, vec![83u8, 65, 77, 69, 95, 76, 79, 87, 69, 82]) {
        Some(Padding::SameLower)
    } else if bytes_eq(s, vec![86u8, 65, 76, 73, 68]) {
        Some(Padding::Valid)
    } else {
        None
    }
}

/// A nonnegative attribute integer as a size.
fn size_of(v: i64) -> (r: Option<usize>)
    ensures
        r is Some <==> 0 <= v && v <= usize::MAX,
        r matches Some(u) ==> u as int == v as int,
{
    if v < 0 || v as u64 > usize::MAX as u64 {
        None
    } else {
        Some(v as usize)
    }
}

/// Reads `n` nonnegative sizes from an attribute's integer list.
fn sizes(ints: &Vec<i64>, n: usize) -> (r: Option<Vec<usize>>)
    ensures
        r matches Some(v) ==> v@.len() == n && ints@.len() == n && forall|k: int|
            0 <= k < n ==> #[trigger] v@[k] as int == ints@[k] as int,
        r is None ==> ints@.len() != n || exists|k: int| 0 <= k < ints@.len() && (#[trigger] ints@[k] < 0 || ints@[k] > usize::MAX),
{
    if ints.len() != n {
        return None;
    }
    let mut v: Vec<usize> = Vec::new();
    let mut k: usize = 0;
    while k < n
        invariant
            ints@.len() == n,
            k <= n,
            v@.len() == k,
            forall|j: int| 0 <= j < k ==> #[trigger] v@[j] as int == ints@[j] as int,
        decreases n - k,
    {
        match size_of(ints[k]) {
            Some(u) => v.push(u),
            None => {
                return None;
            },
        }
        k += 1;
    }
    Some(v)
}

/// The list has `n` sizes that fit in `usize`.
pub open spec fn sizes_fit(ints: Seq<i64>, n: int) -> bool {
    ints.len() == n && forall|k: int| 0 <= k < n ==> 0 <= #[trigger] ints[k] && ints[k] <= usize::MAX
}

/// The effect of one Conv attribute on the attributes read so far.
pub open spec fn conv_attr_step(c: ConvAttributes, a: AttributeProto) -> Result<ConvAttributes, ExecError> {
    let n = a.name@;
    let ints = a.ints@;
    if n == chars_auto_pad() {
        match a.s {
            Some(b) => match padding_named(b@) {
                Some(p) => Ok(ConvAttributes { auto_pad: p, ..c }),
                None => Err(ExecError::AttrUnknown),
            },
            None => Err(ExecError::AttrMissing),
        }
    } else if n == seq!['d', 'i', 'l', 'a', 't', 'i', 'o', 'n', 's'] {
        if sizes_fit(ints, 2) {
            Ok(ConvAttributes { dilations: (ints[0] as usize, ints[1] as usize), ..c })
        } else {
            Err(ExecError::KernelFailure)
        }
    } else if n == seq!['g', 'r', 'o', 'u', 'p'] {
        match a.i {
            Some(g) => if 1 <= g && g <= usize::MAX {
                Ok(ConvAttributes { group: g as usize, ..c })
            } else {
                Err(ExecError::KernelFailure)
            },
            None => Err(ExecError::AttrMissing),
        }
    } else if n == seq!['k', 'e', 'r', 'n', 'e', 'l', '_', 's', 'h', 'a', 'p', 'e'] {
        if sizes_fit(ints, 2) {
            Ok(ConvAttributes { kernel_shape: Some((ints[0] as usize, ints[1] as usize)), ..c })
        } else {
            Err(ExecError::KernelFailure)
        }
    } else if n == seq!['p', 'a', 'd', 's'] {
        if sizes_fit(ints, 4) {
            Ok(ConvAttributes { pads: (ints[0] as usize, ints[1] as usize, ints[2] as usize, ints[3] as usize), ..c })
        } else {
            Err(ExecError::KernelFailure)
        }
    } else if n == seq!['s', 't', 'r', 'i', 'd', 'e', 's'] {
        if sizes_fit(ints, 2) {
            Ok(ConvAttributes { strides: (ints[0] as usize, ints[1] as usize), ..c })
        } else {
            Err(ExecError::KernelFailure)
        }
    } else {
        Err(ExecError::AttrUnknown)
    }
}

/// The defaults: explicit zero padding, unit strides and dilations, one group.
pub open spec fn conv_defaults() -> ConvAttributes {
    ConvAttributes {
        auto_pad: Padding::NotSet,
        dilations: (1, 1),
        group: 1,
        pads: (0, 0, 0, 0),
        strides: (1, 1),
        kernel_shape: None,
    }
}

/// The attributes read from a list, in order, from the defaults.
pub open spec fn conv_attrs_of(attrs: Seq<AttributeProto>) -> Result<ConvAttributes, ExecError>
    decreases attrs.len(),
{
    if attrs.len() == 0 {
        Ok(conv_defaults())
    } else {
        match conv_attrs_of(attrs.drop_last()) {
            Ok(c) => conv_attr_step(c, attrs.last()),
            Err(e) => Err(e),
        }
    }
}

fn conv_attr_apply(c: ConvAttributes, a: &AttributeProto) -> (r: Result<ConvAttributes, ExecError>)
    ensures
        r == conv_attr_step(c, *a),
{
    if name_is(&a.name, vec!['a', 'u', 't', 'o', '_', 'p', 'a', 'd']) {
        match &a.s {
            Some(b) => match padding_from_bytes(b) {
                Some(p) => Ok(ConvAttributes { auto_pad: p, ..c }),
                None => Err(ExecError::AttrUnknown),
            },
            None => Err(ExecError::AttrMissing),
        }
    } else if name_is(&a.name, vec!['d', 'i', 'l', 'a', 't', 'i', 'o', 'n', 's']) {
        match sizes(&a.ints, 2) {
            Some(v) => Ok(ConvAttributes { dilations: (v[0], v[1]), ..c }),
            None => Err(ExecError::KernelFailure),
        }
    } else if name_is(&a.name, vec!['g', 'r', 'o', 'u', 'p']) {
        match a.i {
            Some(g) => match size_of(g) {
                Some(u) => if u >= 1 {
                    Ok(ConvAttributes { group: u, ..c })
                } else {
                    Err(ExecError::KernelFailure)
                },
                None => Err(ExecError::KernelFailure),
            },
            None => Err(ExecError::AttrMissing),
        }
    } else if name_is(&a.name, vec!['k', 'e', 'r', 'n', 'e', 'l', '_', 's', 'h', 'a', 'p', 'e']) {
        match sizes(&a.ints, 2) {
            Some(v) => Ok(ConvAttributes { kernel_shape: Some((v[0], v[1])), ..c }),
            None => Err(ExecError::KernelFailure),
        }
    } else if name_is(&a.name, vec!['p', 'a', 'd', 's']) {
        match sizes(&a.ints, 4) {
            Some(v) => Ok(ConvAttributes { pads: (v[0], v[1], v[2], v[3]), ..c }),
            None => Err(ExecError::KernelFailure),
        }
    } else if name_is(&a.name, vec!['s', 't', 'r', 'i', 'd', 'e', 's']) {
        match sizes(&a.ints, 2) {
            Some(v) => Ok(ConvAttributes { strides: (v[0], v[1]), ..c }),
            None => Err(ExecError::KernelFailure),
        }
    } else {
        Err(ExecError::AttrUnknown)
    }
}

/// Reads the attributes of a Conv node, in order, over the defaults:
/// `auto_pad` (`NOTSET`, `SAME_UPPER`, `SAME_LOWER` or `VALID`),
/// `dilations` (two sizes), `group`, `kernel_shape` (two sizes),
/// `pads` (`[top, left, bottom, right]`) and `strides` (two sizes).
/// Any other attribute name is refused.
pub fn convolution_attributes(node: &NodeProto) -> (r: Result<ConvAttributes, ExecError>)
    ensures
        r == conv_attrs_of(node.attribute@),
{
    let mut c = ConvAttributes {
        auto_pad: Padding::NotSet,
        dilations: (1, 1),
        group: 1,
        pads: (0, 0, 0, 0),
        strides: (1, 1),
        kernel_shape: None,
    };
    let mut k: usize = 0;
    assert(node.attribute@.subrange(0, 0).len() == 0);
    while k < node.attribute.len()
        invariant
            k <= node.attribute@.len(),
            conv_attrs_of(node.attribute@.subrange(0, k as int)) == Ok::<ConvAttributes, ExecError>(c),
        decreases node.attribute@.len() - k,
    {
        proof {
            assert(node.attribute@.subrange(0, k + 1).drop_last() =~= node.attribute@.subrange(0, k as int));
        }
        match conv_attr_apply(c, &node.attribute[k]) {
            Ok(c2) => {
                c = c2;
            },
            Err(e) => {
                proof {
                    lemma_attrs_err_sticks(node.attribute@, k as int + 1);
                }
                return Err(e);
            },
        }
        k += 1;
    }
    assert(node.attribute@.subrange(0, k as int) =~= node.attribute@);
    Ok(c)
}

proof fn lemma_attrs_err_sticks(attrs: Seq<AttributeProto>, k: int)
    requires
        0 < k <= attrs.len(),
        conv_attrs_of(attrs.subrange(0, k)) is Err,
    ensures
        conv_attrs_of(attrs) == conv_attrs_of(attrs.subrange(0, k)),
    decreases attrs.len() - k,
{
    if k < attrs.len() {
        assert(attrs.subrange(0, k + 1).drop_last() =~= attrs.subrange(0, k));
        lemma_attrs_err_sticks(attrs, k + 1);
    } else {
        assert(attrs.subrange(0, k) =~= attrs);
    }
}

} // verus!

verus! {

/// The attributes of a MaxPool node.
#[derive(Debug, Clone, Copy)]
pub struct PoolAttributes {
    pub auto_pad: Padding,
    pub kernel_shape: Option<(usize, usize)>,
    pub pads: (usize, usize, usize, usize),
    pub storage_order: i64,
    pub strides: (usize, usize),
}

/// The effect of one MaxPool attribute on the attributes read so far.
pub open spec fn pool_attr_step(c: PoolAttributes, a: AttributeProto) -> Result<PoolAttributes, ExecError> {
    let n = a.name@;
    let ints = a.ints@;
    if n == chars_auto_pad() {
        match a.s {
            Some(b) => match padding_named(b@) {
                Some(p) => Ok(PoolAttributes { auto_pad: p, ..c }),
                None => Err(ExecError::AttrUnknown),
            },
            None => Err(ExecError::AttrMissing),
        }
    } else if n == seq!['k', 'e', 'r', 'n', 'e', 'l', '_', 's', 'h', 'a', 'p', 'e'] {
        if sizes_fit(ints, 2) {
            Ok(PoolAttributes { kernel_shape: Some((ints[0] as usize, ints[1] as usize)), ..c })
        } else {
            Err(ExecError::KernelFailure)
        }
    } else if n == seq!['p', 'a', 'd', 's'] {
        if sizes_fit(ints, 4) {
            Ok(PoolAttributes { pads: (ints[0] as usize, ints[1] as usize, ints[2] as usize, ints[3] as usize), ..c })
        } else {
            Err(ExecError::KernelFailure)
        }
    } else if n == seq!['s', 't', 'o', 'r', 'a', 'g', 'e', '_', 'o', 'r', 'd', 'e', 'r'] {
        match a.i {
            Some(v) => Ok(PoolAttributes { storage_order: v, ..c }),
            None => Err(ExecError::AttrMissing),
        }
    } else if n == seq!['s', 't', 'r', 'i', 'd', 'e', 's'] {
        if sizes_fit(ints, 2) {
            Ok(PoolAttributes { strides: (ints[0] as usize, ints[1] as usize), ..c })
        } else {
            Err(ExecError::KernelFailure)
        }
    } else {
        Err(ExecError::AttrUnknown)
    }
}

/// The attributes read from a list, in order, over explicit zero padding
/// and unit strides.
pub open spec fn pool_attrs_of(attrs: Seq<AttributeProto>) -> Result<PoolAttributes, ExecError>
    decreases attrs.len(),
{
    if attrs.len() == 0 {
        Ok(PoolAttributes { auto_pad: Padding::NotSet, kernel_shape: None, pads: (0, 0, 0, 0), storage_order: 0, strides: (1, 1) })
    } else {
        match pool_attrs_of(attrs.drop_last()) {
            Ok(c) => pool_attr_step(c, attrs.last()),
            Err(e) => Err(e),
        }
    }
}

fn pool_attr_apply(c: PoolAttributes, a: &AttributeProto) -> (r: Result<PoolAttributes, ExecError>)
    ensures
        r == pool_attr_step(c, *a),
{
    if name_is(&a.name, vec!['a', 'u', 't', 'o', '_', 'p', 'a', 'd']) {
        match &a.s {
            Some(b) => match padding_from_bytes(b) {
                Some(p) => Ok(PoolAttributes { auto_pad: p, ..c }),
                None => Err(ExecError::AttrUnknown),
            },
            None => Err(ExecError::AttrMissing),
        }
    } else if name_is(&a.name, vec!['k', 'e', 'r', 'n', 'e', 'l', '_', 's', 'h', 'a', 'p', 'e']) {
        match sizes(&a.ints, 2) {
            Some(v) => Ok(PoolAttributes { kernel_shape: Some((v[0], v[1])), ..c }),
            None => Err(ExecError::KernelFailure),
        }
    } else if name_is(&a.name, vec!['p', 'a', 'd', 's']) {
        match sizes(&a.ints, 4) {
            Some(v) => Ok(PoolAttributes { pads: (v[0], v[1], v[2], v[3]), ..c }),
            None => Err(ExecError::KernelFailure),
        }
    } else if name_is(&a.name, vec!['s', 't', 'o', 'r', 'a', 'g', 'e', '_', 'o', 'r', 'd', 'e', 'r']) {
        match a.i {
            Some(v) => Ok(PoolAttributes { storage_order: v, ..c }),
            None => Err(ExecError::AttrMissing),
        }
    } else if name_is(&a.name, vec!['s', 't', 'r', 'i', 'd', 'e', 's']) {
        match sizes(&a.ints, 2) {
            Some(v) => Ok(PoolAttributes { strides: (v[0], v[1]), ..c }),
            None => Err(ExecError::KernelFailure),
        }
    } else {
        Err(ExecError::AttrUnknown)
    }
}

proof fn lemma_pool_err_sticks(attrs: Seq<AttributeProto>, k: int)
    requires
        0 < k <= attrs.len(),
        pool_attrs_of(attrs.subrange(0, k)) is Err,
    ensures
        pool_attrs_of(attrs) == pool_attrs_of(attrs.subrange(0, k)),
    decreases attrs.len() - k,
{
    if k < attrs.len() {
        assert(attrs.subrange(0, k + 1).drop_last() =~= attrs.subrange(0, k));
        lemma_pool_err_sticks(attrs, k + 1);
    } else {
        assert(attrs.subrange(0, k) =~= attrs);
    }
}

/// Reads the attributes of a MaxPool node, in order: `auto_pad`,
/// `kernel_shape` (two sizes, required), `pads`, `storage_order` and
/// `strides`. Any other attribute name is refused.
pub fn max_pool_attributes(node: &NodeProto) -> (r: Result<PoolAttributes, ExecError>)
    ensures
        r is Ok ==> pool_attrs_of(node.attribute@) == r && r->Ok_0.kernel_shape is Some,
        r is Err ==> (pool_attrs_of(node.attribute@) is Err && pool_attrs_of(node.attribute@) == r)
            || (pool_attrs_of(node.attribute@) is Ok && pool_attrs_of(node.attribute@)->Ok_0.kernel_shape is None
            && r == Err::<PoolAttributes, ExecError>(ExecError::AttrMissing)),
{
    let mut c = PoolAttributes { auto_pad: Padding::NotSet, kernel_shape: None, pads: (0, 0, 0, 0), storage_order: 0, strides: (1, 1) };
    let mut k: usize = 0;
    assert(node.attribute@.subrange(0, 0).len() == 0);
    while k < node.attribute.len()
        invariant
            k <= node.attribute@.len(),
            pool_attrs_of(node.attribute@.subrange(0, k as int)) == Ok::<PoolAttributes, ExecError>(c),
        decreases node.attribute@.len() - k,
    {
        proof {
            assert(node.attribute@.subrange(0, k + 1).drop_last() =~= node.attribute@.subrange(0, k as int));
        }
        match pool_attr_apply(c, &node.attribute[k]) {
            Ok(c2) => {
                c = c2;
            },
            Err(e) => {
                proof {
                    lemma_pool_err_sticks(node.attribute@, k as int + 1);
                }
                return Err(e);
            },
        }
        k += 1;
    }
    assert(node.attribute@.subrange(0, k as int) =~= node.attribute@);
    if c.kernel_shape.is_none() {
        return Err(ExecError::AttrMissing);
    }
    Ok(c)
}

/// The value of the last attribute named `axis`, or `default` when there is
/// none; refuses any other attribute name and an `axis` without an integer.
pub open spec fn axis_of(attrs: Seq<AttributeProto>, default: i64) -> Result<i64, ExecError>
    decreases attrs.len(),
{
    if attrs.len() == 0 {
        Ok(default)
    } else {
        match axis_of(attrs.drop_last(), default) {
            Ok(v) => if attrs.last().name@ == seq!['a', 'x', 'i', 's'] {
                match attrs.last().i {
                    Some(i) => Ok(i),
                    None => Err(ExecError::AttrMissing),
                }
            } else {
                Err(ExecError::AttrUnknown)
            },
            Err(e) => Err(e),
        }
    }
}

proof fn lemma_axis_err_sticks(attrs: Seq<AttributeProto>, k: int, default: i64)
    requires
        0 < k <= attrs.len(),
        axis_of(attrs.subrange(0, k), default) is Err,
    ensures
        axis_of(attrs, default) == axis_of(attrs.subrange(0, k), default),
    decreases attrs.len() - k,
{
    if k < attrs.len() {
        assert(attrs.subrange(0, k + 1).drop_last() =~= attrs.subrange(0, k));
        lemma_axis_err_sticks(attrs, k + 1, default);
    } else {
        assert(attrs.subrange(0, k) =~= attrs);
    }
}

/// Reads the `axis` attribute of a Concat or Softmax node.
pub fn axis_attribute(node: &NodeProto, default: i64) -> (r: Result<i64, ExecError>)
    ensures
        r == axis_of(node.attribute@, default),
{
    let mut v = default;
    let mut k: usize = 0;
    assert(node.attribute@.subrange(0, 0).len() == 0);
    while k < node.attribute.len()
        invariant
            k <= node.attribute@.len(),
            axis_of(node.attribute@.subrange(0, k as int), default) == Ok::<i64, ExecError>(v),
        decreases node.attribute@.len() - k,
    {
        proof {
            assert(node.attribute@.subrange(0, k + 1).drop_last() =~= node.attribute@.subrange(0, k as int));
        }
        let a = &node.attribute[k];
        if name_is(&a.name, vec!['a', 'x', 'i', 's']) {
            match a.i {
                Some(i) => {
                    v = i;
                },
                None => {
                    proof {
                        lemma_axis_err_sticks(node.attribute@, k as int + 1, default);
                    }
                    return Err(ExecError::AttrMissing);
                },
            }
        } else {
            proof {
                lemma_axis_err_sticks(node.attribute@, k as int + 1, default);
            }
            return Err(ExecError::AttrUnknown);
        }
        k += 1;
    }
    assert(node.attribute@.subrange(0, k as int) =~= node.attribute@);
    Ok(v)
}

/// Checks the attributes of a Dropout node: only `ratio` is known (it is
/// accepted and not applied at inference).
pub fn drop_out_attributes(node: &NodeProto) -> (r: Result<(), ExecError>)
    ensures
        r is Ok <==> forall|k: int| 0 <= k < node.attribute@.len() ==> #[trigger] node.attribute@[k].name@
            == seq!['r', 'a', 't', 'i', 'o'],
        r is Err ==> r == Err::<(), ExecError>(ExecError::AttrUnknown),
{
    let mut k: usize = 0;
    while k < node.attribute.len()
        invariant
            k <= node.attribute@.len(),
            forall|j: int| 0 <= j < k ==> #[trigger] node.attribute@[j].name@ == seq!['r', 'a', 't', 'i', 'o'],
        decreases node.attribute@.len() - k,
    {
        if !name_is(&node.attribute[k].name, vec!['r', 'a', 't', 'i', 'o']) {
            return Err(ExecError::AttrUnknown);
        }
        k += 1;
    }
    Ok(())
}

/// The product of a list of sizes.
pub open spec fn product(s: Seq<usize>) -> nat
    decreases s.len(),
{
    if s.len() == 0 {
        1
    } else {
        product(s.drop_last()) * (s.last() as nat)
    }
}

proof fn lemma_product_prefix(s: Seq<usize>, k: int)
    requires
        0 <= k <= s.len(),
        forall|j: int| 0 <= j < s.len() ==> #[trigger] s[j] > 0,
    ensures
        product(s.subrange(0, k)) <= product(s),
        product(s) >= 1,
    decreases s.len(),
{
    if s.len() > 0 {
        assert forall|j: int| 0 <= j < s.drop_last().len() implies #[trigger] s.drop_last()[j] > 0 by {
            assert(s.drop_last()[j] == s[j]);
        }
        let p = product(s.drop_last());
        let l = s.last() as nat;
        if k < s.len() {
            lemma_product_prefix(s.drop_last(), k);
            assert(s.drop_last().subrange(0, k) =~= s.subrange(0, k));
        } else {
            lemma_product_prefix(s.drop_last(), 0);
            assert(s.subrange(0, k) =~= s);
        }
        assert(p * l >= p) by (nonlinear_arith)
            requires
                l >= 1,
                p >= 1,
        ;
    } else {
        assert(s.subrange(0, k) =~= s);
    }
}

/// Dim `k` of a Reshape target with `0` resolved to the input's dim and
/// `-1` counted as 1.
pub open spec fn known_dim(input: Seq<usize>, shape: Seq<i64>, k: int) -> int {
    if shape[k] == 0 {
        if k < input.len() {
            input[k] as int
        } else {
            0
        }
    } else if shape[k] == -1 {
        1
    } else {
        shape[k] as int
    }
}

/// The product of the first `n` known dims.
pub open spec fn known_product(input: Seq<usize>, shape: Seq<i64>, n: int) -> int
    decreases n,
{
    if n <= 0 {
        1
    } else {
        known_product(input, shape, n - 1) * known_dim(input, shape, n - 1)
    }
}

/// The number of `-1` among the first `n` entries.
pub open spec fn holes(shape: Seq<i64>, n: int) -> nat
    decreases n,
{
    if n <= 0 {
        0
    } else {
        holes(shape, n - 1) + if shape[n - 1] == -1 {
            1nat
        } else {
            0nat
        }
    }
}

/// A Reshape target that resolves to the input's element count: no entry
/// below `-1`, at most one `-1`, every `0` within the input's rank, and the
/// known dims multiply to the count (or divide it, when a `-1` is there).
/// The input's dims are positive and their product fits in `usize`.
pub open spec fn reshape_resolvable(input: Seq<usize>, shape: Seq<i64>) -> bool {
    let kp = known_product(input, shape, shape.len() as int);
    let h = holes(shape, shape.len() as int);
    &&& forall|k: int| 0 <= k < input.len() ==> #[trigger] input[k] > 0
    &&& product(input) <= usize::MAX
    &&& forall|k: int| 0 <= k < shape.len() ==> #[trigger] shape[k] >= -1
    &&& forall|k: int| 0 <= k < shape.len() && #[trigger] shape[k] == 0 ==> k < input.len()
    &&& h <= 1
    &&& h == 0 ==> kp == product(input)
    &&& h == 1 ==> (product(input) as int) % kp == 0
}

proof fn lemma_known_product_mono(input: Seq<usize>, shape: Seq<i64>, m: int, n: int)
    requires
        0 <= m <= n <= shape.len(),
        forall|k: int| 0 <= k < n ==> known_dim(input, shape, k) >= 1,
    ensures
        1 <= known_product(input, shape, m) <= known_product(input, shape, n),
    decreases n,
{
    if n > m {
        lemma_known_product_mono(input, shape, m, n - 1);
        let p = known_product(input, shape, n - 1);
        let d = known_dim(input, shape, n - 1);
        assert(p * d >= p) by (nonlinear_arith)
            requires
                p >= 1,
                d >= 1,
        ;
    } else if n > 0 {
        lemma_known_product_mono(input, shape, n - 1, n - 1);
        let p = known_product(input, shape, n - 1);
        let d = known_dim(input, shape, n - 1);
        assert(p * d >= 1) by (nonlinear_arith)
            requires
                p >= 1,
                d >= 1,
        ;
    }
}

proof fn lemma_holes_mono(shape: Seq<i64>, m: int, n: int)
    requires
        0 <= m <= n,
    ensures
        holes(shape, m) <= holes(shape, n),
    decreases n,
{
    if n > m {
        lemma_holes_mono(shape, m, n - 1);
    }
}

/// The dims of a Reshape target: `0` copies the input dim at the same
/// place, one `-1` is inferred so that the element count is kept, other
/// entries are taken as they are. Fails on any other negative entry, a
/// second `-1`, a `0` past the input's rank, or a count that cannot be kept.
pub fn reshape_dims(input: &Vec<usize>, shape: &Vec<i64>) -> (r: Result<Vec<usize>, crate::convolution_op::KernelError>)
    ensures
        r matches Ok(d) ==> d@.len() == shape@.len() && product(d@) == product(input@) && forall|k: int|
            0 <= k < shape@.len() ==> (#[trigger] shape@[k] == 0 ==> k < input@.len() && d@[k] == input@[k])
                && (shape@[k] > 0 ==> d@[k] as int == shape@[k] as int),
        reshape_resolvable(input@, shape@) ==> r is Ok,
{
    let total = product_exec(input);
    let ghost ok = reshape_resolvable(input@, shape@);
    let ghost n = shape@.len() as int;
    let mut d: Vec<usize> = Vec::new();
    let mut known: usize = 1;
    let mut hole: Option<usize> = None;
    let mut k: usize = 0;
    proof {
        if ok {
            assert forall|j: int| 0 <= j < n implies known_dim(input@, shape@, j) >= 1 by {
                if shape@[j] == 0 {
                    assert(input@[j] > 0);
                }
            }
            lemma_known_product_mono(input@, shape@, n, n);
            lemma_product_prefix(input@, 0);
            let kp = known_product(input@, shape@, n);
            let pr = product(input@) as int;
            if holes(shape@, n) == 1 {
                assert(kp <= pr) by (nonlinear_arith)
                    requires
                        kp >= 1,
                        pr >= 1,
                        pr % kp == 0,
                ;
            }
        }
    }
    while k < shape.len()
        invariant
            k <= shape@.len(),
            n == shape@.len(),
            ok == reshape_resolvable(input@, shape@),
            ok ==> total is Some && known as int == known_product(input@, shape@, k as int) && holes(shape@, k as int) <= 1
                && (hole is None <==> holes(shape@, k as int) == 0),
            ok ==> forall|j: int| 0 <= j < n ==> known_dim(input@, shape@, j) >= 1,
            ok ==> known_product(input@, shape@, n) <= product(input@),
            d@.len() == k,
            total matches Some(t) ==> t == product(input@),
            hole matches Some(h) ==> h < k && shape@[h as int] == -1 && d@[h as int] == 1,
            hole is None ==> forall|j: int| 0 <= j < k ==> #[trigger] shape@[j] != -1,
            forall|j: int| 0 <= j < k && hole != Some(j as usize) ==> #[trigger] shape@[j] >= 0,
            known == product(d@),
            forall|j: int|
                0 <= j < k ==> (#[trigger] shape@[j] == 0 ==> j < input@.len() && d@[j] == input@[j])
                    && (shape@[j] > 0 ==> d@[j] as int == shape@[j] as int),
        decreases shape@.len() - k,
    {
        let s = shape[k];
        proof {
            if ok {
                lemma_known_product_mono(input@, shape@, k as int, k + 1);
                lemma_known_product_mono(input@, shape@, k + 1, n);
                lemma_holes_mono(shape@, k + 1, n);
                let pk = known_product(input@, shape@, k as int);
                let dk = known_dim(input@, shape@, k as int);
                assert(pk * dk >= dk) by (nonlinear_arith)
                    requires
                        pk >= 1,
                        dk >= 1,
                ;
                assert(shape@[k as int] >= -1);
            }
        }
        let v: usize = if s == 0 {
            if k >= input.len() {
                return Err(crate::convolution_op::KernelError::Shape);
            }
            input[k]
        } else if s == -1 {
            if hole.is_some() {
                return Err(crate::convolution_op::KernelError::Shape);
            }
            hole = Some(k);
            1
        } else if s < 0 || s as u64 > usize::MAX as u64 {
            return Err(crate::convolution_op::KernelError::Shape);
        } else {
            s as usize
        };
        assert(ok ==> v as int == known_dim(input@, shape@, k as int));
        let next = match known.checked_mul(v) {
            Some(p) => p,
            None => {
                return Err(crate::convolution_op::KernelError::Shape);
            },
        };
        let ghost before = d@;
        d.push(v);
        proof {
            assert(d@.drop_last() =~= before);
        }
        known = next;
        k += 1;
    }
    let t = match total {
        Some(t) => t,
        None => {
            return Err(crate::convolution_op::KernelError::Shape);
        },
    };
    match hole {
        None => {
            if known != t {
                return Err(crate::convolution_op::KernelError::Shape);
            }
            Ok(d)
        },
        Some(h) => {
            if known == 0 || t % known != 0 {
                return Err(crate::convolution_op::KernelError::Shape);
            }
            let fill = t / known;
            let ghost before = d@;
            d.set(h, fill);
            proof {
                lemma_product_update_one(before, h as int, fill);
                assert(fill * known == t) by (nonlinear_arith)
                    requires
                        fill == t / known,
                        t % known == 0,
                        known > 0,
                ;
            }
            Ok(d)
        },
    }
}

proof fn lemma_product_update_one(s: Seq<usize>, h: int, v: usize)
    requires
        0 <= h < s.len(),
        s[h] == 1,
    ensures
        product(s.update(h, v)) == product(s) * v,
    decreases s.len(),
{
    let u = s.update(h, v);
    if h == s.len() - 1 {
        assert(u.drop_last() =~= s.drop_last());
        assert(product(s) == product(s.drop_last()));
    } else {
        assert(u.drop_last() =~= s.drop_last().update(h, v));
        lemma_product_update_one(s.drop_last(), h, v);
        assert(product(u) == product(s.drop_last()) * v * s.last());
        assert(product(s.drop_last()) * v * s.last() == product(s.drop_last()) * s.last() * v) by (nonlinear_arith);
    }
}

/// The product of the sizes, when it fits in `usize`.
pub fn product_exec(s: &Vec<usize>) -> (r: Option<usize>)
    ensures
        r matches Some(p) ==> p == product(s@),
        (forall|k: int| 0 <= k < s@.len() ==> #[trigger] s@[k] > 0) && product(s@) <= usize::MAX ==> r is Some,
{
    let mut p: usize = 1;
    let mut k: usize = 0;
    proof {
        if (forall|j: int| 0 <= j < s@.len() ==> #[trigger] s@[j] > 0) && product(s@) <= usize::MAX {
            lemma_product_prefix(s@, 0);
        }
    }
    while k < s.len()
        invariant
            k <= s@.len(),
            p == product(s@.subrange(0, k as int)),
            (forall|j: int| 0 <= j < s@.len() ==> #[trigger] s@[j] > 0) && product(s@) <= usize::MAX
                ==> product(s@.subrange(0, k as int)) <= product(s@),
        decreases s@.len() - k,
    {
        proof {
            assert(s@.subrange(0, k + 1).drop_last() =~= s@.subrange(0, k as int));
        }
        proof {
            if (forall|j: int| 0 <= j < s@.len() ==> #[trigger] s@[j] > 0) && product(s@) <= usize::MAX {
                lemma_product_prefix(s@, k + 1);
            }
        }
        p = match p.checked_mul(s[k]) {
            Some(q) => q,
            None => {
                return None;
            },
        };
        k += 1;
    }
    assert(s@.subrange(0, k as int) =~= s@);
    Some(p)
}

} // verus!

verus! {

/// Element `k` of the concatenation, along the middle axis, of an
/// `[outer, ca, inner]` array and an `[outer, cb, inner]` array.
pub open spec fn concat_at<T>(a: Seq<T>, b: Seq<T>, ca: int, cb: int, inner: int, k: int) -> T {
    let i = k % inner;
    let c = (k / inner) % (ca + cb);
    let o = k / (inner * (ca + cb));
    if c < ca {
        a[(o * ca + c) * inner + i]
    } else {
        b[(o * cb + (c - ca)) * inner + i]
    }
}

proof fn lemma_idx3(outer: int, mid: int, inner: int, o: int, c: int, i: int)
    requires
        0 <= o < outer,
        0 <= c < mid,
        0 <= i < inner,
    ensures
        0 <= o * mid + c < outer * mid,
        0 <= (o * mid + c) * inner + i < outer * mid * inner,
        outer * mid <= outer * mid * inner,
{
    assert(0 <= o * mid + c < outer * mid) by (nonlinear_arith)
        requires
            0 <= o < outer,
            0 <= c < mid,
    ;
    let a = o * mid + c;
    assert(0 <= a * inner + i < outer * mid * inner) by (nonlinear_arith)
        requires
            0 <= a < outer * mid,
            0 <= i < inner,
    ;
    assert(outer * mid <= outer * mid * inner) by (nonlinear_arith)
        requires
            outer * mid >= 1,
            inner >= 1,
    ;
}

/// Joins two arrays along an axis: `a` is `[outer, ca, inner]`, `b` is
/// `[outer, cb, inner]` (`outer` and `inner` are the products of the dims
/// before and after the axis), the result `[outer, ca + cb, inner]`.
pub fn concatenate_op<T: Copy>(a: &Vec<T>, b: &Vec<T>, outer: usize, ca: usize, cb: usize, inner: usize) -> (r: Vec<T>)
    requires
        a@.len() == outer * ca * inner,
        b@.len() == outer * cb * inner,
        ca + cb <= usize::MAX,
        outer * (ca + cb) <= usize::MAX,
        outer * (ca + cb) * inner <= usize::MAX,
    ensures
        r@.len() == outer * (ca + cb) * inner,
        forall|k: int| 0 <= k < r@.len() ==> #[trigger] r@[k] == concat_at(a@, b@, ca as int, cb as int, inner as int, k),
{
    let cc = ca + cb;
    let total = outer * cc * inner;
    let al = a.len();
    let bl = b.len();
    let mut r: Vec<T> = Vec::new();
    let mut k: usize = 0;
    while k < total
        invariant
            al == a@.len(),
            bl == b@.len(),
            a@.len() == outer * ca * inner,
            b@.len() == outer * cb * inner,
            cc == ca + cb,
            total == outer * cc * inner,
            k <= total,
            r@.len() == k,
            forall|j: int| 0 <= j < k ==> #[trigger] r@[j] == concat_at(a@, b@, ca as int, cb as int, inner as int, j),
        decreases total - k,
    {
        proof {
            assert(outer > 0 && cc > 0 && inner > 0) by (nonlinear_arith)
                requires
                    k < total,
                    total == outer * cc * inner,
            ;
            assert(total == outer * (inner * cc)) by (nonlinear_arith)
                requires
                    total == outer * cc * inner,
            ;
            assert(inner * cc > 0 && inner * cc <= total) by (nonlinear_arith)
                requires
                    total == outer * (inner * cc),
                    outer > 0 && cc > 0 && inner > 0,
            ;
        }
        let i = k % inner;
        let c = (k / inner) % cc;
        let o = k / (inner * cc);
        proof {
            crate::convolution_op::lemma_div_bound(k as int, (inner * cc) as int, outer as int);
        }
        let v = if c < ca {
            proof {
                lemma_idx3(outer as int, ca as int, inner as int, o as int, c as int, i as int);
            }
            a[(o * ca + c) * inner + i]
        } else {
            proof {
                lemma_idx3(outer as int, cb as int, inner as int, o as int, (c - ca) as int, i as int);
            }
            b[(o * cb + (c - ca)) * inner + i]
        };
        r.push(v);
        k += 1;
    }
    r
}

/// One coordinate of a broadcast read: `0` along an axis of size 1.
pub open spec fn bcast(dim: int, x: int) -> int {
    if dim == 1 {
        0
    } else {
        x
    }
}

/// Element `k` of `y` (dims `yd`) broadcast to the dims `od`.
pub open spec fn broadcast_at<T>(y: Seq<T>, yd: (usize, usize, usize, usize), od: (usize, usize, usize, usize), k: int) -> T {
    let w = k % (od.3 as int);
    let h = (k / (od.3 as int)) % (od.2 as int);
    let c = (k / ((od.3 * od.2) as int)) % (od.1 as int);
    let n = k / ((od.3 * od.2 * od.1) as int);
    y[idx4_of(yd, bcast(yd.0 as int, n), bcast(yd.1 as int, c), bcast(yd.2 as int, h), bcast(yd.3 as int, w))]
}

pub open spec fn idx4_of(d: (usize, usize, usize, usize), n: int, c: int, h: int, w: int) -> int {
    crate::convolution_op::idx4(d.1 as int, d.2 as int, d.3 as int, n, c, h, w)
}

/// Each dim of `yd` is 1 or the matching dim of `od`.
pub open spec fn broadcastable(yd: (usize, usize, usize, usize), od: (usize, usize, usize, usize)) -> bool {
    (yd.0 == 1 || yd.0 == od.0) && (yd.1 == 1 || yd.1 == od.1) && (yd.2 == 1 || yd.2 == od.2) && (yd.3 == 1
        || yd.3 == od.3)
}

fn pick(dim: usize, x: usize) -> (r: usize)
    ensures
        r as int == bcast(dim as int, x as int),
{
    if dim == 1 {
        0
    } else {
        x
    }
}

/// Broadcasts `y` (dims `yd`, ranks below 4 padded with leading 1s) to the
/// dims `od`, NumPy style: an axis of size 1 repeats its one element.
/// Fails when some axis is neither 1 nor the target size.
pub fn broadcast_to<T: Copy>(y: &Vec<T>, yd: (usize, usize, usize, usize), od: (usize, usize, usize, usize)) -> (r: Result<Vec<T>, crate::convolution_op::KernelError>)
    requires
        y@.len() == yd.0 * yd.1 * yd.2 * yd.3,
        od.0 * od.1 * od.2 * od.3 <= usize::MAX,
        od.3 * od.2 <= usize::MAX,
        od.3 * od.2 * od.1 <= usize::MAX,
        od.0 * od.1 <= usize::MAX,
        od.0 * od.1 * od.2 <= usize::MAX,
    ensures
        r is Ok <==> broadcastable(yd, od),
        r matches Ok(v) ==> v@.len() == od.0 * od.1 * od.2 * od.3 && forall|k: int|
            0 <= k < v@.len() ==> #[trigger] v@[k] == broadcast_at(y@, yd, od, k),
{
    if !((yd.0 == 1 || yd.0 == od.0) && (yd.1 == 1 || yd.1 == od.1) && (yd.2 == 1 || yd.2 == od.2) && (yd.3 == 1 || yd.3 == od.3)) {
        return Err(crate::convolution_op::KernelError::Shape);
    }
    let total = od.0 * od.1 * od.2 * od.3;
    let yl = y.len();
    let mut r: Vec<T> = Vec::new();
    let mut k: usize = 0;
    while k < total
        invariant
            yl == y@.len(),
            y@.len() == yd.0 * yd.1 * yd.2 * yd.3,
            broadcastable(yd, od),
            total == od.0 * od.1 * od.2 * od.3,
            od.3 * od.2 <= usize::MAX,
            od.3 * od.2 * od.1 <= usize::MAX,
            k <= total,
            r@.len() == k,
            forall|j: int| 0 <= j < k ==> #[trigger] r@[j] == broadcast_at(y@, yd, od, j),
        decreases total - k,
    {
        proof {
            assert(od.0 > 0 && od.1 > 0 && od.2 > 0 && od.3 > 0) by (nonlinear_arith)
                requires
                    k < total,
                    total == od.0 * od.1 * od.2 * od.3,
            ;
            assert(total == od.0 * (od.3 * od.2 * od.1)) by (nonlinear_arith)
                requires
                    total == od.0 * od.1 * od.2 * od.3,
            ;
            assert(od.3 * od.2 > 0 && od.3 * od.2 * od.1 > 0) by (nonlinear_arith)
                requires
                    od.1 > 0 && od.2 > 0 && od.3 > 0,
            ;
            crate::convolution_op::lemma_div_bound(k as int, (od.3 * od.2 * od.1) as int, od.0 as int);
        }
        let w = k % od.3;
        let h = (k / od.3) % od.2;
        let c = (k / (od.3 * od.2)) % od.1;
        let n = k / (od.3 * od.2 * od.1);
        let (n2, c2, h2, w2) = (pick(yd.0, n), pick(yd.1, c), pick(yd.2, h), pick(yd.3, w));
        proof {
            crate::convolution_op::lemma_idx4_bound(yd.0 as int, yd.1 as int, yd.2 as int, yd.3 as int, n2 as int, c2 as int, h2 as int, w2 as int);
            assert(yd.0 * yd.1 * yd.2 * yd.3 == ((yd.0 * yd.1) * yd.2) * yd.3) by (nonlinear_arith);
        }
        r.push(y[((n2 * yd.1 + c2) * yd.2 + h2) * yd.3 + w2]);
        k += 1;
    }
    Ok(r)
}

/// Reads little-endian 32-bit words from a raw payload (the bits of
/// IEEE-754 single floats): word `k` is made of bytes `4k .. 4k + 4`; a
/// trailing partial word is dropped.
pub fn u8_to_words(bytes: &Vec<u8>) -> (r: Vec<u32>)
    ensures
        r@.len() == bytes@.len() / 4,
        forall|k: int| 0 <= k < r@.len() ==> #[trigger] r@[k] as nat == crate::wire::le32(bytes@, 4 * k),
{
    let bl = bytes.len();
    let n = bl / 4;
    let mut r: Vec<u32> = Vec::new();
    let mut k: usize = 0;
    while k < n
        invariant
            n == bytes@.len() / 4,
            bl == bytes@.len(),
            k <= n,
            r@.len() == k,
            forall|j: int| 0 <= j < k ==> #[trigger] r@[j] as nat == crate::wire::le32(bytes@, 4 * j),
        decreases n - k,
    {
        r.push(crate::wire::read_u32_le(bytes, 4 * k));
        k += 1;
    }
    r
}

} // verus!

verus! {

/// Reads little-endian 64-bit integers from a raw payload: integer `k` is
/// made of bytes `8k .. 8k + 8`, as two's complement; a trailing partial
/// integer is dropped.
pub fn u8_to_longs(bytes: &Vec<u8>) -> (r: Vec<i64>)
    ensures
        r@.len() == bytes@.len() / 8,
        forall|k: int| 0 <= k < r@.len() ==> #[trigger] r@[k] == (crate::wire::le64(bytes@, 8 * k) as u64) as i64,
{
    let bl = bytes.len();
    let n = bl / 8;
    let mut r: Vec<i64> = Vec::new();
    let mut k: usize = 0;
    while k < n
        invariant
            n == bytes@.len() / 8,
            bl == bytes@.len(),
            k <= n,
            r@.len() == k,
            forall|j: int| 0 <= j < k ==> #[trigger] r@[j] == (crate::wire::le64(bytes@, 8 * j) as u64) as i64,
        decreases n - k,
    {
        let v = crate::wire::read_u64_le(bytes, 8 * k);
        r.push(v as i64);
        k += 1;
    }
    r
}

} // verus!

verus! {

proof fn lemma_product_append(x: Seq<usize>, y: Seq<usize>)
    ensures
        product(x + y) == product(x) * product(y),
    decreases y.len(),
{
    if y.len() == 0 {
        assert(x + y =~= x);
        assert(product(y) == 1);
        assert(product(x) * 1 == product(x));
    } else {
        assert((x + y).drop_last() =~= x + y.drop_last());
        assert((x + y).last() == y.last());
        lemma_product_append(x, y.drop_last());
        let px = product(x);
        let py = product(y.drop_last());
        let l = y.last() as nat;
        assert(product(x + y) == product(x + y.drop_last()) * l);
        assert(product(y) == py * l);
        assert(px * py * l == px * (py * l)) by (nonlinear_arith);
        assert(product(x + y) == px * py * l);
    }
}

proof fn lemma_product_split(a: Seq<usize>, axis: int)
    requires
        0 <= axis < a.len(),
    ensures
        product(a) == product(a.subrange(0, axis)) * a[axis] * product(a.subrange(axis + 1, a.len() as int)),
{
    let pre = a.subrange(0, axis);
    let post = a.subrange(axis + 1, a.len() as int);
    assert(a =~= (pre + seq![a[axis]]) + post);
    lemma_product_append(pre + seq![a[axis]], post);
    lemma_product_append(pre, seq![a[axis]]);
    assert(seq![a[axis]].drop_last() =~= Seq::<usize>::empty());
    assert(product(Seq::<usize>::empty()) == 1);
    assert(product(seq![a[axis]]) == product(seq![a[axis]].drop_last()) * (a[axis] as nat));
    assert(product(seq![a[axis]]) == a[axis]);
}

/// The product of `a[lo..hi]`, when it fits in `usize`.
fn product_range(a: &Vec<usize>, lo: usize, hi: usize) -> (r: Option<usize>)
    requires
        lo <= hi <= a@.len(),
    ensures
        r matches Some(p) ==> p == product(a@.subrange(lo as int, hi as int)),
        product(a@.subrange(lo as int, hi as int)) <= usize::MAX && (forall|k: int| lo <= k < hi ==> #[trigger] a@[k] > 0)
            ==> r is Some,
{
    let mut p: usize = 1;
    let mut k: usize = lo;
    proof {
        assert(a@.subrange(lo as int, lo as int) =~= Seq::<usize>::empty());
    }
    while k < hi
        invariant
            lo <= k <= hi,
            hi <= a@.len(),
            p == product(a@.subrange(lo as int, k as int)),
        decreases hi - k,
    {
        proof {
            assert(a@.subrange(lo as int, k + 1).drop_last() =~= a@.subrange(lo as int, k as int));
            if product(a@.subrange(lo as int, hi as int)) <= usize::MAX && (forall|j: int| lo <= j < hi ==> #[trigger] a@[j] > 0) {
                let s = a@.subrange(lo as int, hi as int);
                assert(s =~= a@.subrange(lo as int, k + 1) + a@.subrange(k + 1, hi as int));
                lemma_product_append(a@.subrange(lo as int, k + 1), a@.subrange(k + 1, hi as int));
                assert forall|j: int| 0 <= j < a@.subrange(k + 1, hi as int).len() implies #[trigger] a@.subrange(k + 1, hi as int)[j] > 0 by {
                    assert(a@.subrange(k + 1, hi as int)[j] == a@[k + 1 + j]);
                }
                lemma_product_prefix(a@.subrange(k + 1, hi as int), 0);
                let x = product(a@.subrange(lo as int, k + 1));
                let y = product(a@.subrange(k + 1, hi as int));
                assert(x * y >= x) by (nonlinear_arith)
                    requires
                        y >= 1,
                        x >= 0,
                ;
            }
        }
        p = match p.checked_mul(a[k]) {
            Some(q) => q,
            None => {
                return None;
            },
        };
        k += 1;
    }
    Some(p)
}

/// The dims of a concatenation along `axis` agree off the axis.
pub open spec fn concat_compatible(a: Seq<usize>, b: Seq<usize>, axis: int) -> bool {
    a.len() == b.len() && 0 <= axis < a.len() && forall|k: int| 0 <= k < a.len() && k != axis ==> #[trigger] a[k] == b[k]
}

/// Checks two dim lists for a concatenation along `axis` and returns
/// `(outer, ca, cb, inner)`: the product of the dims before the axis, the
/// two sizes along it, and the product of the dims after it. Fails when the
/// ranks differ, the axis is out of range, a dim off the axis differs, or a
/// size does not fit in `usize`.
pub fn concat_dims(a: &Vec<usize>, b: &Vec<usize>, axis: usize) -> (r: Result<(usize, usize, usize, usize), crate::convolution_op::KernelError>)
    ensures
        !concat_compatible(a@, b@, axis as int) ==> r is Err,
        r matches Ok((outer, ca, cb, inner)) ==> concat_compatible(a@, b@, axis as int) && outer == product(
            a@.subrange(0, axis as int),
        ) && inner == product(a@.subrange(axis + 1, a@.len() as int)) && ca == a@[axis as int] && cb
            == b@[axis as int] && product(a@) == outer * ca * inner && product(b@) == outer * cb * inner
            && ca + cb <= usize::MAX && outer * (ca + cb) <= usize::MAX && outer * (ca + cb) * inner <= usize::MAX,
        concat_compatible(a@, b@, axis as int) && (forall|k: int| 0 <= k < a@.len() ==> #[trigger] a@[k] > 0) && (
        forall|k: int| 0 <= k < b@.len() ==> #[trigger] b@[k] > 0) && product(a@) + product(b@) <= usize::MAX
            ==> r is Ok,
{
    if a.len() != b.len() || axis >= a.len() {
        return Err(crate::convolution_op::KernelError::Shape);
    }
    let mut k: usize = 0;
    while k < a.len()
        invariant
            a@.len() == b@.len(),
            axis < a@.len(),
            k <= a@.len(),
            forall|j: int| 0 <= j < k && j != axis ==> #[trigger] a@[j] == b@[j],
        decreases a@.len() - k,
    {
        if k != axis && a[k] != b[k] {
            return Err(crate::convolution_op::KernelError::Shape);
        }
        k += 1;
    }
    let ghost ok = (forall|k: int| 0 <= k < a@.len() ==> #[trigger] a@[k] > 0) && (forall|k: int|
        0 <= k < b@.len() ==> #[trigger] b@[k] > 0) && product(a@) + product(b@) <= usize::MAX;
    let ghost pre = a@.subrange(0, axis as int);
    let ghost post = a@.subrange(axis + 1, a@.len() as int);
    proof {
        lemma_product_split(a@, axis as int);
        lemma_product_split(b@, axis as int);
        assert(b@.subrange(0, axis as int) =~= pre);
        assert(b@.subrange(axis + 1, b@.len() as int) =~= post);
        if ok {
            assert forall|j: int| 0 <= j < pre.len() implies #[trigger] pre[j] > 0 by {}
            assert forall|j: int| 0 <= j < post.len() implies #[trigger] post[j] > 0 by {
                assert(post[j] == a@[axis + 1 + j]);
            }
            lemma_product_prefix(pre, 0);
            lemma_product_prefix(post, 0);
            let x = product(pre) as int;
            let y = product(post) as int;
            let m = a@[axis as int] as int;
            assert(x <= x * m * y && y <= x * m * y && m <= x * m * y) by (nonlinear_arith)
                requires
                    x >= 1,
                    y >= 1,
                    m >= 1,
            ;
            let mb = b@[axis as int] as int;
            assert(mb <= x * mb * y) by (nonlinear_arith)
                requires
                    x >= 1,
                    y >= 1,
                    mb >= 1,
            ;
        }
    }
    let outer = match product_range(a, 0, axis) {
        Some(p) => p,
        None => {
            return Err(crate::convolution_op::KernelError::Shape);
        },
    };
    let inner = match product_range(a, axis + 1, a.len()) {
        Some(p) => p,
        None => {
            return Err(crate::convolution_op::KernelError::Shape);
        },
    };
    let ca = a[axis];
    let cb = b[axis];
    proof {
        let x = outer as int;
        let y = inner as int;
        assert(x * (ca + cb) * y == x * ca * y + x * cb * y) by (nonlinear_arith);
        if ok {
            assert(x * ca * y >= 0 && x * cb * y >= 0) by (nonlinear_arith)
                requires
                    x >= 0,
                    y >= 0,
            ;
            assert(x * (ca + cb) <= x * (ca + cb) * y) by (nonlinear_arith)
                requires
                    x >= 0,
                    y >= 1,
                    ca + cb >= 0,
            ;
        }
    }
    if ca > usize::MAX - cb {
        return Err(crate::convolution_op::KernelError::Shape);
    }
    let cc = ca + cb;
    let oc = match outer.checked_mul(cc) {
        Some(p) => p,
        None => {
            return Err(crate::convolution_op::KernelError::Shape);
        },
    };
    match oc.checked_mul(inner) {
        Some(_) => {},
        None => {
            return Err(crate::convolution_op::KernelError::Shape);
        },
    }
    Ok((outer, ca, cb, inner))
}

} // verus!

verus! {

/// The element data of a tensor: IEEE-754 single floats as their bits,
/// or 64-bit integers.
#[derive(Debug)]
pub enum TensorData {
    Floats(Vec<u32>),
    Longs(Vec<i64>),
}

/// The data type number of single floats.
pub const FLOAT_TYPE: i64 = 1;

/// The data type number of 64-bit integers.
pub const INT64_TYPE: i64 = 7;

/// Every dim is a size that fits in `usize`.
pub open spec fn dims_fit(t: TensorProto) -> bool {
    forall|k: int| 0 <= k < t.dims@.len() ==> 0 <= #[trigger] t.dims@[k] && t.dims@[k] <= usize::MAX
}

pub open spec fn dims_usize(t: TensorProto) -> Seq<usize> {
    t.dims@.map_values(|d: i64| d as usize)
}

/// Little-endian 32-bit words of a raw payload.
pub open spec fn raw_words(b: Seq<u8>) -> Seq<u32> {
    Seq::new(b.len() / 4, |k: int| crate::wire::le32(b, 4 * k) as u32)
}

/// Little-endian 64-bit integers of a raw payload.
pub open spec fn raw_longs(b: Seq<u8>) -> Seq<i64> {
    Seq::new(b.len() / 8, |k: int| (crate::wire::le64(b, 8 * k) as u64) as i64)
}

/// The float payload: the raw bytes when present, else `float_data`.
pub open spec fn float_payload(t: TensorProto) -> Seq<u32> {
    match t.raw_data {
        Some(b) => raw_words(b@),
        None => t.float_data@,
    }
}

/// The integer payload: the raw bytes when present, else `int64_data`.
pub open spec fn long_payload(t: TensorProto) -> Seq<i64> {
    match t.raw_data {
        Some(b) => raw_longs(b@),
        None => t.int64_data@,
    }
}

/// The number of elements the populated payload holds.
pub open spec fn payload_count(t: TensorProto) -> int {
    if t.data_type == FLOAT_TYPE {
        float_payload(t).len() as int
    } else {
        long_payload(t).len() as int
    }
}

/// A raw payload, when present, holds a whole number of elements: its
/// length is the element size times the element count.
pub open spec fn raw_whole(t: TensorProto) -> bool {
    match t.raw_data {
        Some(b) => if t.data_type == FLOAT_TYPE {
            b@.len() % 4 == 0
        } else {
            b@.len() % 8 == 0
        },
        None => true,
    }
}

/// `data` is the payload of `t` for its data type.
pub open spec fn data_of(data: TensorData, t: TensorProto) -> bool {
    match data {
        TensorData::Floats(w) => t.data_type == FLOAT_TYPE && w@ == float_payload(t),
        TensorData::Longs(v) => t.data_type == INT64_TYPE && v@ == long_payload(t),
    }
}

proof fn lemma_product_zero(s: Seq<usize>, z: int)
    requires
        0 <= z < s.len(),
        s[z] == 0,
    ensures
        product(s) == 0,
    decreases s.len(),
{
    if z < s.len() - 1 {
        lemma_product_zero(s.drop_last(), z);
        assert(product(s) == product(s.drop_last()) * (s.last() as nat));
        assert(0 * (s.last() as nat) == 0);
    } else {
        assert(product(s) == product(s.drop_last()) * (s.last() as nat));
        assert(s.last() == 0);
        assert(product(s.drop_last()) * 0 == 0);
    }
}

/// Whether the dims multiply to `count`.
fn dims_match_count(dims: &Vec<usize>, count: usize) -> (r: bool)
    ensures
        r == (product(dims@) == count),
{
    let mut k: usize = 0;
    while k < dims.len()
        invariant
            k <= dims@.len(),
            forall|j: int| 0 <= j < k ==> #[trigger] dims@[j] > 0,
        decreases dims@.len() - k,
    {
        if dims[k] == 0 {
            proof {
                lemma_product_zero(dims@, k as int);
            }
            return count == 0;
        }
        k += 1;
    }
    proof {
        lemma_product_prefix(dims@, 0);
    }
    if count == 0 {
        return false;
    }
    let mut p: usize = 1;
    k = 0;
    assert(dims@.subrange(0, 0) =~= Seq::<usize>::empty());
    while k < dims.len()
        invariant
            k <= dims@.len(),
            forall|j: int| 0 <= j < dims@.len() ==> #[trigger] dims@[j] > 0,
            p == product(dims@.subrange(0, k as int)),
            p <= count,
        decreases dims@.len() - k,
    {
        proof {
            assert(dims@.subrange(0, k + 1).drop_last() =~= dims@.subrange(0, k as int));
            lemma_product_prefix(dims@, k + 1);
        }
        match p.checked_mul(dims[k]) {
            Some(q) => {
                if q > count {
                    return false;
                }
                p = q;
            },
            None => {
                return false;
            },
        }
        k += 1;
    }
    assert(dims@.subrange(0, k as int) =~= dims@);
    p == count
}

/// The dims and the element data of an initializer: the raw payload when
/// present, else `float_data` or `int64_data` by data type. Fails on a
/// negative dim, a data type other than single float or 64-bit integer,
/// or an element count that differs from the product of the dims.
pub fn tensor_payload(t: &TensorProto) -> (r: Result<(Vec<usize>, TensorData), crate::convolution_op::KernelError>)
    ensures
        r is Ok <==> dims_fit(*t) && (t.data_type == FLOAT_TYPE || t.data_type == INT64_TYPE) && product(
            dims_usize(*t),
        ) == payload_count(*t) && raw_whole(*t),
        r matches Ok((dims, data)) ==> dims@ == dims_usize(*t) && data_of(data, *t),
{
    let mut dims: Vec<usize> = Vec::new();
    let mut k: usize = 0;
    while k < t.dims.len()
        invariant
            k <= t.dims@.len(),
            dims@.len() == k,
            forall|j: int| 0 <= j < k ==> 0 <= #[trigger] t.dims@[j] && t.dims@[j] <= usize::MAX && dims@[j] == t.dims@[j] as usize,
        decreases t.dims@.len() - k,
    {
        let d = t.dims[k];
        if d < 0 || d as u64 > usize::MAX as u64 {
            return Err(crate::convolution_op::KernelError::Shape);
        }
        dims.push(d as usize);
        k += 1;
    }
    assert(dims@ =~= dims_usize(*t));
    let data = if t.data_type == FLOAT_TYPE {
        match &t.raw_data {
            Some(b) => {
                if b.len() % 4 != 0 {
                    return Err(crate::convolution_op::KernelError::Shape);
                }
                let w = u8_to_words(b);
                assert(w@ =~= raw_words(b@));
                TensorData::Floats(w)
            },
            None => TensorData::Floats(t.float_data.clone()),
        }
    } else if t.data_type == INT64_TYPE {
        match &t.raw_data {
            Some(b) => {
                if b.len() % 8 != 0 {
                    return Err(crate::convolution_op::KernelError::Shape);
                }
                let v = u8_to_longs(b);
                assert(v@ =~= raw_longs(b@));
                TensorData::Longs(v)
            },
            None => TensorData::Longs(t.int64_data.clone()),
        }
    } else {
        return Err(crate::convolution_op::KernelError::Shape);
    };
    let count = match &data {
        TensorData::Floats(w) => w.len(),
        TensorData::Longs(v) => v.len(),
    };
    if !dims_match_count(&dims, count) {
        return Err(crate::convolution_op::KernelError::Shape);
    }
    Ok((dims, data))
}

} // verus!

verus! {

/// `batches` runs the levels in order: batch `l` holds, in increasing
/// order, exactly the nodes of level `l`.
pub open spec fn batches_of(lv: Seq<usize>, batches: Seq<Seq<usize>>) -> bool {
    &&& forall|l: int, k: int|
        0 <= l < batches.len() && 0 <= k < batches[l].len() ==> #[trigger] batches[l][k] < lv.len()
            && lv[batches[l][k] as int] == l
    &&& forall|l: int, a: int, b: int| 0 <= l < batches.len() && 0 <= a < b < batches[l].len() ==> #[trigger] batches[l][a] < #[trigger] batches[l][b]
    &&& forall|i: int| 0 <= i < lv.len() ==> #[trigger] lv[i] < batches.len() && batches[lv[i] as int].contains(i as usize)
}

/// Groups the nodes by level: batch `l` lists the nodes of level `l` in
/// increasing order, and there is one batch per level up to the highest.
pub fn level_batches(levels: &Vec<usize>) -> (r: Vec<Vec<usize>>)
    requires
        forall|j: int| 0 <= j < levels@.len() ==> #[trigger] levels@[j] < usize::MAX,
    ensures
        batches_of(levels@, r@.map_values(|b: Vec<usize>| b@)),
{
    let n = levels.len();
    let mut depth: usize = 0;
    let mut i: usize = 0;
    while i < n
        invariant
            n == levels@.len(),
            i <= n,
            forall|j: int| 0 <= j < n ==> #[trigger] levels@[j] < usize::MAX,
            forall|j: int| 0 <= j < i ==> #[trigger] levels@[j] < depth,
            depth == 0 || exists|j: int| 0 <= j < i && levels@[j] + 1 == depth,
        decreases n - i,
    {
        if levels[i] >= depth {
            depth = levels[i] + 1;
        }
        i += 1;
    }
    let mut r: Vec<Vec<usize>> = Vec::new();
    let mut l: usize = 0;
    while l < depth
        invariant
            n == levels@.len(),
            l <= depth,
            r@.len() == l,
            forall|j: int| 0 <= j < n ==> #[trigger] levels@[j] < depth,
            forall|m: int, k: int|
                0 <= m < l && 0 <= k < r@[m]@.len() ==> #[trigger] r@[m]@[k] < n && levels@[r@[m]@[k] as int] == m,
            forall|m: int, a: int, b: int| 0 <= m < l && 0 <= a < b < r@[m]@.len() ==> #[trigger] r@[m]@[a] < #[trigger] r@[m]@[b],
            forall|j: int| 0 <= j < n && levels@[j] < l ==> #[trigger] r@[levels@[j] as int]@.contains(j as usize),
        decreases depth - l,
    {
        let mut batch: Vec<usize> = Vec::new();
        let mut j: usize = 0;
        while j < n
            invariant
                n == levels@.len(),
                j <= n,
                forall|k: int| 0 <= k < batch@.len() ==> #[trigger] batch@[k] < j && levels@[batch@[k] as int] == l,
                forall|a: int, b: int| 0 <= a < b < batch@.len() ==> batch@[a] < batch@[b],
                forall|m: int| 0 <= m < j && #[trigger] levels@[m] == l ==> batch@.contains(m as usize),
            decreases n - j,
        {
            if levels[j] == l {
                let ghost before = batch@;
                batch.push(j);
                proof {
                    assert forall|m: int| 0 <= m < j + 1 && #[trigger] levels@[m] == l implies batch@.contains(m as usize) by {
                        if m < j {
                            assert(before.contains(m as usize));
                            let k = choose|k: int| 0 <= k < before.len() && before[k] == m as usize;
                            assert(batch@[k] == m as usize);
                        } else {
                            assert(batch@[before.len() as int] == j);
                        }
                    }
                }
            }
            j += 1;
        }
        let ghost before = r@;
        r.push(batch);
        proof {
            assert forall|m: int| 0 <= m < l + 1 implies #[trigger] r@[m] == (if m < l { before[m] } else { r@[l as int] }) by {}
            assert forall|jj: int| 0 <= jj < n && levels@[jj] < l + 1 implies #[trigger] r@[levels@[jj] as int]@.contains(jj as usize) by {
                if levels@[jj] < l {
                    assert(r@[levels@[jj] as int] == before[levels@[jj] as int]);
                }
            }
        }
        l += 1;
    }
    proof {
        let b = r@.map_values(|v: Vec<usize>| v@);
        assert forall|m: int| 0 <= m < r@.len() implies #[trigger] b[m] == r@[m]@ by {}
    }
    r
}

/// Node `i` stands somewhere in the batches.
pub open spec fn has_place(batches: Seq<Seq<usize>>, i: int) -> bool {
    exists|l: int, k: int| 0 <= l < batches.len() && 0 <= k < batches[l].len() && #[trigger] batches[l][k] == i as usize
}

/// Running the batches in order runs every node exactly once, and each
/// node after all its inputs exist: when `lv` is a valid leveling and
/// `batches` groups the nodes by level, each node stands at exactly one
/// place of the batches, and each of its inputs is available from the
/// start or produced by a node of an earlier batch.
pub proof fn lemma_batches_run_each_node_once_after_inputs(
    nodes: Seq<NodeProto>,
    available: Seq<String>,
    lv: Seq<usize>,
    batches: Seq<Seq<usize>>,
)
    requires
        valid_levels(nodes, available, lv),
        batches_of(lv, batches),
        nodes.len() <= usize::MAX,
    ensures
        forall|i: int| 0 <= i < nodes.len() ==> #[trigger] has_place(batches, i),
        forall|l1: int, k1: int, l2: int, k2: int|
            0 <= l1 < batches.len() && 0 <= k1 < batches[l1].len() && 0 <= l2 < batches.len() && 0 <= k2
                < batches[l2].len() && #[trigger] batches[l1][k1] == #[trigger] batches[l2][k2] ==> l1 == l2 && k1
                == k2,
        forall|l: int, k: int, j: int|
            0 <= l < batches.len() && 0 <= k < batches[l].len() && 0 <= j < nodes[batches[l][k] as int].input@.len()
                ==> name_in(available, #[trigger] nodes[batches[l][k] as int].input@[j]@) || exists|l2: int, k2: int|
                0 <= l2 < l && 0 <= k2 < batches[l2].len() && name_in(
                    nodes[#[trigger] batches[l2][k2] as int].output@,
                    nodes[batches[l][k] as int].input@[j]@,
                ),
{
    assert forall|i: int| 0 <= i < nodes.len() implies #[trigger] has_place(batches, i) by {
        let l = lv[i] as int;
        assert(lv[i] < batches.len() && batches[l].contains(i as usize));
        let k = choose|k: int| 0 <= k < batches[l].len() && batches[l][k] == i as usize;
        assert(batches[l][k] == i as usize);
    }
    assert forall|l1: int, k1: int, l2: int, k2: int|
        0 <= l1 < batches.len() && 0 <= k1 < batches[l1].len() && 0 <= l2 < batches.len() && 0 <= k2
            < batches[l2].len() && #[trigger] batches[l1][k1] == #[trigger] batches[l2][k2] implies l1 == l2 && k1
            == k2 by {
        assert(lv[batches[l1][k1] as int] == l1);
        assert(lv[batches[l2][k2] as int] == l2);
        if k1 < k2 {
            assert(batches[l1][k1] < batches[l1][k2]);
        } else if k2 < k1 {
            assert(batches[l1][k2] < batches[l1][k1]);
        }
    }
    assert forall|l: int, k: int, j: int|
        0 <= l < batches.len() && 0 <= k < batches[l].len() && 0 <= j < nodes[batches[l][k] as int].input@.len()
            implies name_in(available, #[trigger] nodes[batches[l][k] as int].input@[j]@) || exists|l2: int, k2: int|
            0 <= l2 < l && 0 <= k2 < batches[l2].len() && name_in(
                nodes[#[trigger] batches[l2][k2] as int].output@,
                nodes[batches[l][k] as int].input@[j]@,
            ) by {
        let i = batches[l][k] as int;
        assert(i < lv.len() && lv[i] == l);
        let x = nodes[i].input@[j]@;
        assert(inputs_before(nodes, available, placed(lv), i));
        assert(placed(lv)[i] == Some(lv[i]));
        if !name_in(available, x) {
            assert(produced_below(nodes, placed(lv), lv[i] as int, x));
            let m = choose|m: int| 0 <= m < nodes.len() && level_lt(#[trigger] placed(lv)[m], lv[i] as int) && name_in(nodes[m].output@, x);
            assert(placed(lv)[m] == Some(lv[m]));
            let l2 = lv[m] as int;
            assert(lv[m] < batches.len() && batches[l2].contains(m as usize));
            let k2 = choose|k2: int| 0 <= k2 < batches[l2].len() && batches[l2][k2] == m as usize;
            assert(batches[l2][k2] == m as usize);
            assert(batches[l2][k2] as int == m);
            assert(l2 < l);
        }
    }
}

} // verus!

verus! {

/// The operators of the kernel catalog.
#[derive(Debug, Clone, Copy, PartialEq, Eq, Structural)]
pub enum OpKind {
    Conv,
    MaxPool,
    Relu,
    GlobalAveragePool,
    Dropout,
    Concat,
    Softmax,
    Reshape,
    Add,
    MatMul,
}

/// The catalog operator that an `op_type` names.
pub open spec fn op_kind_of(op: Seq<char>) -> Option<OpKind> {
    if op == seq!['C', 'o', 'n', 'v'] {
        Some(OpKind::Conv)
    } else if op == seq!['M', 'a', 'x', 'P', 'o', 'o', 'l'] {
        Some(OpKind::MaxPool)
    } else if op == seq!['R', 'e', 'l', 'u'] {
        Some(OpKind::Relu)
    } else if op == seq!['G', 'l', 'o', 'b', 'a', 'l', 'A', 'v', 'e', 'r', 'a', 'g', 'e', 'P', 'o', 'o', 'l'] {
        Some(OpKind::GlobalAveragePool)
    } else if op == seq!['D', 'r', 'o', 'p', 'o', 'u', 't'] {
        Some(OpKind::Dropout)
    } else if op == seq!['C', 'o', 'n', 'c', 'a', 't'] {
        Some(OpKind::Concat)
    } else if op == seq!['S', 'o', 'f', 't', 'm', 'a', 'x'] {
        Some(OpKind::Softmax)
    } else if op == seq!['R', 'e', 's', 'h', 'a', 'p', 'e'] {
        Some(OpKind::Reshape)
    } else if op == seq!['A', 'd', 'd'] {
        Some(OpKind::Add)
    } else if op == seq!['M', 'a', 't', 'M', 'u', 'l'] {
        Some(OpKind::MatMul)
    } else {
        None
    }
}

/// The catalog operator of a node's `op_type`; an operator outside the
/// catalog is refused.
pub fn op_kind(op_type: &String) -> (r: Result<OpKind, ExecError>)
    ensures
        r matches Ok(k) ==> op_kind_of(op_type@) == Some(k),
        r is Err <==> op_kind_of(op_type@) is None,
        r is Err ==> r == Err::<OpKind, ExecError>(ExecError::UnknownOp),
{
    if name_is(op_type, vec!['C', 'o', 'n', 'v']) {
        Ok(OpKind::Conv)
    } else if name_is(op_type, vec!['M', 'a', 'x', 'P', 'o', 'o', 'l']) {
        Ok(OpKind::MaxPool)
    } else if name_is(op_type, vec!['R', 'e', 'l', 'u']) {
        Ok(OpKind::Relu)
    } else if name_is(op_type, vec!['G', 'l', 'o', 'b', 'a', 'l', 'A', 'v', 'e', 'r', 'a', 'g', 'e', 'P', 'o', 'o', 'l']) {
        Ok(OpKind::GlobalAveragePool)
    } else if name_is(op_type, vec!['D', 'r', 'o', 'p', 'o', 'u', 't']) {
        Ok(OpKind::Dropout)
    } else if name_is(op_type, vec!['C', 'o', 'n', 'c', 'a', 't']) {
        Ok(OpKind::Concat)
    } else if name_is(op_type, vec!['S', 'o', 'f', 't', 'm', 'a', 'x']) {
        Ok(OpKind::Softmax)
    } else if name_is(op_type, vec!['R', 'e', 's', 'h', 'a', 'p', 'e']) {
        Ok(OpKind::Reshape)
    } else if name_is(op_type, vec!['A', 'd', 'd']) {
        Ok(OpKind::Add)
    } else if name_is(op_type, vec!['M', 'a', 't', 'M', 'u', 'l']) {
        Ok(OpKind::MatMul)
    } else {
        Err(ExecError::UnknownOp)
    }
}

/// The dims of a caller input whose declared dims are `dims` and which
/// carries `len` values: every dim must be a size, and they must multiply
/// to `len`.
pub fn input_dims(dims: &Vec<i64>, len: usize) -> (r: Result<Vec<usize>, ExecError>)
    ensures
        r is Ok <==> (forall|k: int| 0 <= k < dims@.len() ==> 0 <= #[trigger] dims@[k] && dims@[k] <= usize::MAX)
            && product(dims@.map_values(|d: i64| d as usize)) == len,
        r matches Ok(d) ==> d@ == dims@.map_values(|x: i64| x as usize),
        r is Err ==> r == Err::<Vec<usize>, ExecError>(ExecError::KernelFailure),
{
    let mut out: Vec<usize> = Vec::new();
    let mut k: usize = 0;
    while k < dims.len()
        invariant
            k <= dims@.len(),
            out@.len() == k,
            forall|j: int| 0 <= j < k ==> 0 <= #[trigger] dims@[j] && dims@[j] <= usize::MAX && out@[j] == dims@[j] as usize,
        decreases dims@.len() - k,
    {
        let d = dims[k];
        if d < 0 || d as u64 > usize::MAX as u64 {
            return Err(ExecError::KernelFailure);
        }
        out.push(d as usize);
        k += 1;
    }
    assert(out@ =~= dims@.map_values(|x: i64| x as usize));
    if !dims_match_count(&out, len) {
        return Err(ExecError::KernelFailure);
    }
    Ok(out)
}

/// Some initializer is named `n`.
pub open spec fn is_initializer(initializers: Seq<TensorProto>, n: Seq<char>) -> bool {
    exists|k: int| 0 <= k < initializers.len() && #[trigger] initializers[k].name@ == n
}

/// The first graph input that is not an initializer: the one the caller
/// supplies.
pub fn first_free_input(inputs: &Vec<ValueInfoProto>, initializers: &Vec<TensorProto>) -> (r: Option<usize>)
    ensures
        r matches Some(i) ==> i < inputs@.len() && !is_initializer(initializers@, inputs@[i as int].name@)
            && forall|j: int| 0 <= j < i ==> is_initializer(initializers@, #[trigger] inputs@[j].name@),
        r is None ==> forall|j: int| 0 <= j < inputs@.len() ==> is_initializer(initializers@, #[trigger] inputs@[j].name@),
{
    let mut i: usize = 0;
    while i < inputs.len()
        invariant
            i <= inputs@.len(),
            forall|j: int| 0 <= j < i ==> is_initializer(initializers@, #[trigger] inputs@[j].name@),
        decreases inputs@.len() - i,
    {
        if !already_into_initializer(initializers, &inputs[i].name) {
            return Some(i);
        }
        i += 1;
    }
    None
}

} // verus!
