//! What the membership circuit consumes and how it selects: the selector bits
//! of an index, leaf to root, and the arithmetic that places the running value
//! and the sibling at each level.
use crate::tree::bit_at;
use vstd::prelude::*;

verus! {

/// The selector bits of `idx` for a tree of depth `depth`, leaf to root: bit
/// `i` decides the order of the pair formed at fold level `i`.
pub fn selector_bits(idx: u32, depth: usize) -> (r: Vec<bool>)
    requires
        depth <= 32,
    ensures
        r@.len() == depth,
        forall|i: int| 0 <= i < depth ==> #[trigger] r@[i] == bit_at(idx, i as nat),
{
    let mut r: Vec<bool> = Vec::new();
    let mut i: usize = 0;
    while i < depth
        invariant
            0 <= i <= depth <= 32,
            r@.len() == i,
            forall|j: int| 0 <= j < i ==> #[trigger] r@[j] == bit_at(idx, j as nat),
        decreases depth - i,
    {
        r.push((idx >> (i as u32)) & 1u32 == 1u32);
        i = i + 1;
    }
    r
}

/// The left input of a level's hash in the circuit:
/// `(1 - bit) * running + bit * sibling`.
pub open spec fn circuit_left(bit: int, running: int, sibling: int) -> int {
    (1 - bit) * running + bit * sibling
}

/// The right input of a level's hash in the circuit:
/// `bit * running + (1 - bit) * sibling`.
pub open spec fn circuit_right(bit: int, running: int, sibling: int) -> int {
    bit * running + (1 - bit) * sibling
}

/// With a selector of 0 or 1 the circuit's two products place the running
/// value and the sibling exactly as the plain fold does: on the left and the
/// right for 0, the other way round for 1. The identities hold as polynomials,
/// so they hold in the scalar field too. For any other selector value they
/// need not: the circuit itself does not constrain selectors to be bits.
pub proof fn lemma_selector_algebra(bit: int, running: int, sibling: int)
    ensures
        bit == 0 ==> circuit_left(bit, running, sibling) == running && circuit_right(
            bit,
            running,
            sibling,
        ) == sibling,
        bit == 1 ==> circuit_left(bit, running, sibling) == sibling && circuit_right(
            bit,
            running,
            sibling,
        ) == running,
        circuit_left(bit, running, sibling) + circuit_right(bit, running, sibling) == running
            + sibling,
{
    if bit == 1 {
        assert((1 - bit) * running == 0) by (nonlinear_arith)
            requires
                bit == 1,
        ;
        assert(bit * sibling == sibling) by (nonlinear_arith)
            requires
                bit == 1,
        ;
        assert(bit * running == running) by (nonlinear_arith)
            requires
                bit == 1,
        ;
        assert((1 - bit) * sibling == 0) by (nonlinear_arith)
            requires
                bit == 1,
        ;
    }
    assert(circuit_left(bit, running, sibling) + circuit_right(bit, running, sibling) == running
        + sibling) by (nonlinear_arith);
}

/// A wire of the membership circuit. `Product(k)` is the output of the `k`-th
/// multiplication and `Hashed(i)` the output of the hash at level `i`.
#[derive(Clone, Copy, Debug, PartialEq, Eq)]
pub enum Wire {
    One,
    Leaf,
    Bit(usize),
    Sibling(usize),
    Product(usize),
    Hashed(usize),
}

/// A step of the membership circuit.
#[derive(Clone, Copy, Debug, PartialEq, Eq)]
pub enum Gate {
    /// A multiplication `(1 - a) * b`.
    MultiplyOneMinus(Wire, Wire),
    /// A multiplication `a * b`.
    Multiply(Wire, Wire),
    /// The hash gadget applied to `(a + b, c + d)`.
    HashSums(Wire, Wire, Wire, Wire),
    /// The constraint that the wire equals the public root.
    ConstrainRoot(Wire),
}

/// The running value entering level `i`: the leaf, then each level's hash.
pub open spec fn running(i: int) -> Wire {
    if i == 0 {
        Wire::Leaf
    } else {
        Wire::Hashed((i - 1) as usize)
    }
}

/// The five gates of level `i`, in order: the four products
/// `(1 - bit) * running`, `bit * sibling`, `bit * running`,
/// `(1 - bit) * sibling`, then the hash of the two sums.
pub open spec fn level_gates(i: int) -> Seq<Gate> {
    let b = Wire::Bit(i as usize);
    let s = Wire::Sibling(i as usize);
    let p = running(i);
    seq![
        Gate::MultiplyOneMinus(b, p),
        Gate::Multiply(b, s),
        Gate::Multiply(b, p),
        Gate::MultiplyOneMinus(b, s),
        Gate::HashSums(
            Wire::Product((4 * i) as usize),
            Wire::Product((4 * i + 1) as usize),
            Wire::Product((4 * i + 2) as usize),
            Wire::Product((4 * i + 3) as usize),
        ),
    ]
}

fn running_wire(i: usize) -> (r: Wire)
    ensures
        r == running(i as int),
{
    if i == 0 {
        Wire::Leaf
    } else {
        Wire::Hashed(i - 1)
    }
}

/// The membership circuit for a tree of depth `depth`, as a list of gates:
/// five gates per level, leaf to root, then the root constraint.
pub fn membership_gates(depth: usize) -> (r: Vec<Gate>)
    requires
        depth <= 32,
    ensures
        r@.len() == 5 * depth + 1,
        forall|i: int, k: int|
            0 <= i < depth && 0 <= k < 5 ==> #[trigger] r@[5 * i + k] == level_gates(i)[k],
        r@[5 * depth as int] == Gate::ConstrainRoot(running(depth as int)),
{
    let mut r: Vec<Gate> = Vec::new();
    let mut i: usize = 0;
    while i < depth
        invariant
            0 <= i <= depth <= 32,
            r@.len() == 5 * i,
            forall|j: int, k: int|
                0 <= j < i && 0 <= k < 5 ==> #[trigger] r@[5 * j + k] == level_gates(j)[k],
        decreases depth - i,
    {
        let ghost before = r@;
        let b = Wire::Bit(i);
        let s = Wire::Sibling(i);
        let p = running_wire(i);
        r.push(Gate::MultiplyOneMinus(b, p));
        r.push(Gate::Multiply(b, s));
        r.push(Gate::Multiply(b, p));
        r.push(Gate::MultiplyOneMinus(b, s));
        r.push(
            Gate::HashSums(
                Wire::Product(4 * i),
                Wire::Product(4 * i + 1),
                Wire::Product(4 * i + 2),
                Wire::Product(4 * i + 3),
            ),
        );
        assert forall|j: int, k: int| 0 <= j < i + 1 && 0 <= k < 5 implies #[trigger] r@[5 * j + k]
            == level_gates(j)[k] by {
            if j < i {
                assert(r@[5 * j + k] == before[5 * j + k]);
            } else {
                assert(k == 0 || k == 1 || k == 2 || k == 3 || k == 4);
            }
        }
        i = i + 1;
    }
    r.push(Gate::ConstrainRoot(running_wire(depth)));
    r
}

/// What a circuit evaluation has produced so far: the products, then the
/// level hashes, each in order.
pub type CircuitState = (Seq<int>, Seq<int>);

/// The value a wire carries, given the committed leaf, selector bits and
/// siblings, and the products and hashes produced so far.
pub open spec fn wire_value(
    w: Wire,
    leaf: int,
    bits: Seq<int>,
    sibs: Seq<int>,
    st: CircuitState,
) -> int {
    match w {
        Wire::One => 1,
        Wire::Leaf => leaf,
        Wire::Bit(i) => bits[i as int],
        Wire::Sibling(i) => sibs[i as int],
        Wire::Product(k) => st.0[k as int],
        Wire::Hashed(i) => st.1[i as int],
    }
}

/// One gate's effect on the state, with `h` the hash gadget's function.
pub open spec fn gate_step(
    g: Gate,
    h: spec_fn(int, int) -> int,
    leaf: int,
    bits: Seq<int>,
    sibs: Seq<int>,
    st: CircuitState,
) -> CircuitState {
    match g {
        Gate::MultiplyOneMinus(a, b) => (
            st.0.push((1 - wire_value(a, leaf, bits, sibs, st)) * wire_value(b, leaf, bits, sibs, st)),
            st.1,
        ),
        Gate::Multiply(a, b) => (
            st.0.push(wire_value(a, leaf, bits, sibs, st) * wire_value(b, leaf, bits, sibs, st)),
            st.1,
        ),
        Gate::HashSums(a, b, c, d) => (
            st.0,
            st.1.push(
                h(
                    wire_value(a, leaf, bits, sibs, st) + wire_value(b, leaf, bits, sibs, st),
                    wire_value(c, leaf, bits, sibs, st) + wire_value(d, leaf, bits, sibs, st),
                ),
            ),
        ),
        Gate::ConstrainRoot(_) => st,
    }
}

/// The state after the first `n` gates of `gs`.
pub open spec fn run_gates(
    gs: Seq<Gate>,
    h: spec_fn(int, int) -> int,
    leaf: int,
    bits: Seq<int>,
    sibs: Seq<int>,
    n: nat,
) -> CircuitState
    decreases n,
{
    if n == 0 {
        (Seq::empty(), Seq::empty())
    } else {
        gate_step(gs[n - 1], h, leaf, bits, sibs, run_gates(gs, h, leaf, bits, sibs, (n - 1) as nat))
    }
}

/// The running value after `n` levels computed as the circuit does.
pub open spec fn circuit_fold(
    h: spec_fn(int, int) -> int,
    leaf: int,
    bits: Seq<int>,
    sibs: Seq<int>,
    n: nat,
) -> int
    decreases n,
{
    if n == 0 {
        leaf
    } else {
        let p = circuit_fold(h, leaf, bits, sibs, (n - 1) as nat);
        let b = bits[n - 1];
        let s = sibs[n - 1];
        h(circuit_left(b, p, s), circuit_right(b, p, s))
    }
}

/// The leaf-first fold under `h`: at level `i` the running value goes right
/// of sibling `i` where bit `i` is 1, left of it otherwise.
pub open spec fn select_fold(
    h: spec_fn(int, int) -> int,
    leaf: int,
    bits: Seq<int>,
    sibs: Seq<int>,
    n: nat,
) -> int
    decreases n,
{
    if n == 0 {
        leaf
    } else {
        let p = select_fold(h, leaf, bits, sibs, (n - 1) as nat);
        if bits[n - 1] == 1 {
            h(sibs[n - 1], p)
        } else {
            h(p, sibs[n - 1])
        }
    }
}

proof fn lemma_gates_levels(
    gs: Seq<Gate>,
    h: spec_fn(int, int) -> int,
    leaf: int,
    bits: Seq<int>,
    sibs: Seq<int>,
    depth: nat,
    i: nat,
)
    requires
        i <= depth <= 32,
        gs.len() == 5 * depth + 1,
        forall|a: int, k: int|
            0 <= a < depth && 0 <= k < 5 ==> #[trigger] gs[5 * a + k] == level_gates(a)[k],
    ensures
        run_gates(gs, h, leaf, bits, sibs, 5 * i).0.len() == 4 * i,
        run_gates(gs, h, leaf, bits, sibs, 5 * i).1.len() == i,
        wire_value(running(i as int), leaf, bits, sibs, run_gates(gs, h, leaf, bits, sibs, 5 * i))
            == circuit_fold(h, leaf, bits, sibs, i),
    decreases i,
{
    if i > 0 {
        let jn = (i - 1) as nat;
        let j: int = jn as int;
        lemma_gates_levels(gs, h, leaf, bits, sibs, depth, jn);
        let st0 = run_gates(gs, h, leaf, bits, sibs, 5 * jn);
        let p = circuit_fold(h, leaf, bits, sibs, jn);
        let b = bits[j];
        let s = sibs[j];
        assert(gs[5 * j + 0] == level_gates(j)[0]);
        assert(gs[5 * j + 1] == level_gates(j)[1]);
        assert(gs[5 * j + 2] == level_gates(j)[2]);
        assert(gs[5 * j + 3] == level_gates(j)[3]);
        assert(gs[5 * j + 4] == level_gates(j)[4]);
        let st1 = run_gates(gs, h, leaf, bits, sibs, (5 * j + 1) as nat);
        let st2 = run_gates(gs, h, leaf, bits, sibs, (5 * j + 2) as nat);
        let st3 = run_gates(gs, h, leaf, bits, sibs, (5 * j + 3) as nat);
        let st4 = run_gates(gs, h, leaf, bits, sibs, (5 * j + 4) as nat);
        let st5 = run_gates(gs, h, leaf, bits, sibs, (5 * j + 5) as nat);
        assert(st1 == gate_step(gs[5 * j + 0], h, leaf, bits, sibs, st0));
        assert(st2 == gate_step(gs[5 * j + 1], h, leaf, bits, sibs, st1));
        assert(st3 == gate_step(gs[5 * j + 2], h, leaf, bits, sibs, st2));
        assert(st4 == gate_step(gs[5 * j + 3], h, leaf, bits, sibs, st3));
        assert(st5 == gate_step(gs[5 * j + 4], h, leaf, bits, sibs, st4));
        assert(wire_value(running(j), leaf, bits, sibs, st1) == p);
        assert(wire_value(running(j), leaf, bits, sibs, st2) == p);
        assert(st1.0[4 * j] == (1 - b) * p);
        assert(st2.0[4 * j + 1] == b * s);
        assert(st3.0[4 * j + 2] == b * p);
        assert(st4.0[4 * j + 3] == (1 - b) * s);
        assert(st4.0[4 * j] == (1 - b) * p);
        assert(st4.0[4 * j + 1] == b * s);
        assert(st5.1[j] == h((1 - b) * p + b * s, b * p + (1 - b) * s));
        assert(5 * i == 5 * j + 5);
    }
}

proof fn lemma_circuit_fold_selects(
    h: spec_fn(int, int) -> int,
    leaf: int,
    bits: Seq<int>,
    sibs: Seq<int>,
    n: nat,
)
    requires
        n <= bits.len(),
        forall|i: int| 0 <= i < n ==> #[trigger] bits[i] == 0 || bits[i] == 1,
    ensures
        circuit_fold(h, leaf, bits, sibs, n) == select_fold(h, leaf, bits, sibs, n),
    decreases n,
{
    if n > 0 {
        lemma_circuit_fold_selects(h, leaf, bits, sibs, (n - 1) as nat);
        let p = circuit_fold(h, leaf, bits, sibs, (n - 1) as nat);
        lemma_selector_algebra(bits[n - 1], p, sibs[n - 1]);
    }
}

/// Circuit equivalence: evaluating the membership circuit's gates, with `h`
/// as the hash gadget and every selector 0 or 1, puts on the wire that the
/// last gate constrains to the root exactly the leaf-first fold of the leaf
/// with the siblings under `h`.
pub proof fn lemma_gates_compute_fold(
    gs: Seq<Gate>,
    h: spec_fn(int, int) -> int,
    leaf: int,
    bits: Seq<int>,
    sibs: Seq<int>,
    depth: nat,
)
    requires
        depth <= 32,
        bits.len() >= depth,
        gs.len() == 5 * depth + 1,
        forall|i: int, k: int|
            0 <= i < depth && 0 <= k < 5 ==> #[trigger] gs[5 * i + k] == level_gates(i)[k],
        gs[5 * depth as int] == Gate::ConstrainRoot(running(depth as int)),
        forall|i: int| 0 <= i < depth ==> #[trigger] bits[i] == 0 || bits[i] == 1,
    ensures
        wire_value(
            running(depth as int),
            leaf,
            bits,
            sibs,
            run_gates(gs, h, leaf, bits, sibs, 5 * depth + 1),
        ) == select_fold(h, leaf, bits, sibs, depth),
{
    lemma_gates_levels(gs, h, leaf, bits, sibs, depth, depth);
    lemma_circuit_fold_selects(h, leaf, bits, sibs, depth);
    assert(run_gates(gs, h, leaf, bits, sibs, 5 * depth + 1) == run_gates(
        gs,
        h,
        leaf,
        bits,
        sibs,
        5 * depth,
    ));
}

} // verus!
