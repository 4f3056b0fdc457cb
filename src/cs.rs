use crate::tables::{SynthesisError, TableKind};
use vstd::prelude::*;

verus! {

/// A variable of the constraint system together with its witness, which is
/// absent when the circuit is built without one (setup or verification).
#[derive(Clone, Copy, Debug)]
pub struct AllocatedNum {
    pub variable: usize,
    pub value: Option<u128>,
}

/// A circuit value: a constant known to every party, or an allocated variable.
#[derive(Clone, Copy, Debug)]
pub enum Num {
    Constant(u128),
    Allocated(AllocatedNum),
}

/// A registered lookup table: its position in the catalog and its contents.
#[derive(Clone, Copy, PartialEq, Eq, Structural, Debug)]
pub struct TableHandle {
    pub index: usize,
    pub kind: TableKind,
}

/// The gates this gadget emits, over variable indices.
#[derive(Debug)]
pub enum Gate {
    /// The accumulators `a, b, c, d, next` grow by one 2-bit limb at each step:
    /// `b - 4a`, `c - 4b`, `d - 4c` and `next - 4d` all lie in `0..4`.
    RangeCheck32 { a: usize, b: usize, c: usize, d: usize, next: usize },
    /// The wire at `position` (0 to 3) of `a, b, c, d` lies in `0..4`.
    In04Range { a: usize, b: usize, c: usize, d: usize, position: usize },
    /// `q_a·a + q_b·b + q_c·c + q_d·d + q_m·a·b + q_const + q_d_next·d_next = 0`.
    Main {
        q_a: i128,
        q_b: i128,
        q_c: i128,
        q_d: i128,
        q_m: i128,
        q_const: i128,
        q_d_next: i128,
        a: usize,
        b: usize,
        c: usize,
        d: usize,
    },
    /// `Σ coeffs[i]·inputs[i] = target`.
    LinearCombination { coeffs: Vec<u128>, inputs: Vec<usize>, target: usize },
    /// `(key, out0, out1)` is a row of the table at `table` (for a table of one
    /// output, only `(key, out0)` is bound).
    Lookup { table: usize, key: usize, out0: usize, out1: usize },
}

/// The constraint system: witnesses of the allocated variables, emitted gates
/// and registered tables.
pub struct ConstraintSystem {
    pub values: Vec<Option<u128>>,
    pub gates: Vec<Gate>,
    pub tables: Vec<TableKind>,
}

/// The value of a circuit value, where one is known.
pub open spec fn num_value(n: Num) -> Option<nat> {
    match n {
        Num::Constant(c) => Some(c as nat),
        Num::Allocated(a) => match a.value {
            Some(v) => Some(v as nat),
            None => None,
        },
    }
}

/// The witness of variable `i` as a number, zero when unassigned.
pub open spec fn val(values: Seq<Option<u128>>, i: usize) -> nat {
    match values[i as int] {
        Some(v) => v as nat,
        None => 0,
    }
}

/// Variable `i` exists and is assigned.
pub open spec fn assigned(values: Seq<Option<u128>>, i: usize) -> bool {
    i < values.len() && values[i as int] is Some
}

/// `Σ coeffs[i]·inputs[i]` over the witnesses.
pub open spec fn lc_sum(values: Seq<Option<u128>>, coeffs: Seq<u128>, inputs: Seq<usize>) -> nat
    decreases inputs.len(),
{
    if inputs.len() == 0 || coeffs.len() == 0 {
        0
    } else {
        (coeffs.last() * val(values, inputs.last()) + lc_sum(
            values,
            coeffs.drop_last(),
            inputs.drop_last(),
        )) as nat
    }
}

/// `q` extends the accumulator `p` by one 2-bit limb.
pub open spec fn limb_step(values: Seq<Option<u128>>, p: usize, q: usize) -> bool {
    4 * val(values, p) <= val(values, q) < 4 * val(values, p) + 4
}

/// A gate refers to existing variables and tables, and its relation holds
/// whenever the witnesses it reads are all assigned.
pub open spec fn gate_holds(values: Seq<Option<u128>>, tables: Seq<TableKind>, g: Gate) -> bool {
    let n = values.len();
    match g {
        Gate::RangeCheck32 { a, b, c, d, next } => {
            &&& a < n && b < n && c < n && d < n && next < n
            &&& (assigned(values, a) && assigned(values, b) && assigned(values, c) && assigned(
                values,
                d,
            ) && assigned(values, next)) ==> (limb_step(values, a, b) && limb_step(values, b, c)
                && limb_step(values, c, d) && limb_step(values, d, next))
        },
        Gate::In04Range { a, b, c, d, position } => {
            let w = if position == 0 {
                a
            } else if position == 1 {
                b
            } else if position == 2 {
                c
            } else {
                d
            };
            &&& a < n && b < n && c < n && d < n && position < 4
            &&& assigned(values, w) ==> val(values, w) < 4
        },
        Gate::Main { q_a, q_b, q_c, q_d, q_m, q_const, q_d_next, a, b, c, d } => {
            &&& a < n && b < n && c < n && d < n
            &&& q_d_next == 0
            &&& (assigned(values, a) && assigned(values, b) && assigned(values, c) && assigned(
                values,
                d,
            )) ==> q_a * val(values, a) + q_b * val(values, b) + q_c * val(values, c) + q_d * val(
                values,
                d,
            ) + q_m * val(values, a) * val(values, b) + q_const == 0
        },
        Gate::LinearCombination { coeffs, inputs, target } => {
            &&& coeffs@.len() == inputs@.len()
            &&& forall|i: int| 0 <= i < inputs@.len() ==> #[trigger] inputs@[i] < n
            &&& target < n
            &&& ((forall|i: int| 0 <= i < inputs@.len() ==> assigned(values, #[trigger] inputs@[i]))
                && assigned(values, target)) ==> lc_sum(values, coeffs@, inputs@) == val(
                values,
                target,
            )
        },
        Gate::Lookup { table, key, out0, out1 } => {
            &&& key < n && out0 < n && out1 < n && table < tables.len()
            &&& (assigned(values, key) && assigned(values, out0) && assigned(values, out1)) ==> {
                let kind = tables[table as int];
                &&& val(values, key) < kind.domain_size()
                &&& val(values, out0) == kind.output(val(values, key)).0
                &&& (kind.arity() == 2 ==> val(values, out1) == kind.output(val(values, key)).1)
            }
        },
    }
}

/// The value is a compile-time constant.
pub open spec fn is_constant(n: Num) -> bool {
    n is Constant
}

impl ConstraintSystem {
    /// `a` names a variable of this system and carries that variable's witness.
    pub open spec fn holds_var(&self, a: AllocatedNum) -> bool {
        &&& a.variable < self.values@.len()
        &&& self.values@[a.variable as int] == a.value
    }

    pub open spec fn holds_num(&self, n: Num) -> bool {
        match n {
            Num::Constant(_) => true,
            Num::Allocated(a) => self.holds_var(a),
        }
    }

    /// `h` names a table of this system.
    pub open spec fn holds_table(&self, h: TableHandle) -> bool {
        &&& h.index < self.tables@.len()
        &&& self.tables@[h.index as int] == h.kind
        &&& h.kind.supported()
    }

    /// What was allocated and registered before stays as it was.
    pub open spec fn extends(&self, earlier: &ConstraintSystem) -> bool {
        &&& earlier.values@.len() <= self.values@.len()
        &&& forall|i: int|
            0 <= i < earlier.values@.len() ==> self.values@[i] == #[trigger] earlier.values@[i]
        &&& earlier.gates@.len() <= self.gates@.len()
        &&& forall|i: int|
            0 <= i < earlier.gates@.len() ==> self.gates@[i] == #[trigger] earlier.gates@[i]
        &&& self.tables@ == earlier.tables@
    }

    /// Every gate from position `start` on holds on the witnesses.
    pub open spec fn gates_hold_from(&self, start: int) -> bool {
        forall|k: int|
            start <= k < self.gates@.len() ==> gate_holds(
                self.values@,
                self.tables@,
                #[trigger] self.gates@[k],
            )
    }

    /// An empty system.
    pub fn new() -> (r: ConstraintSystem)
        ensures
            r.values@.len() == 0,
            r.gates@.len() == 0,
            r.tables@.len() == 0,
    {
        ConstraintSystem { values: Vec::new(), gates: Vec::new(), tables: Vec::new() }
    }

    /// Allocates a new variable with the given witness.
    pub fn allocate(&mut self, value: Option<u128>) -> (r: AllocatedNum)
        ensures
            final(self).values@ == old(self).values@.push(value),
            final(self).gates@ == old(self).gates@,
            final(self).tables@ == old(self).tables@,
            r.variable == old(self).values@.len(),
            r.value == value,
    {
        let variable = self.values.len();
        self.values.push(value);
        AllocatedNum { variable, value }
    }

    /// Allocates a new variable whose witness is zero.
    pub fn alloc_zero(&mut self) -> (r: AllocatedNum)
        ensures
            final(self).values@ == old(self).values@.push(Some(0u128)),
            final(self).gates@ == old(self).gates@,
            final(self).tables@ == old(self).tables@,
            r.variable == old(self).values@.len(),
            r.value == Some(0u128),
    {
        self.allocate(Some(0))
    }

    /// Emits a gate.
    pub fn add_gate(&mut self, gate: Gate)
        ensures
            final(self).values@ == old(self).values@,
            final(self).gates@ == old(self).gates@.push(gate),
            final(self).tables@ == old(self).tables@,
    {
        self.gates.push(gate);
    }

    /// Registers a table. Refused when its parameters are not supported, or when
    /// a table with the same contents is registered already.
    pub fn add_table(&mut self, kind: TableKind) -> (r: Result<TableHandle, SynthesisError>)
        ensures
            final(self).values@ == old(self).values@,
            final(self).gates@ == old(self).gates@,
            !kind.supported() ==> r == Err::<TableHandle, SynthesisError>(
                SynthesisError::UnsupportedTable,
            ) && final(self).tables@ == old(self).tables@,
            kind.supported() && old(self).tables@.contains(kind) ==> r == Err::<
                TableHandle,
                SynthesisError,
            >(SynthesisError::DuplicateTable) && final(self).tables@ == old(self).tables@,
            kind.supported() && !old(self).tables@.contains(kind) ==> final(self).tables@ == old(
                self,
            ).tables@.push(kind) && r is Ok,
            r matches Ok(h) ==> h.index == old(self).tables@.len() && h.kind == kind,
    {
        if !kind.is_supported() {
            return Err(SynthesisError::UnsupportedTable);
        }
        let mut i: usize = 0;
        while i < self.tables.len()
            invariant
                i <= self.tables@.len(),
                kind.supported(),
                self.tables@ == old(self).tables@,
                self.values@ == old(self).values@,
                self.gates@ == old(self).gates@,
                forall|j: int| 0 <= j < i ==> self.tables@[j] != kind,
            decreases self.tables@.len() - i,
        {
            if self.tables[i] == kind {
                return Err(SynthesisError::DuplicateTable);
            }
            i = i + 1;
        }
        let index = self.tables.len();
        self.tables.push(kind);
        Ok(TableHandle { index, kind })
    }

    /// Asserts `c0·a + c1·b + c2·c = target` with one linear-combination gate.
    pub fn ternary_lc_eq(
        &mut self,
        coeffs: (u128, u128, u128),
        nums: (&AllocatedNum, &AllocatedNum, &AllocatedNum),
        target: &AllocatedNum,
    )
        ensures
            final(self).values@ == old(self).values@,
            final(self).tables@ == old(self).tables@,
            final(self).gates@.len() == old(self).gates@.len() + 1,
            final(self).gates@.drop_last() == old(self).gates@,
            final(self).gates@.last() matches Gate::LinearCombination { coeffs: cv, inputs: iv, target: t }
                && cv@ == seq![coeffs.0, coeffs.1, coeffs.2] && iv@ == seq![
                nums.0.variable,
                nums.1.variable,
                nums.2.variable,
            ] && t == target.variable,
    {
        let gate = Gate::LinearCombination {
            coeffs: vec![coeffs.0, coeffs.1, coeffs.2],
            inputs: vec![nums.0.variable, nums.1.variable, nums.2.variable],
            target: target.variable,
        };
        self.add_gate(gate);
        assert(self.gates@.drop_last() == old(self).gates@);
    }
}

/// Growth of a system keeps every variable it held.
pub proof fn lemma_extends_holds(before: ConstraintSystem, after: ConstraintSystem, a: AllocatedNum)
    requires
        after.extends(&before),
        before.holds_var(a),
    ensures
        after.holds_var(a),
{
    assert(after.values@[a.variable as int] == before.values@[a.variable as int]);
}

/// Growth of a system is transitive.
pub proof fn lemma_extends_trans(a: ConstraintSystem, b: ConstraintSystem, c: ConstraintSystem)
    requires
        b.extends(&a),
        c.extends(&b),
    ensures
        c.extends(&a),
{
    assert forall|i: int| 0 <= i < a.values@.len() implies c.values@[i] == #[trigger] a.values@[i] by {
        assert(c.values@[i] == b.values@[i]);
    }
}

/// A linear combination over existing variables keeps its value as the
/// system grows.
pub proof fn lemma_lc_sum_grow(
    v1: Seq<Option<u128>>,
    v2: Seq<Option<u128>>,
    coeffs: Seq<u128>,
    inputs: Seq<usize>,
)
    requires
        v1.len() <= v2.len(),
        forall|j: int| 0 <= j < v1.len() ==> v2[j] == #[trigger] v1[j],
        forall|i: int| 0 <= i < inputs.len() ==> #[trigger] inputs[i] < v1.len(),
    ensures
        lc_sum(v1, coeffs, inputs) == lc_sum(v2, coeffs, inputs),
    decreases inputs.len(),
{
    if inputs.len() > 0 && coeffs.len() > 0 {
        let last = inputs.last();
        assert(inputs[inputs.len() - 1] < v1.len());
        assert(v2[last as int] == v1[last as int]);
        let rest = inputs.drop_last();
        assert forall|i: int| 0 <= i < rest.len() implies #[trigger] rest[i] < v1.len() by {
            assert(rest[i] == inputs[i]);
        }
        lemma_lc_sum_grow(v1, v2, coeffs.drop_last(), rest);
    }
}

/// A gate that holds keeps holding as variables are added.
pub proof fn lemma_gate_holds_grow(
    v1: Seq<Option<u128>>,
    v2: Seq<Option<u128>>,
    tables: Seq<TableKind>,
    g: Gate,
)
    requires
        gate_holds(v1, tables, g),
        v1.len() <= v2.len(),
        forall|j: int| 0 <= j < v1.len() ==> v2[j] == #[trigger] v1[j],
    ensures
        gate_holds(v2, tables, g),
{
    match g {
        Gate::LinearCombination { coeffs, inputs, target } => {
            lemma_lc_sum_grow(v1, v2, coeffs@, inputs@);
            assert forall|i: int| 0 <= i < inputs@.len() implies assigned(v2, #[trigger] inputs@[i])
                == assigned(v1, inputs@[i]) by {
                assert(v2[inputs@[i] as int] == v1[inputs@[i] as int]);
            }
            assert(v2[target as int] == v1[target as int]);
        },
        Gate::RangeCheck32 { a, b, c, d, next } => {
            assert(v2[a as int] == v1[a as int] && v2[b as int] == v1[b as int] && v2[c as int]
                == v1[c as int] && v2[d as int] == v1[d as int] && v2[next as int]
                == v1[next as int]);
        },
        Gate::In04Range { a, b, c, d, position } => {
            assert(v2[a as int] == v1[a as int] && v2[b as int] == v1[b as int] && v2[c as int]
                == v1[c as int] && v2[d as int] == v1[d as int]);
        },
        Gate::Main { a, b, c, d, .. } => {
            assert(v2[a as int] == v1[a as int] && v2[b as int] == v1[b as int] && v2[c as int]
                == v1[c as int] && v2[d as int] == v1[d as int]);
        },
        Gate::Lookup { key, out0, out1, .. } => {
            assert(v2[key as int] == v1[key as int] && v2[out0 as int] == v1[out0 as int]
                && v2[out1 as int] == v1[out1 as int]);
        },
    }
}

/// Gates that held before a system grew, and the gates added since, all hold.
pub proof fn lemma_gates_hold_grow(a: ConstraintSystem, b: ConstraintSystem, start: int)
    requires
        0 <= start <= a.gates@.len(),
        a.gates_hold_from(start),
        b.extends(&a),
        b.gates_hold_from(a.gates@.len() as int),
    ensures
        b.gates_hold_from(start),
{
    assert forall|k: int| start <= k < b.gates@.len() implies gate_holds(
        b.values@,
        b.tables@,
        #[trigger] b.gates@[k],
    ) by {
        if k < a.gates@.len() {
            assert(b.gates@[k] == a.gates@[k]);
            assert(gate_holds(a.values@, a.tables@, a.gates@[k]));
            lemma_gate_holds_grow(a.values@, b.values@, a.tables@, a.gates@[k]);
        }
    }
}

/// A three-term linear-combination gate over variables of the system holds
/// when the witnesses, where all assigned, satisfy its relation.
pub proof fn lemma_lc3_gate(
    cs: ConstraintSystem,
    g: Gate,
    c: (u128, u128, u128),
    a: AllocatedNum,
    b: AllocatedNum,
    d: AllocatedNum,
    t: AllocatedNum,
)
    requires
        g matches Gate::LinearCombination { coeffs, inputs, target } && coeffs@ == seq![
            c.0,
            c.1,
            c.2,
        ] && inputs@ == seq![a.variable, b.variable, d.variable] && target == t.variable,
        cs.holds_var(a),
        cs.holds_var(b),
        cs.holds_var(d),
        cs.holds_var(t),
        (a.value is Some && b.value is Some && d.value is Some && t.value is Some) ==> c.0
            * a.value->Some_0 + c.1 * b.value->Some_0 + c.2 * d.value->Some_0 == t.value->Some_0,
    ensures
        gate_holds(cs.values@, cs.tables@, g),
{
    let values = cs.values@;
    if let Gate::LinearCombination { coeffs, inputs, target } = g {
        let cv = coeffs@;
        let iv = inputs@;
        reveal_with_fuel(lc_sum, 4);
        assert(cv.drop_last() =~= seq![c.0, c.1]);
        assert(iv.drop_last() =~= seq![a.variable, b.variable]);
        assert(cv.drop_last().drop_last() =~= seq![c.0]);
        assert(iv.drop_last().drop_last() =~= seq![a.variable]);
        assert(cv.drop_last().drop_last().drop_last() =~= Seq::<u128>::empty());
        assert(iv.drop_last().drop_last().drop_last() =~= Seq::<usize>::empty());
        assert(forall|i: int| 0 <= i < iv.len() ==> #[trigger] iv[i] < values.len()) by {
            assert(iv[0] == a.variable && iv[1] == b.variable && iv[2] == d.variable);
        }
        if (forall|i: int| 0 <= i < iv.len() ==> assigned(values, #[trigger] iv[i])) && assigned(
            values,
            target,
        ) {
            assert(assigned(values, iv[0]) && assigned(values, iv[1]) && assigned(values, iv[2]));
            assert(lc_sum(values, cv, iv) == c.0 * val(values, a.variable) + c.1 * val(
                values,
                b.variable,
            ) + c.2 * val(values, d.variable));
        }
    }
}

/// Pushing a gate that holds keeps every gate from `start` on holding.
pub proof fn lemma_push_holds(a: ConstraintSystem, b: ConstraintSystem, start: int)
    requires
        0 <= start <= a.gates@.len(),
        a.gates_hold_from(start),
        b.extends(&a),
        b.gates@.len() == a.gates@.len() + 1,
        gate_holds(b.values@, b.tables@, b.gates@.last()),
    ensures
        b.gates_hold_from(start),
{
    lemma_gates_hold_grow(a, b, start);
}

} // verus!
