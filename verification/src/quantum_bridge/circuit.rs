//! Quantum circuit definition helpers: typed gate instructions, the
//! feature-encoding circuit layout, and holyQASM text output.
//!
//! Gate parameters are angles in radians, held as IEEE-754 double bit
//! patterns.

use vstd::prelude::*;

use crate::text::{
    decimal, decimal_text, join_with, lemma_join_with_lists_items, lemma_join_with_push, lists_items,
};

verus! {

/// The most qubits a feature-encoding circuit uses.
pub const MAX_FEATURE_QUBITS: usize = 8;

/// A single quantum gate instruction.
pub struct GateInstruction {
    pub gate: String,
    pub qubits: Vec<usize>,
    pub params: Vec<u64>,
}

/// A gate instruction as mathematical values.
pub struct GateView {
    pub gate: Seq<char>,
    pub qubits: Seq<usize>,
    pub params: Seq<u64>,
}

impl View for GateInstruction {
    type V = GateView;

    open spec fn view(&self) -> GateView {
        GateView { gate: self.gate@, qubits: self.qubits@, params: self.params@ }
    }
}

/// A full quantum circuit composed of ordered gate instructions.
pub struct QuantumCircuit {
    pub num_qubits: usize,
    pub instructions: Vec<GateInstruction>,
}

/// The views of a sequence of gates.
pub open spec fn gates_view(instructions: Seq<GateInstruction>) -> Seq<GateView> {
    instructions.map_values(|g: GateInstruction| g@)
}

/// The `RY` rotation of qubit `q` by the angle with bit pattern `theta`.
pub open spec fn ry_gate(q: usize, theta: u64) -> GateView {
    GateView { gate: "ry"@, qubits: seq![q], params: seq![theta] }
}

/// The CNOT gate with control `q` and target `q + 1`.
pub open spec fn cx_gate(q: usize) -> GateView {
    GateView { gate: "cx"@, qubits: seq![q, (q + 1) as usize], params: Seq::empty() }
}

/// The number of qubits used to encode `n` features: `n` clamped to `[1, 8]`.
pub open spec fn feature_qubits(n: nat) -> nat {
    if n < 1 {
        1
    } else if n > MAX_FEATURE_QUBITS {
        MAX_FEATURE_QUBITS as nat
    } else {
        n
    }
}

/// The gates of the feature-encoding circuit: one `RY` per encoded feature,
/// then a CNOT chain over adjacent qubits.
pub open spec fn feature_gates(angles: Seq<u64>) -> Seq<GateView> {
    let nq = feature_qubits(angles.len());
    let rotations = nq as int;
    let ry_count = if angles.len() < nq { angles.len() as int } else { rotations };
    Seq::new(ry_count as nat, |i: int| ry_gate(i as usize, angles[i])) + Seq::new(
        (nq - 1) as nat,
        |i: int| cx_gate(i as usize),
    )
}

/// The texts of the rendered parameters, as mathematical values.
pub open spec fn texts_view(texts: Seq<Vec<String>>) -> Seq<Seq<Seq<char>>> {
    texts.map_values(|t: Vec<String>| t@.map_values(|s: String| s@))
}

/// `texts` holds one rendered text per parameter of each instruction.
pub open spec fn texts_match(gates: Seq<GateView>, texts: Seq<Seq<Seq<char>>>) -> bool {
    &&& texts.len() == gates.len()
    &&& forall|i: int| 0 <= i < gates.len() ==> #[trigger] texts[i].len() == gates[i].params.len()
}

/// The qubit operand `q[k]`.
pub open spec fn qubit_operand(k: usize) -> Seq<char> {
    "q["@ + decimal(k as nat) + "]"@
}

/// The parameter list of an instruction: nothing when there are no
/// parameters, else the rendered parameters in parentheses.
pub open spec fn params_text(texts: Seq<Seq<char>>) -> Seq<char> {
    if texts.len() == 0 {
        Seq::empty()
    } else {
        "("@ + join_with(texts, ","@) + ")"@
    }
}

/// One holyQASM instruction line.
pub open spec fn instruction_text(g: GateView, texts: Seq<Seq<char>>) -> Seq<char> {
    g.gate + params_text(texts) + " "@ + join_with(g.qubits.map_values(|k: usize| qubit_operand(k)), ","@)
        + ";\n"@
}

/// The instruction lines of a circuit.
pub open spec fn instructions_text(gates: Seq<GateView>, texts: Seq<Seq<Seq<char>>>) -> Seq<char>
    decreases gates.len(),
{
    if gates.len() == 0 {
        Seq::empty()
    } else {
        instructions_text(gates.drop_last(), texts.drop_last()) + instruction_text(gates.last(), texts.last())
    }
}

/// The holyQASM program of a circuit: the register declaration, then one line
/// per instruction.
pub open spec fn qasm_text(num_qubits: usize, gates: Seq<GateView>, texts: Seq<Seq<Seq<char>>>) -> Seq<char> {
    "QREG q["@ + decimal(num_qubits as nat) + "];\n"@ + instructions_text(gates, texts)
}

impl QuantumCircuit {
    /// An empty circuit over `num_qubits` qubits.
    pub fn new(num_qubits: usize) -> (c: Self)
        ensures
            c.num_qubits == num_qubits,
            c.instructions@.len() == 0,
    {
        QuantumCircuit { num_qubits, instructions: Vec::new() }
    }

    /// Append a gate instruction to the circuit.
    pub fn add_gate(&mut self, gate: String, qubits: Vec<usize>, params: Vec<u64>)
        ensures
            final(self).num_qubits == old(self).num_qubits,
            gates_view(final(self).instructions@) == gates_view(old(self).instructions@).push(
                GateView { gate: gate@, qubits: qubits@, params: params@ },
            ),
    {
        let ghost before = gates_view(self.instructions@);
        self.instructions.push(GateInstruction { gate, qubits, params });
        assert(gates_view(self.instructions@) =~= before.push(
            GateView { gate: gate@, qubits: qubits@, params: params@ },
        ));
    }

    /// Build the deterministic feature-encoding circuit.
    ///
    /// `angles[i]` is the `RY` angle (bit pattern) that encodes feature `i`.
    /// The circuit has one qubit per feature, between 1 and 8; each of the
    /// first features gets an `RY` rotation on its own qubit, and a chain of
    /// CNOT gates entangles adjacent qubits.
    pub fn from_features(angles: &[u64]) -> (c: Self)
        ensures
            c.num_qubits == feature_qubits(angles@.len()),
            gates_view(c.instructions@) == feature_gates(angles@),
    {
        let n = angles.len();
        let num_qubits: usize = if n < 1 {
            1
        } else if n > MAX_FEATURE_QUBITS {
            MAX_FEATURE_QUBITS
        } else {
            n
        };
        let mut circuit = Self::new(num_qubits);
        let ry_count = if n < num_qubits { n } else { num_qubits };
        let ghost target = feature_gates(angles@);
        let mut idx: usize = 0;
        while idx < ry_count
            invariant
                ry_count <= n,
                n == angles@.len(),
                ry_count <= num_qubits,
                num_qubits == feature_qubits(n as nat),
                target == feature_gates(angles@),
                circuit.num_qubits == num_qubits,
                idx <= ry_count,
                gates_view(circuit.instructions@) == target.take(idx as int),
            decreases ry_count - idx,
        {
            let mut qubits: Vec<usize> = Vec::new();
            qubits.push(idx);
            let mut params: Vec<u64> = Vec::new();
            params.push(angles[idx]);
            let gate = "ry".to_owned();
            circuit.add_gate(gate, qubits, params);
            proof {
                assert(qubits@ =~= seq![idx]);
                assert(params@ =~= seq![angles@[idx as int]]);
                assert(target[idx as int] == ry_gate(idx, angles@[idx as int]));
                assert(target.take(idx + 1) =~= target.take(idx as int).push(target[idx as int]));
            }
            idx = idx + 1;
        }
        if num_qubits > 1 {
            let mut q: usize = 0;
            while q < num_qubits - 1
                invariant
                    1 < num_qubits <= MAX_FEATURE_QUBITS,
                    ry_count <= num_qubits,
                    target == feature_gates(angles@),
                    target.len() == ry_count + num_qubits - 1,
                    forall|k: int| 0 <= k < num_qubits - 1 ==> #[trigger] target[ry_count + k] == cx_gate(k as usize),
                    circuit.num_qubits == num_qubits,
                    q <= num_qubits - 1,
                    gates_view(circuit.instructions@) == target.take(ry_count + q),
                decreases num_qubits - 1 - q,
            {
                let mut qubits: Vec<usize> = Vec::new();
                qubits.push(q);
                qubits.push(q + 1);
                let gate = "cx".to_owned();
                circuit.add_gate(gate, qubits, Vec::new());
                proof {
                    assert(qubits@ =~= seq![q, (q + 1) as usize]);
                    assert(target[ry_count + q] == cx_gate(q));
                    assert(target.take(ry_count + q + 1) =~= target.take(ry_count + q).push(
                        target[ry_count + q],
                    ));
                }
                q = q + 1;
            }
        }
        assert(target.take(target.len() as int) =~= target);
        circuit
    }
    /// Serialize the circuit to a holyQASM-compatible string.
    ///
    /// `params_text[i][j]` is the rendered text of parameter `j` of
    /// instruction `i` (its shortest round-trip decimal form).
    pub fn to_qasm(&self, params_text: &Vec<Vec<String>>) -> (out: String)
        requires
            texts_match(gates_view(self.instructions@), texts_view(params_text@)),
        ensures
            out@ == qasm_text(self.num_qubits, gates_view(self.instructions@), texts_view(params_text@)),
    {
        let ghost gates = gates_view(self.instructions@);
        let ghost texts = texts_view(params_text@);
        let mut out = String::new();
        out.append("QREG q[");
        let nq = decimal_text(self.num_qubits as u128);
        out.append(nq.as_str());
        out.append("];\n");
        let ghost header = out@;
        assert(instructions_text(gates.take(0), texts.take(0)) =~= Seq::<char>::empty());
        let n = self.instructions.len();
        let mut i: usize = 0;
        while i < n
            invariant
                n == self.instructions@.len(),
                gates == gates_view(self.instructions@),
                texts == texts_view(params_text@),
                texts_match(gates, texts),
                header == "QREG q["@ + decimal(self.num_qubits as nat) + "];\n"@,
                i <= n,
                out@ == header + instructions_text(gates.take(i as int), texts.take(i as int)),
            decreases n - i,
        {
            let ghost before = out@;
            let instr = &self.instructions[i];
            let texts_i = &params_text[i];
            proof {
                assert(texts[i as int].len() == gates[i as int].params.len());
                assert(texts[i as int] == texts_i@.map_values(|s: String| s@));
            }
            let line = instruction_line(instr, texts_i);
            out.append(line.as_str());
            proof {
                assert(gates.take(i + 1).drop_last() =~= gates.take(i as int));
                assert(texts.take(i + 1).drop_last() =~= texts.take(i as int));
                assert(gates.take(i + 1).last() == gates[i as int]);
                assert(texts.take(i + 1).last() == texts[i as int]);
                assert(out@ =~= header + instructions_text(gates.take(i + 1), texts.take(i + 1)));
            }
            i = i + 1;
        }
        assert(gates.take(n as int) =~= gates);
        assert(texts.take(n as int) =~= texts);
        out
    }
}

/// The holyQASM line of one instruction, given its rendered parameters.
fn instruction_line(instr: &GateInstruction, texts: &Vec<String>) -> (line: String)
    requires
        texts@.len() == instr.params@.len(),
    ensures
        line@ == instruction_text(instr@, texts@.map_values(|s: String| s@)),
{
    let ghost tv = texts@.map_values(|s: String| s@);
    let mut line = String::new();
    line.append(instr.gate.as_str());
    let np = texts.len();
    if np > 0 {
        line.append("(");
        let ghost open_part = line@;
        let mut j: usize = 0;
        while j < np
            invariant
                np == texts@.len(),
                tv == texts@.map_values(|s: String| s@),
                j <= np,
                line@ == open_part + join_with(tv.take(j as int), ","@),
            decreases np - j,
        {
            proof {
                lemma_join_with_push(tv.take(j as int), ","@, tv[j as int]);
                assert(tv.take(j + 1) =~= tv.take(j as int).push(tv[j as int]));
            }
            if j > 0 {
                line.append(",");
            }
            line.append(texts[j].as_str());
            j = j + 1;
        }
        assert(tv.take(np as int) =~= tv);
        line.append(")");
        assert(line@ =~= instr.gate@ + params_text(tv));
    } else {
        assert(line@ =~= instr.gate@ + params_text(tv));
    }
    let ghost before_qubits = line@;
    line.append(" ");
    let ghost qs = instr.qubits@.map_values(|k: usize| qubit_operand(k));
    let ghost qubit_start = line@;
    let nq = instr.qubits.len();
    let mut k: usize = 0;
    while k < nq
        invariant
            nq == instr.qubits@.len(),
            qs == instr.qubits@.map_values(|k: usize| qubit_operand(k)),
            k <= nq,
            line@ == qubit_start + join_with(qs.take(k as int), ","@),
        decreases nq - k,
    {
        proof {
            lemma_join_with_push(qs.take(k as int), ","@, qs[k as int]);
            assert(qs.take(k + 1) =~= qs.take(k as int).push(qs[k as int]));
        }
        if k > 0 {
            line.append(",");
        }
        line.append("q[");
        let idx = decimal_text(instr.qubits[k] as u128);
        line.append(idx.as_str());
        line.append("]");
        k = k + 1;
    }
    assert(qs.take(nq as int) =~= qs);
    assert(line@ =~= before_qubits + " "@ + join_with(qs, ","@));
    assert(before_qubits =~= instr.gate@ + params_text(tv));
    line.append(";\n");
    assert(qs == instr@.qubits.map_values(|k: usize| qubit_operand(k)));
    assert(line@ =~= instruction_text(instr@, tv));
    line
}

/// Every gate acts on qubits of the register.
pub open spec fn gates_in_register(gates: Seq<GateView>, num_qubits: nat) -> bool {
    forall|i: int, j: int|
        0 <= i < gates.len() && 0 <= j < gates[i].qubits.len() ==> (#[trigger] gates[i].qubits[j]) < num_qubits
}

/// The feature-encoding circuit only addresses qubits of its register, and
/// holds one rotation per encoded feature and one CNOT per adjacent pair.
pub proof fn lemma_feature_gates_well_formed(angles: Seq<u64>)
    ensures
        1 <= feature_qubits(angles.len()) <= MAX_FEATURE_QUBITS,
        gates_in_register(feature_gates(angles), feature_qubits(angles.len())),
        feature_gates(angles).len() == (if angles.len() < feature_qubits(angles.len()) {
            angles.len() as int
        } else {
            feature_qubits(angles.len()) as int
        }) + feature_qubits(angles.len()) - 1,
{
    let nq = feature_qubits(angles.len());
    let gates = feature_gates(angles);
    let ry_count = if angles.len() < nq { angles.len() as int } else { nq as int };
    assert forall|i: int, j: int|
        0 <= i < gates.len() && 0 <= j < gates[i].qubits.len() implies (#[trigger] gates[i].qubits[j]) < nq by {
        if i < ry_count {
            assert(gates[i] == ry_gate(i as usize, angles[i]));
        } else {
            assert(gates[i] == cx_gate((i - ry_count) as usize));
        }
    }
}

/// The operands `q[k]` of the qubits `ks`, each index in decimal.
pub open spec fn register_operands(ks: Seq<usize>) -> Seq<Seq<char>> {
    Seq::new(ks.len(), |i: int| "q["@ + decimal(ks[i] as nat) + "]"@)
}

/// Each line of a holyQASM program holds the instruction's name, then, when
/// it has parameters, all their rendered texts in order, comma-separated, in
/// parentheses; then a space and one operand `q[k]` per qubit it acts on, all
/// of them in order, comma-separated; then `;` and a line feed.
pub proof fn lemma_instruction_text_layout(g: GateView, texts: Seq<Seq<char>>)
    ensures
        exists|params: Seq<char>, operands: Seq<char>|
            {
                &&& instruction_text(g, texts) == (if texts.len() > 0 {
                    g.gate + "("@ + params + ")"@
                } else {
                    g.gate
                }) + " "@ + operands + ";\n"@
                &&& texts.len() > 0 ==> #[trigger] lists_items(params, texts, ',')
                &&& #[trigger] lists_items(operands, register_operands(g.qubits), ',')
            },
{
    reveal_strlit(",");
    assert(","@ =~= seq![',']);
    let ops = g.qubits.map_values(|k: usize| qubit_operand(k));
    assert(ops =~= register_operands(g.qubits));
    let params = join_with(texts, ","@);
    let operands = join_with(ops, ","@);
    lemma_join_with_lists_items(texts, ',');
    lemma_join_with_lists_items(ops, ',');
    assert(instruction_text(g, texts) == (if texts.len() > 0 {
        g.gate + "("@ + params + ")"@
    } else {
        g.gate
    }) + " "@ + operands + ";\n"@);
}

/// How many features get a rotation: at most 8.
pub open spec fn encoded_features(n: nat) -> int {
    if n > MAX_FEATURE_QUBITS {
        MAX_FEATURE_QUBITS as int
    } else {
        n as int
    }
}

/// The feature circuit has `min(n, 8)` qubits for `n >= 1` features (one for
/// none); it starts with an `ry` rotation of qubit `i` by angle `angles[i]`
/// for each feature that fits, in feature order, and ends with `cx` gates on
/// qubits `(k, k + 1)` for each adjacent pair, in order.
pub proof fn lemma_feature_gates_content(angles: Seq<u64>)
    ensures
        feature_qubits(angles.len()) == if angles.len() == 0 {
            1
        } else if angles.len() > 8 {
            8
        } else {
            angles.len()
        },
        encoded_features(angles.len()) == if angles.len() > 8 {
            8
        } else {
            angles.len() as int
        },
        forall|i: int|
            0 <= i < encoded_features(angles.len()) ==> {
                &&& (#[trigger] feature_gates(angles)[i]).gate == "ry"@
                &&& feature_gates(angles)[i].qubits == seq![i as usize]
                &&& feature_gates(angles)[i].params == seq![angles[i]]
            },
        forall|j: int|
            encoded_features(angles.len()) <= j < encoded_features(angles.len()) + feature_qubits(angles.len()) - 1
                ==> {
                &&& (#[trigger] feature_gates(angles)[j]).gate == "cx"@
                &&& feature_gates(angles)[j].qubits == seq![
                    (j - encoded_features(angles.len())) as usize,
                    (j - encoded_features(angles.len()) + 1) as usize,
                ]
                &&& feature_gates(angles)[j].params.len() == 0
            },
{
}

/// A program is `QREG q[`, the register size in decimal, `];` and a line feed,
/// then the instruction lines.
pub proof fn lemma_qasm_header(num_qubits: usize, gates: Seq<GateView>, texts: Seq<Seq<Seq<char>>>)
    ensures
        qasm_text(num_qubits, gates, texts) == seq!['Q', 'R', 'E', 'G', ' ', 'q', '['] + decimal(num_qubits as nat)
            + seq![']', ';', '\n'] + instructions_text(gates, texts),
{
    reveal_strlit("QREG q[");
    reveal_strlit("];\n");
    assert("QREG q["@ =~= seq!['Q', 'R', 'E', 'G', ' ', 'q', '[']);
    assert("];\n"@ =~= seq![']', ';', '\n']);
}

/// The lines of one instruction are its own line, and the lines of two runs
/// of instructions are the lines of the first run followed by those of the
/// second: every instruction gets its line, in order.
pub proof fn lemma_instructions_text_concat(
    g1: Seq<GateView>,
    t1: Seq<Seq<Seq<char>>>,
    g2: Seq<GateView>,
    t2: Seq<Seq<Seq<char>>>,
)
    requires
        g1.len() == t1.len(),
        g2.len() == t2.len(),
    ensures
        instructions_text(g1 + g2, t1 + t2) == instructions_text(g1, t1) + instructions_text(g2, t2),
        g2.len() == 1 ==> instructions_text(g2, t2) == instruction_text(g2[0], t2[0]),
    decreases g2.len(),
{
    if g2.len() == 0 {
        assert(g1 + g2 =~= g1);
        assert(t1 + t2 =~= t1);
        assert(instructions_text(g2, t2) == Seq::<char>::empty());
        assert(instructions_text(g1, t1) + Seq::<char>::empty() =~= instructions_text(g1, t1));
    } else {
        lemma_instructions_text_concat(g1, t1, g2.drop_last(), t2.drop_last());
        assert((g1 + g2).drop_last() =~= g1 + g2.drop_last());
        assert((t1 + t2).drop_last() =~= t1 + t2.drop_last());
        assert((g1 + g2).last() == g2.last());
        assert((t1 + t2).last() == t2.last());
        if g2.len() == 1 {
            assert(g2.drop_last().len() == 0);
            assert(instructions_text(g2.drop_last(), t2.drop_last()) == Seq::<char>::empty());
            assert(instructions_text(g2, t2) =~= instruction_text(g2[0], t2[0]));
        }
    }
}

} // verus!
