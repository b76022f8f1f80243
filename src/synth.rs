use vstd::prelude::*;
use crate::engine::{extends, partition};
use crate::gf2::{copy_matrix, identity, mat};
use crate::label::{gate_of, gate_of_label, PhaseGate};
use crate::tracker::{emitted, emitted_once, replay, reversed, scan_spec, sound_steps, Step, Synthesis};

verus! {

/// One operation of the synthesised circuit.
#[derive(Clone, Debug, PartialEq, Eq)]
pub enum Instruction {
    /// CNOT from `control` onto `target`.
    Cx { control: usize, target: usize },
    /// The phase gate of term `term` (a column of the input) on `qubit`.
    Phase { gate: PhaseGate, term: usize, qubit: usize },
}

/// Why a synthesis was refused.
#[derive(Clone, Copy, Debug, PartialEq, Eq)]
pub enum SynthError {
    /// A row of the matrix does not have one entry per label, or an entry is
    /// neither 0 nor 1.
    InvalidMatrix,
}

/// The phase part of a circuit and the parity state it leaves behind.
pub struct PhaseCircuit {
    pub num_qubits: usize,
    pub instructions: Vec<Instruction>,
    /// The parity that each qubit holds after `instructions`.
    pub state: Vec<Vec<bool>>,
    /// The terms that never met a qubit of equal parity, so had no gate.
    pub unmatched: Vec<usize>,
}

/// The step that an instruction performs.
pub open spec fn step_of(i: Instruction) -> Step {
    match i {
        Instruction::Cx { control, target } => Step::Cx { control, target },
        Instruction::Phase { term, qubit, .. } => Step::Phase { term, qubit },
    }
}

pub open spec fn steps_of(s: Seq<Instruction>) -> Seq<Step> {
    Seq::new(s.len(), |k: int| step_of(s[k]))
}

/// Every row has one 0/1 entry per label.
pub open spec fn valid_matrix(cnots: Seq<Vec<u8>>, m: nat) -> bool {
    &&& (cnots.len() == 0 ==> m == 0)
    &&& forall|q: int| 0 <= q < cnots.len() ==> {
        &&& (#[trigger] cnots[q])@.len() == m
        &&& forall|c: int| 0 <= c < m ==> (#[trigger] cnots[q]@[c]) <= 1
    }
}

/// The phase terms: column c of the matrix, as a parity over the qubits.
pub open spec fn columns_of(cnots: Seq<Vec<u8>>, m: nat) -> Seq<Seq<bool>> {
    Seq::new(m, |c: int| Seq::new(cnots.len(), |q: int| cnots[q]@[c] == 1))
}

/// The immediate pass on the input: from the identity state, with every term
/// waiting in column order.
pub open spec fn prepass(cnots: Seq<Vec<u8>>, m: nat) -> (Seq<Seq<bool>>, Seq<usize>, Seq<Step>) {
    scan_spec(identity(cnots.len()), columns_of(cnots, m), Seq::new(m, |i: int| i as usize), 0)
}

fn check_matrix(cnots: &Vec<Vec<u8>>, m: usize) -> (r: bool)
    ensures
        r == valid_matrix(cnots@, m as nat),
{
    if cnots.len() == 0 && m > 0 {
        return false;
    }
    let mut q: usize = 0;
    while q < cnots.len()
        invariant
            0 <= q <= cnots@.len(),
            forall|p: int| 0 <= p < q ==> {
                &&& (#[trigger] cnots@[p])@.len() == m
                &&& forall|c: int| 0 <= c < m ==> (#[trigger] cnots@[p]@[c]) <= 1
            },
        decreases cnots@.len() - q,
    {
        if cnots[q].len() != m {
            return false;
        }
        let mut c: usize = 0;
        while c < m
            invariant
                0 <= c <= m,
                q < cnots@.len(),
                cnots@[q as int]@.len() == m,
                forall|d: int| 0 <= d < c ==> (#[trigger] cnots@[q as int]@[d]) <= 1,
            decreases m - c,
        {
            if cnots[q][c] > 1 {
                return false;
            }
            c += 1;
        }
        q += 1;
    }
    true
}

fn matrix_columns(cnots: &Vec<Vec<u8>>, m: usize) -> (r: Vec<Vec<bool>>)
    requires
        valid_matrix(cnots@, m as nat),
    ensures
        mat(r) == columns_of(cnots@, m as nat),
        forall|c: int| 0 <= c < r@.len() ==> (#[trigger] r@[c])@.len() == cnots@.len(),
{
    let mut r: Vec<Vec<bool>> = Vec::new();
    let mut c: usize = 0;
    while c < m
        invariant
            0 <= c <= m,
            valid_matrix(cnots@, m as nat),
            r@.len() == c,
            forall|d: int| 0 <= d < c ==> (#[trigger] r@[d])@ == columns_of(cnots@, m as nat)[d],
        decreases m - c,
    {
        let mut col: Vec<bool> = Vec::new();
        let mut q: usize = 0;
        while q < cnots.len()
            invariant
                0 <= q <= cnots@.len(),
                c < m,
                valid_matrix(cnots@, m as nat),
                col@ =~= Seq::new(q as nat, |p: int| cnots@[p]@[c as int] == 1),
            decreases cnots@.len() - q,
        {
            assert(cnots@[q as int]@.len() == m);
            col.push(cnots[q][c] == 1);
            q += 1;
        }
        assert(col@ =~= columns_of(cnots@, m as nat)[c as int]);
        r.push(col);
        c += 1;
    }
    assert(mat(r) =~= columns_of(cnots@, m as nat));
    r
}

/// Synthesises the phase polynomial whose terms are the columns of `cnots`
/// (one row per qubit, one column per label of `angles`) over CNOT and phase
/// gates. First each term already held by some qubit gets its gate, qubit by
/// qubit and in column order (`prepass`); then the partition, started on the
/// columns that are left, emits CNOTs and the gates that they make available. Every
/// emitted phase gate sits on a qubit whose parity at that point equals its
/// term, is the one that `angles` names for that term, and no term gets two gates;
/// `state` is what the CNOTs compute from the identity.
pub fn synth_cnot_phase_aam(cnots: &Vec<Vec<u8>>, angles: &Vec<String>) -> (r: Result<PhaseCircuit, SynthError>)
    ensures
        r is Ok <==> valid_matrix(cnots@, angles@.len()),
        r is Err ==> r == Err::<PhaseCircuit, SynthError>(SynthError::InvalidMatrix),
        r is Ok ==> ({
            let out = r->Ok_0;
            let n = cnots@.len();
            let steps = steps_of(out.instructions@);
            let terms = columns_of(cnots@, angles@.len());
            &&& out.num_qubits == n
            &&& mat(out.state) == replay(n, steps)
            &&& sound_steps(terms, n, steps)
            &&& emitted_once(steps)
            &&& forall|k: int| 0 <= k < out.instructions@.len() ==> match #[trigger] out.instructions@[k] {
                Instruction::Phase { gate, term, .. } => gate == gate_of_label(angles@[term as int]),
                Instruction::Cx { .. } => true,
            }
            &&& forall|t: int| 0 <= t < angles@.len() ==>
                (out.unmatched@.contains(t as usize) <==> !emitted(steps, t))
            &&& extends(steps, prepass(cnots@, angles@.len()).2)
        }),
{
    let m = angles.len();
    if !check_matrix(cnots, m) {
        return Err(SynthError::InvalidMatrix);
    }
    let n = cnots.len();
    let columns = matrix_columns(cnots, m);
    let mut syn = Synthesis::new(n, columns);
    let ghost s0 = syn.steps@;
    syn.scan_all();
    let ghost pre = syn.steps@;
    proof {
        assert(s0 + prepass(cnots@, m as nat).2 =~= prepass(cnots@, m as nat).2);
    }
    let root = copy_matrix(&syn.columns);
    proof {
        assert(mat(root).len() == root@.len());
        assert(mat(syn.columns).len() == syn.columns@.len());
        assert forall|c: int| 0 <= c < root@.len() implies (#[trigger] root@[c])@.len() == n by {
            assert(mat(root)[c] == root@[c]@);
            assert(mat(syn.columns)[c] == syn.columns@[c]@);
            assert(syn.columns@[c]@ == syn.original@[syn.terms@[c] as int]);
        }
    }
    partition(&mut syn, root);
    let ghost steps = syn.steps@;
    let mut instructions: Vec<Instruction> = Vec::new();
    let mut k: usize = 0;
    while k < syn.steps.len()
        invariant
            syn.wf(),
            syn.original@ == columns_of(cnots@, m as nat),
            syn.num_qubits == n,
            m == angles@.len(),
            0 <= k <= syn.steps@.len(),
            instructions@.len() == k,
            forall|t: int| 0 <= t < k ==> step_of(#[trigger] instructions@[t]) == syn.steps@[t],
            forall|t: int| 0 <= t < k ==> match #[trigger] instructions@[t] {
                Instruction::Phase { gate, term, .. } => gate == gate_of_label(angles@[term as int]),
                Instruction::Cx { .. } => true,
            },
        decreases syn.steps@.len() - k,
    {
        let ins = match syn.steps[k] {
            Step::Cx { control, target } => Instruction::Cx { control, target },
            Step::Phase { term, qubit } => {
                assert(sound_steps(syn.original@, n as nat, syn.steps@));
                assert(match syn.steps@[k as int] {
                    Step::Cx { control, target } => control < n && target < n && control != target,
                    Step::Phase { term, qubit } => term < syn.original@.len() && qubit < n
                        && syn.original@[term as int] == replay(n as nat, syn.steps@.take(k as int))[qubit as int],
                });
                Instruction::Phase { gate: gate_of(&angles[term]), term, qubit }
            },
        };
        instructions.push(ins);
        k += 1;
    }
    assert(steps_of(instructions@) =~= syn.steps@);
    assert(pre == prepass(cnots@, m as nat).2);
    assert(syn.steps@.take(pre.len() as int) == pre);
    proof {
        assert forall|t: int| 0 <= t < angles@.len() implies
            (syn.terms@.contains(t as usize) <==> !emitted(syn.steps@, t)) by {
            if syn.terms@.contains(t as usize) {
                let i = choose|i: int| 0 <= i < syn.terms@.len() && syn.terms@[i] == t as usize;
                assert(!emitted(syn.steps@, syn.terms@[i] as int));
            }
        }
    }
    Ok(PhaseCircuit { num_qubits: n, instructions, state: syn.state, unmatched: syn.terms })
}

/// A list of (control, target) pairs as CNOT steps.
pub open spec fn cnot_steps(pairs: Seq<(usize, usize)>) -> Seq<Step> {
    Seq::new(pairs.len(), |k: int| Step::Cx { control: pairs[k].0, target: pairs[k].1 })
}

/// Appends a CNOT-only circuit given as (control, target) pairs in reverse
/// order: the circuit that rebuilds the final parity state from the identity,
/// appended backwards, takes that state back to the identity.
pub fn append_residual(instructions: &mut Vec<Instruction>, residual: &Vec<(usize, usize)>)
    ensures
        final(instructions)@.len() == old(instructions)@.len() + residual@.len(),
        forall|k: int| 0 <= k < old(instructions)@.len() ==> final(instructions)@[k] == old(instructions)@[k],
        forall|k: int| 0 <= k < residual@.len() ==>
            #[trigger] final(instructions)@[old(instructions)@.len() + k] == (Instruction::Cx {
                control: residual@[residual@.len() - 1 - k].0,
                target: residual@[residual@.len() - 1 - k].1,
            }),
        steps_of(final(instructions)@) == steps_of(old(instructions)@) + reversed(cnot_steps(residual@)),
{
    let ghost start = instructions@;
    let mut k: usize = residual.len();
    while k > 0
        invariant
            0 <= k <= residual@.len(),
            instructions@.len() == start.len() + (residual@.len() - k),
            forall|t: int| 0 <= t < start.len() ==> instructions@[t] == start[t],
            forall|t: int| 0 <= t < residual@.len() - k ==>
                #[trigger] instructions@[start.len() + t] == (Instruction::Cx {
                    control: residual@[residual@.len() - 1 - t].0,
                    target: residual@[residual@.len() - 1 - t].1,
                }),
        decreases k,
    {
        k -= 1;
        let (control, target) = residual[k];
        instructions.push(Instruction::Cx { control, target });
    }
    proof {
        let r = cnot_steps(residual@);
        assert forall|t: int| 0 <= t < instructions@.len() implies
            steps_of(instructions@)[t] == (steps_of(start) + reversed(r))[t] by {
            if t >= start.len() {
                let u = t - start.len();
                assert(instructions@[start.len() + u] == instructions@[t]);
            }
        }
        assert(steps_of(instructions@) =~= steps_of(start) + reversed(r));
    }
}

} // verus!
