use vstd::prelude::*;
use crate::gf2::{bits_equal, identity, identity_matrix, mat, rows_of_len, xor_bits, xor_row, xor_row_into};

verus! {

/// One emitted operation, with the phase term it realises.
#[derive(Clone, Copy, Debug, PartialEq, Eq)]
pub enum Step {
    /// CNOT: qubit `target` receives the parity of qubit `control`.
    Cx { control: usize, target: usize },
    /// The phase of original term `term` applied on qubit `qubit`.
    Phase { term: usize, qubit: usize },
}

/// The effect of one step on the parity state.
pub open spec fn apply_step(st: Seq<Seq<bool>>, s: Step) -> Seq<Seq<bool>> {
    match s {
        Step::Cx { control, target } => xor_row_into(st, control as int, target as int),
        Step::Phase { .. } => st,
    }
}

/// The parity state reached by running `steps` from the identity on n qubits.
pub open spec fn replay(n: nat, steps: Seq<Step>) -> Seq<Seq<bool>>
    decreases steps.len(),
{
    if steps.len() == 0 {
        identity(n)
    } else {
        apply_step(replay(n, steps.drop_last()), steps.last())
    }
}

/// The parity state reached by running `steps` from `st`.
pub open spec fn run(st: Seq<Seq<bool>>, steps: Seq<Step>) -> Seq<Seq<bool>>
    decreases steps.len(),
{
    if steps.len() == 0 {
        st
    } else {
        apply_step(run(st, steps.drop_last()), steps.last())
    }
}

/// The steps in reverse order.
pub open spec fn reversed(steps: Seq<Step>) -> Seq<Step> {
    Seq::new(steps.len(), |k: int| steps[steps.len() - 1 - k])
}

/// Every CNOT of `steps` has distinct control and target.
pub open spec fn proper_cnots(steps: Seq<Step>) -> bool {
    forall|k: int| 0 <= k < steps.len() ==> match #[trigger] steps[k] {
        Step::Cx { control, target } => control != target,
        Step::Phase { .. } => true,
    }
}

proof fn lemma_replay_is_run(n: nat, steps: Seq<Step>)
    ensures
        replay(n, steps) == run(identity(n), steps),
    decreases steps.len(),
{
    if steps.len() > 0 {
        lemma_replay_is_run(n, steps.drop_last());
    }
}

proof fn lemma_run_concat(st: Seq<Seq<bool>>, a: Seq<Step>, b: Seq<Step>)
    ensures
        run(st, a + b) == run(run(st, a), b),
    decreases b.len(),
{
    if b.len() == 0 {
        assert(a + b =~= a);
    } else {
        assert((a + b).drop_last() =~= a + b.drop_last());
        lemma_run_concat(st, a, b.drop_last());
    }
}

proof fn lemma_step_twice(st: Seq<Seq<bool>>, s: Step)
    requires
        s is Cx ==> s->control != s->target,
        rows_of_len(st, st.len()),
    ensures
        apply_step(apply_step(st, s), s) == st,
{
    match s {
        Step::Cx { control, target } => {
            let once = apply_step(st, s);
            if control < st.len() && target < st.len() {
                assert(once[control as int] == st[control as int]);
                assert(xor_bits(once[target as int], once[control as int]) =~= st[target as int]);
                assert(apply_step(once, s) =~= st);
            }
        },
        Step::Phase { .. } => {},
    }
}

/// A run that retraces its own steps backwards ends where it started, for
/// square states and CNOTs on distinct qubits.
proof fn lemma_run_there_and_back(st: Seq<Seq<bool>>, steps: Seq<Step>)
    requires
        proper_cnots(steps),
        rows_of_len(st, st.len()),
    ensures
        run(st, steps + reversed(steps)) == st,
    decreases steps.len(),
{
    if steps.len() > 0 {
        let g = steps.last();
        let front = steps.drop_last();
        assert(proper_cnots(front)) by {
            assert forall|k: int| 0 <= k < front.len() implies match #[trigger] front[k] {
                Step::Cx { control, target } => control != target,
                Step::Phase { .. } => true,
            } by {
                assert(front[k] == steps[k]);
            }
        }
        assert(steps[steps.len() - 1] == g);
        lemma_run_there_and_back(st, front);
        assert(steps + reversed(steps) =~= (front + seq![g, g]) + reversed(front));
        lemma_run_concat(st, front + seq![g, g], reversed(front));
        lemma_run_concat(st, front, seq![g, g]);
        lemma_run_concat(st, front, reversed(front));
        let mid = run(st, front);
        lemma_run_shape(st, front);
        assert(seq![g, g].drop_last() =~= seq![g]);
        assert(seq![g].drop_last() =~= Seq::<Step>::empty());
        lemma_step_twice(mid, g);
        assert(run(mid, seq![g]) == apply_step(run(mid, Seq::<Step>::empty()), g));
        assert(run(mid, seq![g, g]) == apply_step(run(mid, seq![g]), g));
        assert(run(mid, seq![g, g]) == mid);
        assert(run(st, front + seq![g, g]) == mid);
    }
}

proof fn lemma_run_shape(st: Seq<Seq<bool>>, steps: Seq<Step>)
    requires
        rows_of_len(st, st.len()),
    ensures
        run(st, steps).len() == st.len(),
        rows_of_len(run(st, steps), st.len()),
    decreases steps.len(),
{
    if steps.len() > 0 {
        lemma_run_shape(st, steps.drop_last());
    }
}

/// Appending, in reverse, a CNOT circuit that builds the same parity state as
/// the steps so far brings every qubit back to its own input bit.
pub proof fn lemma_residual_restores(n: nat, steps: Seq<Step>, residual: Seq<Step>)
    requires
        proper_cnots(residual),
        replay(n, residual) == replay(n, steps),
    ensures
        replay(n, steps + reversed(residual)) == identity(n),
{
    lemma_replay_is_run(n, steps);
    lemma_replay_is_run(n, residual);
    lemma_replay_is_run(n, steps + reversed(residual));
    lemma_run_concat(identity(n), steps, reversed(residual));
    lemma_run_concat(identity(n), residual, reversed(residual));
    lemma_run_there_and_back(identity(n), residual);
}

/// Every CNOT acts on two distinct qubits below n, and every phase gate on a
/// qubit below n applies a term of `orig` that the qubit's parity equals at
/// that point of the run.
pub open spec fn sound_steps(orig: Seq<Seq<bool>>, n: nat, steps: Seq<Step>) -> bool {
    forall|k: int| 0 <= k < steps.len() ==> match #[trigger] steps[k] {
        Step::Cx { control, target } => control < n && target < n && control != target,
        Step::Phase { term, qubit } => term < orig.len() && qubit < n
            && orig[term as int] == replay(n, steps.take(k))[qubit as int],
    }
}

/// Term t has had its phase gate.
pub open spec fn emitted(steps: Seq<Step>, t: int) -> bool {
    exists|k: int| 0 <= k < steps.len() && #[trigger] steps[k] == (Step::Phase { term: t as usize, qubit: steps[k]->qubit })
}

/// No term has had two phase gates.
pub open spec fn emitted_once(steps: Seq<Step>) -> bool {
    forall|a: int, b: int|
        0 <= a < b < steps.len() && (#[trigger] steps[a]) is Phase && (#[trigger] steps[b]) is Phase
            ==> steps[a]->term != steps[b]->term
}

/// No remaining column equals the parity of any qubit in `state`.
pub open spec fn no_matches(state: Seq<Seq<bool>>, cols: Seq<Seq<bool>>) -> bool {
    forall|q: int, i: int| 0 <= q < state.len() && 0 <= i < cols.len() ==> #[trigger] cols[i] != #[trigger] state[q]
}

/// The running synthesis: the parity state, the phase terms that still wait for
/// their gate, and the steps emitted so far.
pub struct Synthesis {
    pub num_qubits: usize,
    /// Row q is the parity of the input bits that qubit q holds.
    pub state: Vec<Vec<bool>>,
    /// The columns of the terms still waiting, in order.
    pub columns: Vec<Vec<bool>>,
    /// The original index of each waiting column.
    pub terms: Vec<usize>,
    pub steps: Vec<Step>,
    /// The phase terms as given.
    pub original: Ghost<Seq<Seq<bool>>>,
}

/// The replayed state is an n×n matrix.
pub proof fn lemma_replay_shape(n: nat, steps: Seq<Step>)
    ensures
        replay(n, steps).len() == n,
        rows_of_len(replay(n, steps), n),
    decreases steps.len(),
{
    if steps.len() > 0 {
        lemma_replay_shape(n, steps.drop_last());
        let prev = replay(n, steps.drop_last());
        match steps.last() {
            Step::Cx { control, target } => {
                assert forall|i: int| 0 <= i < prev.len() implies
                    (#[trigger] xor_row_into(prev, control as int, target as int)[i]).len() == n by {}
            },
            Step::Phase { .. } => {},
        }
    }
}

proof fn lemma_replay_push(n: nat, steps: Seq<Step>, s: Step)
    ensures
        replay(n, steps.push(s)) == apply_step(replay(n, steps), s),
        forall|k: int| 0 <= k <= steps.len() ==> #[trigger] steps.push(s).take(k) == steps.take(k),
{
    assert(steps.push(s).drop_last() =~= steps);
    assert forall|k: int| 0 <= k <= steps.len() implies #[trigger] steps.push(s).take(k) == steps.take(k) by {
        assert(steps.push(s).take(k) =~= steps.take(k));
    }
}

proof fn lemma_emitted_push(steps: Seq<Step>, s: Step, t: int)
    ensures
        emitted(steps, t) ==> emitted(steps.push(s), t),
        emitted(steps.push(s), t) ==> emitted(steps, t) || s == (Step::Phase { term: t as usize, qubit: s->qubit }),
{
    let st = steps.push(s);
    if emitted(steps, t) {
        let k = choose|k: int| 0 <= k < steps.len() && #[trigger] steps[k] == (Step::Phase { term: t as usize, qubit: steps[k]->qubit });
        assert(st[k] == steps[k]);
    }
    if emitted(st, t) {
        let k = choose|k: int| 0 <= k < st.len() && #[trigger] st[k] == (Step::Phase { term: t as usize, qubit: st[k]->qubit });
        if k < steps.len() {
            assert(steps[k] == st[k]);
        }
    }
}

/// Matching one qubit whose parity is `row`: walking the columns in order,
/// each column equal to `row` leaves (with its term) and its term's phase gate
/// is emitted on qubit q; the others stay, in order. Returns the columns and
/// terms that stay and the emitted steps.
pub open spec fn match_spec(cols: Seq<Seq<bool>>, terms: Seq<usize>, row: Seq<bool>, q: usize) -> (
    Seq<Seq<bool>>,
    Seq<usize>,
    Seq<Step>,
)
    decreases cols.len(),
{
    if cols.len() == 0 {
        (Seq::empty(), Seq::empty(), Seq::empty())
    } else {
        let r = match_spec(cols.drop_last(), terms.drop_last(), row, q);
        if cols.last() == row {
            (r.0, r.1, r.2.push(Step::Phase { term: terms.last(), qubit: q }))
        } else {
            (r.0.push(cols.last()), r.1.push(terms.last()), r.2)
        }
    }
}

/// The immediate pass from qubit q on: qubit q is matched against its parity
/// row of `state`, then qubit q + 1 against what stays, and so on.
pub open spec fn scan_spec(state: Seq<Seq<bool>>, cols: Seq<Seq<bool>>, terms: Seq<usize>, q: nat) -> (
    Seq<Seq<bool>>,
    Seq<usize>,
    Seq<Step>,
)
    decreases state.len() - q,
{
    if q >= state.len() {
        (cols, terms, Seq::empty())
    } else {
        let m = match_spec(cols, terms, state[q as int], q as usize);
        let rest = scan_spec(state, m.0, m.1, q + 1);
        (rest.0, rest.1, m.2 + rest.2)
    }
}

proof fn lemma_mat_remove(a: Vec<Vec<bool>>, b: Vec<Vec<bool>>, i: int)
    requires
        0 <= i < a@.len(),
        b@ == a@.remove(i),
    ensures
        mat(b) == mat(a).remove(i),
{
    assert forall|k: int| 0 <= k < mat(b).len() implies mat(b)[k] == mat(a).remove(i)[k] by {
        if k < i {
            assert(b@[k] == a@[k]);
        } else {
            assert(b@[k] == a@[k + 1]);
        }
    }
    assert(mat(b) =~= mat(a).remove(i));
}

proof fn lemma_match_spec_len(cols: Seq<Seq<bool>>, terms: Seq<usize>, row: Seq<bool>, q: usize)
    ensures
        match_spec(cols, terms, row, q).0.len() == match_spec(cols, terms, row, q).1.len(),
    decreases cols.len(),
{
    if cols.len() > 0 {
        lemma_match_spec_len(cols.drop_last(), terms.drop_last(), row, q);
    }
}

impl Synthesis {
    /// The bookkeeping holds: the state is what the emitted steps compute, the
    /// emitted phase gates are sound and each term is either waiting or was
    /// emitted exactly once.
    pub open spec fn wf(&self) -> bool {
        let n = self.num_qubits as nat;
        let orig = self.original@;
        &&& mat(self.state) == replay(n, self.steps@)
        &&& rows_of_len(orig, n)
        &&& orig.len() <= usize::MAX
        &&& self.columns@.len() == self.terms@.len()
        &&& forall|i: int| 0 <= i < self.terms@.len() ==> {
            &&& (#[trigger] self.terms@[i]) < orig.len()
            &&& self.columns@[i]@ == orig[self.terms@[i] as int]
            &&& !emitted(self.steps@, self.terms@[i] as int)
        }
        &&& forall|i: int, j: int| 0 <= i < j < self.terms@.len() ==> self.terms@[i] != self.terms@[j]
        &&& forall|t: int| 0 <= t < orig.len() ==> self.terms@.contains(t as usize) || emitted(self.steps@, t)
        &&& sound_steps(orig, n, self.steps@)
        &&& emitted_once(self.steps@)
    }

    /// Starts from the identity state with every column waiting.
    pub fn new(num_qubits: usize, columns: Vec<Vec<bool>>) -> (r: Self)
        requires
            forall|i: int| 0 <= i < columns@.len() ==> (#[trigger] columns@[i])@.len() == num_qubits,
        ensures
            r.wf(),
            r.num_qubits == num_qubits,
            r.original@ == mat(columns),
            r.columns@ == columns@,
            r.terms@ == Seq::new(columns@.len(), |i: int| i as usize),
            r.steps@.len() == 0,
            mat(r.state) == identity(num_qubits as nat),
    {
        let ghost orig = mat(columns);
        let mut terms: Vec<usize> = Vec::new();
        let mut i: usize = 0;
        while i < columns.len()
            invariant
                0 <= i <= columns@.len(),
                terms@.len() == i,
                forall|j: int| 0 <= j < i ==> #[trigger] terms@[j] == j,
            decreases columns@.len() - i,
        {
            terms.push(i);
            i += 1;
        }
        let state = identity_matrix(num_qubits);
        let r = Synthesis {
            num_qubits,
            state,
            columns,
            terms,
            steps: Vec::new(),
            original: Ghost(orig),
        };
        assert forall|t: int| 0 <= t < orig.len() implies r.terms@.contains(t as usize) || emitted(r.steps@, t) by {
            assert(r.terms@[t] == t as usize);
        }
        assert(r.terms@ =~= Seq::new(columns@.len(), |i: int| i as usize));
        r
    }

    /// Emits CNOT(control, target) and updates the parity of `target`.
    pub fn cnot(&mut self, control: usize, target: usize)
        requires
            old(self).wf(),
            control < old(self).num_qubits,
            target < old(self).num_qubits,
            control != target,
        ensures
            final(self).wf(),
            final(self).num_qubits == old(self).num_qubits,
            final(self).original == old(self).original,
            final(self).columns == old(self).columns,
            final(self).terms == old(self).terms,
            final(self).steps@ == old(self).steps@.push(Step::Cx { control, target }),
            mat(final(self).state) == xor_row_into(mat(old(self).state), control as int, target as int),
    {
        let ghost old_steps = self.steps@;
        let ghost n = self.num_qubits as nat;
        proof {
            lemma_replay_shape(n, old_steps);
        }
        xor_row(&mut self.state, control, target);
        let s = Step::Cx { control, target };
        self.steps.push(s);
        proof {
            lemma_replay_push(n, old_steps, s);
            assert forall|t: int| 0 <= t < self.original@.len() implies
                self.terms@.contains(t as usize) || emitted(self.steps@, t) by {
                lemma_emitted_push(old_steps, s, t);
            }
            assert forall|i: int| 0 <= i < self.terms@.len() implies
                !emitted(self.steps@, (#[trigger] self.terms@[i]) as int) by {
                lemma_emitted_push(old_steps, s, self.terms@[i] as int);
            }
            assert forall|k: int| 0 <= k < self.steps@.len() implies match #[trigger] self.steps@[k] {
                Step::Cx { control, target } => control < n && target < n && control != target,
                Step::Phase { term, qubit } => term < self.original@.len() && qubit < n
                    && self.original@[term as int] == replay(n, self.steps@.take(k))[qubit as int],
            } by {
                if k < old_steps.len() {
                    assert(self.steps@[k] == old_steps[k]);
                }
            }
        }
    }

    /// Takes waiting column i off the list and emits its phase gate on qubit q,
    /// whose parity equals that column.
    pub fn emit_phase(&mut self, i: usize, q: usize)
        requires
            old(self).wf(),
            i < old(self).columns@.len(),
            q < old(self).num_qubits,
            old(self).columns@[i as int]@ == mat(old(self).state)[q as int],
        ensures
            final(self).wf(),
            final(self).num_qubits == old(self).num_qubits,
            final(self).original == old(self).original,
            final(self).state == old(self).state,
            final(self).columns@ == old(self).columns@.remove(i as int),
            final(self).terms@ == old(self).terms@.remove(i as int),
            final(self).steps@ == old(self).steps@.push(
                Step::Phase { term: old(self).terms@[i as int], qubit: q },
            ),
    {
        let ghost old_steps = self.steps@;
        let ghost old_terms = self.terms@;
        let ghost n = self.num_qubits as nat;
        let _ = self.columns.remove(i);
        let term = self.terms.remove(i);
        let s = Step::Phase { term, qubit: q };
        self.steps.push(s);
        proof {
            lemma_replay_push(n, old_steps, s);
            assert forall|t: int| 0 <= t < self.original@.len() implies
                self.terms@.contains(t as usize) || emitted(self.steps@, t) by {
                lemma_emitted_push(old_steps, s, t);
                if t == term as int {
                    assert(self.steps@[old_steps.len() as int] == s);
                } else if old_terms.contains(t as usize) {
                    let j = choose|j: int| 0 <= j < old_terms.len() && old_terms[j] == t as usize;
                    assert(old_terms[i as int] == term);
                    if j < i {
                        assert(self.terms@[j] == t as usize);
                    } else {
                        assert(old_terms.remove(i as int)[j - 1] == old_terms[j]);
                    }
                }
            }
            assert forall|j: int| 0 <= j < self.terms@.len() implies
                !emitted(self.steps@, (#[trigger] self.terms@[j]) as int) by {
                let jj = if j < i { j } else { j + 1 };
                assert(self.terms@[j] == old_terms[jj]);
                lemma_emitted_push(old_steps, s, self.terms@[j] as int);
            }
            assert forall|k: int| 0 <= k < self.steps@.len() implies match #[trigger] self.steps@[k] {
                Step::Cx { control, target } => control < n && target < n && control != target,
                Step::Phase { term, qubit } => term < self.original@.len() && qubit < n
                    && self.original@[term as int] == replay(n, self.steps@.take(k))[qubit as int],
            } by {
                if k < old_steps.len() {
                    assert(self.steps@[k] == old_steps[k]);
                }
            }
            assert forall|a: int, b: int|
                0 <= a < b < self.steps@.len() && (#[trigger] self.steps@[a]) is Phase && (#[trigger] self.steps@[b]) is Phase
                    implies self.steps@[a]->term != self.steps@[b]->term by {
                if b == old_steps.len() {
                    assert(self.steps@[a] == old_steps[a]);
                    if old_steps[a]->term == term {
                        assert(emitted(old_steps, term as int));
                    }
                } else {
                    assert(self.steps@[a] == old_steps[a]);
                    assert(self.steps@[b] == old_steps[b]);
                }
            }
        }
    }

    /// Emits, in column order, the phase gate of every waiting column that equals
    /// the parity of qubit q, taking those columns off the list.
    #[verifier::rlimit(100)]
    pub fn match_qubit(&mut self, q: usize)
        requires
            old(self).wf(),
            q < old(self).num_qubits,
        ensures
            final(self).wf(),
            final(self).num_qubits == old(self).num_qubits,
            final(self).original == old(self).original,
            final(self).state == old(self).state,
            old(self).steps@.len() <= final(self).steps@.len(),
            final(self).steps@.take(old(self).steps@.len() as int) == old(self).steps@,
            forall|k: int| old(self).steps@.len() <= k < final(self).steps@.len() ==>
                (#[trigger] final(self).steps@[k]) is Phase && final(self).steps@[k]->qubit == q,
            forall|i: int| 0 <= i < final(self).columns@.len() ==>
                (#[trigger] final(self).columns@[i])@ != mat(final(self).state)[q as int],
            forall|i: int| 0 <= i < final(self).columns@.len() ==>
                old(self).columns@.contains(#[trigger] final(self).columns@[i]),
            ({
                let r = match_spec(mat(old(self).columns), old(self).terms@, mat(old(self).state)[q as int], q);
                &&& mat(final(self).columns) == r.0
                &&& final(self).terms@ == r.1
                &&& final(self).steps@ == old(self).steps@ + r.2
            }),
            (forall|i: int| 0 <= i < old(self).columns@.len() ==>
                (#[trigger] old(self).columns@[i])@ != mat(old(self).state)[q as int]) ==> {
                &&& final(self).columns == old(self).columns
                &&& final(self).terms == old(self).terms
                &&& final(self).steps == old(self).steps
            },
    {
        let ghost old_steps = self.steps@;
        let ghost old_cols = self.columns@;
        let ghost none_before = forall|i: int| 0 <= i < old_cols.len() ==>
            (#[trigger] old_cols[i])@ != mat(self.state)[q as int];
        let ghost start = *self;
        let ghost om = mat(self.columns);
        let ghost ot = self.terms@;
        let ghost row = mat(self.state)[q as int];
        let ghost mut p: int = 0;
        proof {
            lemma_replay_shape(self.num_qubits as nat, self.steps@);
            assert(om.take(0) =~= Seq::<Seq<bool>>::empty());
            assert(ot.take(0) =~= Seq::<usize>::empty());
            assert(mat(self.columns) =~= Seq::<Seq<bool>>::empty() + om.skip(0));
            assert(self.terms@ =~= Seq::<usize>::empty() + ot.skip(0));
            assert(self.steps@ =~= old_steps + Seq::<Step>::empty());
        }
        let mut index: usize = 0;
        while index < self.columns.len()
            invariant
                self.wf(),
                q < self.num_qubits,
                self.num_qubits == start.num_qubits,
                self.original == start.original,
                self.state == start.state,
                mat(self.state).len() == self.num_qubits,
                0 <= index <= self.columns@.len(),
                old_steps.len() <= self.steps@.len(),
                self.steps@.take(old_steps.len() as int) == old_steps,
                forall|k: int| old_steps.len() <= k < self.steps@.len() ==>
                    (#[trigger] self.steps@[k]) is Phase && self.steps@[k]->qubit == q,
                forall|i: int| 0 <= i < index ==> (#[trigger] self.columns@[i])@ != mat(self.state)[q as int],
                forall|i: int| 0 <= i < self.columns@.len() ==> old_cols.contains(#[trigger] self.columns@[i]),
                none_before == (forall|i: int| 0 <= i < old_cols.len() ==>
                    (#[trigger] old_cols[i])@ != mat(self.state)[q as int]),
                none_before ==> self.columns == start.columns && self.terms == start.terms && self.steps == start.steps,
                om == mat(start.columns),
                ot == start.terms@,
                om.len() == ot.len(),
                row == mat(self.state)[q as int],
                0 <= p <= om.len(),
                ({
                    let r = match_spec(om.take(p), ot.take(p), row, q);
                    &&& mat(self.columns) == r.0 + om.skip(p)
                    &&& self.terms@ == r.1 + ot.skip(p)
                    &&& index == r.0.len()
                    &&& self.steps@ == old_steps + r.2
                }),
            decreases self.columns@.len() - index,
        {
            if bits_equal(&self.columns[index], &self.state[q]) {
                assert(mat(self.state)[q as int] == self.state@[q as int]@);
                let ghost before = *self;
                let ghost r = match_spec(om.take(p), ot.take(p), row, q);
                proof {
                    lemma_match_spec_len(om.take(p), ot.take(p), row, q);
                    assert(mat(self.columns)[index as int] == self.columns@[index as int]@);
                    assert((r.0 + om.skip(p))[r.0.len() as int] == om[p]);
                    assert((r.1 + ot.skip(p))[r.1.len() as int] == ot[p]);
                    assert(om.take(p + 1).drop_last() =~= om.take(p));
                    assert(ot.take(p + 1).drop_last() =~= ot.take(p));
                    assert(om.take(p + 1).last() == om[p]);
                    assert(ot.take(p + 1).last() == ot[p]);
                }
                self.emit_phase(index, q);
                proof {
                    lemma_mat_remove(before.columns, self.columns, index as int);
                    assert(mat(self.columns) =~= r.0 + om.skip(p + 1));
                    assert(self.terms@ =~= r.1 + ot.skip(p + 1));
                    assert(self.steps@ =~= old_steps + r.2.push(Step::Phase { term: ot[p], qubit: q }));
                    p = p + 1;
                    assert forall|i: int| 0 <= i < self.columns@.len() implies
                        old_cols.contains(#[trigger] self.columns@[i]) by {
                        if i < index {
                            assert(self.columns@[i] == before.columns@[i]);
                        } else {
                            assert(self.columns@[i] == before.columns@[i + 1]);
                        }
                    }
                    assert forall|i: int| 0 <= i < index implies
                        (#[trigger] self.columns@[i])@ != mat(self.state)[q as int] by {
                        assert(self.columns@[i] == before.columns@[i]);
                    }
                    assert(self.steps@.take(old_steps.len() as int) =~= before.steps@.take(old_steps.len() as int));
                    assert forall|k: int| old_steps.len() <= k < self.steps@.len() implies
                        (#[trigger] self.steps@[k]) is Phase && self.steps@[k]->qubit == q by {
                        if k < before.steps@.len() {
                            assert(self.steps@[k] == before.steps@[k]);
                        }
                    }
                }
            } else {
                assert(mat(self.state)[q as int] == self.state@[q as int]@);
                proof {
                    let r = match_spec(om.take(p), ot.take(p), row, q);
                    lemma_match_spec_len(om.take(p), ot.take(p), row, q);
                    assert(mat(self.columns)[index as int] == self.columns@[index as int]@);
                    assert((r.0 + om.skip(p))[r.0.len() as int] == om[p]);
                    assert((r.1 + ot.skip(p))[r.1.len() as int] == ot[p]);
                    assert(om.take(p + 1).drop_last() =~= om.take(p));
                    assert(ot.take(p + 1).drop_last() =~= ot.take(p));
                    assert(om.take(p + 1).last() == om[p]);
                    assert(ot.take(p + 1).last() == ot[p]);
                    assert(r.0.push(om[p]) + om.skip(p + 1) =~= r.0 + om.skip(p));
                    assert(r.1.push(ot[p]) + ot.skip(p + 1) =~= r.1 + ot.skip(p));
                    p = p + 1;
                }
                index += 1;
            }
        }
        proof {
            assert(om.take(p) =~= om);
            assert(ot.take(p) =~= ot);
            assert(mat(self.columns).len() == index);
        }
    }

    /// The immediate pass: for each qubit in increasing order, emits the phase
    /// gate of every waiting column equal to that qubit's parity. Afterwards no
    /// waiting column equals the parity of any qubit, so a second pass emits
    /// nothing and leaves the columns as they are.
    pub fn scan_all(&mut self)
        requires
            old(self).wf(),
        ensures
            final(self).wf(),
            final(self).num_qubits == old(self).num_qubits,
            final(self).original == old(self).original,
            final(self).state == old(self).state,
            old(self).steps@.len() <= final(self).steps@.len(),
            final(self).steps@.take(old(self).steps@.len() as int) == old(self).steps@,
            forall|k: int| old(self).steps@.len() <= k < final(self).steps@.len() ==>
                (#[trigger] final(self).steps@[k]) is Phase,
            no_matches(mat(final(self).state), mat(final(self).columns)),
            ({
                let r = scan_spec(mat(old(self).state), mat(old(self).columns), old(self).terms@, 0);
                &&& mat(final(self).columns) == r.0
                &&& final(self).terms@ == r.1
                &&& final(self).steps@ == old(self).steps@ + r.2
            }),
            no_matches(mat(old(self).state), mat(old(self).columns)) ==> {
                &&& final(self).columns == old(self).columns
                &&& final(self).terms == old(self).terms
                &&& final(self).steps == old(self).steps
            },
    {
        let ghost start = *self;
        proof {
            lemma_replay_shape(self.num_qubits as nat, self.steps@);
        }
        let mut q: usize = 0;
        while q < self.num_qubits
            invariant
                self.wf(),
                0 <= q <= self.num_qubits,
                self.num_qubits == start.num_qubits,
                self.original == start.original,
                self.state == start.state,
                mat(self.state).len() == self.num_qubits,
                start.steps@.len() <= self.steps@.len(),
                self.steps@.take(start.steps@.len() as int) == start.steps@,
                forall|k: int| start.steps@.len() <= k < self.steps@.len() ==> (#[trigger] self.steps@[k]) is Phase,
                forall|p: int, i: int| 0 <= p < q && 0 <= i < self.columns@.len() ==>
                    (#[trigger] self.columns@[i])@ != #[trigger] mat(self.state)[p],
                no_matches(mat(start.state), mat(start.columns)) ==>
                    self.columns == start.columns && self.terms == start.terms && self.steps == start.steps,
                ({
                    let whole = scan_spec(mat(start.state), mat(start.columns), start.terms@, 0);
                    let rest = scan_spec(mat(start.state), mat(self.columns), self.terms@, q as nat);
                    &&& whole.0 == rest.0
                    &&& whole.1 == rest.1
                    &&& start.steps@ + whole.2 == self.steps@ + rest.2
                }),
            decreases self.num_qubits - q,
        {
            let ghost before = *self;
            proof {
                if no_matches(mat(start.state), mat(start.columns)) {
                    assert forall|i: int| 0 <= i < self.columns@.len() implies
                        (#[trigger] self.columns@[i])@ != mat(self.state)[q as int] by {
                        assert(mat(self.columns)[i] == self.columns@[i]@);
                    }
                }
            }
            let ghost cm = mat(self.columns);
            let ghost ct = self.terms@;
            let ghost cs = self.steps@;
            self.match_qubit(q);
            proof {
                let m = match_spec(cm, ct, mat(start.state)[q as int], q);
                let rest = scan_spec(mat(start.state), m.0, m.1, (q + 1) as nat);
                assert(scan_spec(mat(start.state), cm, ct, q as nat) == (rest.0, rest.1, m.2 + rest.2));
                assert(cs + (m.2 + rest.2) =~= (cs + m.2) + rest.2);
                assert forall|p: int, i: int| 0 <= p <= q && 0 <= i < self.columns@.len() implies
                    (#[trigger] self.columns@[i])@ != #[trigger] mat(self.state)[p] by {
                    if p < q {
                        let j = choose|j: int| 0 <= j < before.columns@.len() && before.columns@[j] == self.columns@[i];
                    }
                }
                assert(self.steps@.take(start.steps@.len() as int) =~= before.steps@.take(start.steps@.len() as int));
                assert forall|k: int| start.steps@.len() <= k < self.steps@.len() implies
                    (#[trigger] self.steps@[k]) is Phase by {
                    if k < before.steps@.len() {
                        assert(self.steps@[k] == before.steps@[k]);
                    }
                }
            }
            q += 1;
        }
        proof {
            assert(self.steps@ + Seq::<Step>::empty() =~= self.steps@);
            assert forall|p: int, i: int| 0 <= p < mat(self.state).len() && 0 <= i < mat(self.columns).len() implies
                #[trigger] mat(self.columns)[i] != #[trigger] mat(self.state)[p] by {
                assert(mat(self.columns)[i] == self.columns@[i]@);
            }
        }
    }
}

} // verus!
