use cnot_phase_synth::engine::partition;
use cnot_phase_synth::label::{gate_of, PhaseGate};
use cnot_phase_synth::synth::{append_residual, synth_cnot_phase_aam, Instruction, SynthError};
use cnot_phase_synth::tracker::{Step, Synthesis};

fn labels(names: &[&str]) -> Vec<String> {
    names.iter().map(|s| s.to_string()).collect()
}

fn replay_cnots(n: usize, instructions: &[Instruction]) -> Vec<Vec<bool>> {
    let mut state: Vec<Vec<bool>> = (0..n).map(|i| (0..n).map(|k| i == k).collect()).collect();
    for ins in instructions {
        if let Instruction::Cx { control, target } = ins {
            let src = state[*control].clone();
            for k in 0..n {
                state[*target][k] ^= src[k];
            }
        }
    }
    state
}

#[test]
fn single_term_on_one_qubit() {
    let out = synth_cnot_phase_aam(&vec![vec![1u8]], &labels(&["t"])).ok().unwrap();
    assert_eq!(
        out.instructions,
        vec![Instruction::Phase { gate: PhaseGate::T, term: 0, qubit: 0 }]
    );
    assert!(out.unmatched.is_empty());
}

#[test]
fn two_qubits_three_terms() {
    // columns [1,0], [0,1], [1,1]
    let cnots = vec![vec![1u8, 0, 1], vec![0u8, 1, 1]];
    let out = synth_cnot_phase_aam(&cnots, &labels(&["s", "z", "t"])).ok().unwrap();
    assert_eq!(
        out.instructions,
        vec![
            Instruction::Phase { gate: PhaseGate::S, term: 0, qubit: 0 },
            Instruction::Phase { gate: PhaseGate::Z, term: 1, qubit: 1 },
            Instruction::Cx { control: 1, target: 0 },
            Instruction::Phase { gate: PhaseGate::T, term: 2, qubit: 0 },
        ]
    );
    assert_eq!(out.state, vec![vec![true, true], vec![false, true]]);
    assert!(out.unmatched.is_empty());
}

#[test]
fn angle_label_is_kept() {
    let out = synth_cnot_phase_aam(&vec![vec![1u8]], &labels(&["0.7853981633974483"])).ok().unwrap();
    assert_eq!(
        out.instructions,
        vec![Instruction::Phase {
            gate: PhaseGate::Angle("0.7853981633974483".to_string()),
            term: 0,
            qubit: 0
        }]
    );
}

#[test]
fn unknown_label_becomes_an_angle() {
    assert_eq!(gate_of(&"xyz".to_string()), PhaseGate::Angle("xyz".to_string()));
}

#[test]
fn named_labels() {
    assert_eq!(gate_of(&"t".to_string()), PhaseGate::T);
    assert_eq!(gate_of(&"tdg".to_string()), PhaseGate::Tdg);
    assert_eq!(gate_of(&"s".to_string()), PhaseGate::S);
    assert_eq!(gate_of(&"sdg".to_string()), PhaseGate::Sdg);
    assert_eq!(gate_of(&"z".to_string()), PhaseGate::Z);
    assert_eq!(gate_of(&"tgd".to_string()), PhaseGate::Angle("tgd".to_string()));
    assert_eq!(gate_of(&"T".to_string()), PhaseGate::Angle("T".to_string()));
}

#[test]
fn row_length_mismatch_is_rejected() {
    let cnots = vec![vec![1u8, 0], vec![0u8]];
    let r = synth_cnot_phase_aam(&cnots, &labels(&["t", "s"]));
    assert!(matches!(r, Err(SynthError::InvalidMatrix)));
}

#[test]
fn label_count_mismatch_is_rejected() {
    let cnots = vec![vec![1u8, 0]];
    let r = synth_cnot_phase_aam(&cnots, &labels(&["t"]));
    assert!(matches!(r, Err(SynthError::InvalidMatrix)));
}

#[test]
fn non_binary_entry_is_rejected() {
    let cnots = vec![vec![2u8]];
    let r = synth_cnot_phase_aam(&cnots, &labels(&["t"]));
    assert!(matches!(r, Err(SynthError::InvalidMatrix)));
}

#[test]
fn every_term_gets_one_gate() {
    let cnots = vec![
        vec![1u8, 1, 0, 1, 1, 0],
        vec![1u8, 0, 1, 1, 0, 1],
        vec![0u8, 1, 1, 1, 1, 1],
    ];
    let angles = labels(&["t", "s", "z", "sdg", "tdg", "0.5"]);
    let out = synth_cnot_phase_aam(&cnots, &angles).ok().unwrap();
    let mut seen = vec![0usize; angles.len()];
    for ins in &out.instructions {
        if let Instruction::Phase { term, .. } = ins {
            seen[*term] += 1;
        }
    }
    assert_eq!(seen, vec![1; angles.len()]);
    assert!(out.unmatched.is_empty());
}

#[test]
fn cnots_replay_to_final_state() {
    let cnots = vec![
        vec![1u8, 1, 0, 1, 1, 0, 1],
        vec![1u8, 0, 1, 1, 0, 1, 1],
        vec![0u8, 1, 1, 1, 1, 1, 0],
        vec![1u8, 1, 1, 0, 0, 1, 1],
    ];
    let angles = labels(&["t", "s", "z", "sdg", "tdg", "t", "s"]);
    let out = synth_cnot_phase_aam(&cnots, &angles).ok().unwrap();
    assert_eq!(replay_cnots(4, &out.instructions), out.state);
}

#[test]
fn phase_gates_sit_on_matching_parity() {
    let cnots = vec![
        vec![1u8, 1, 0, 1, 1, 0, 1],
        vec![1u8, 0, 1, 1, 0, 1, 1],
        vec![0u8, 1, 1, 1, 1, 1, 0],
        vec![1u8, 1, 1, 0, 0, 1, 1],
    ];
    let angles = labels(&["t", "s", "z", "sdg", "tdg", "t", "s"]);
    let out = synth_cnot_phase_aam(&cnots, &angles).ok().unwrap();
    for (k, ins) in out.instructions.iter().enumerate() {
        if let Instruction::Phase { term, qubit, .. } = ins {
            let state = replay_cnots(4, &out.instructions[..k]);
            let column: Vec<bool> = (0..4).map(|q| cnots[q][*term] == 1).collect();
            assert_eq!(state[*qubit], column);
        }
    }
}

#[test]
fn zero_column_stays_unmatched() {
    let cnots = vec![vec![0u8, 1], vec![0u8, 0]];
    let out = synth_cnot_phase_aam(&cnots, &labels(&["t", "s"])).ok().unwrap();
    assert_eq!(out.unmatched, vec![0]);
    assert_eq!(
        out.instructions,
        vec![Instruction::Phase { gate: PhaseGate::S, term: 1, qubit: 0 }]
    );
}

#[test]
fn same_input_same_output() {
    let cnots = vec![
        vec![1u8, 1, 0, 1, 1, 0, 1],
        vec![1u8, 0, 1, 1, 0, 1, 1],
        vec![0u8, 1, 1, 1, 1, 1, 0],
    ];
    let angles = labels(&["t", "s", "z", "sdg", "tdg", "t", "0.25"]);
    let a = synth_cnot_phase_aam(&cnots, &angles).ok().unwrap();
    let b = synth_cnot_phase_aam(&cnots, &angles).ok().unwrap();
    assert_eq!(a.instructions, b.instructions);
    assert_eq!(a.state, b.state);
    assert_eq!(a.unmatched, b.unmatched);
}

#[test]
fn immediate_pass_twice_is_a_no_op() {
    let columns = vec![vec![true, false], vec![true, true], vec![false, true], vec![true, false]];
    let mut syn = Synthesis::new(2, columns);
    syn.scan_all();
    assert_eq!(
        syn.steps,
        vec![
            Step::Phase { term: 0, qubit: 0 },
            Step::Phase { term: 3, qubit: 0 },
            Step::Phase { term: 2, qubit: 1 },
        ]
    );
    let steps = syn.steps.clone();
    let columns = syn.columns.clone();
    syn.scan_all();
    assert_eq!(syn.steps, steps);
    assert_eq!(syn.columns, columns);
    assert_eq!(syn.terms, vec![1]);
}

#[test]
fn partition_finishes_and_extends_steps() {
    let columns = vec![vec![true, true]];
    let mut syn = Synthesis::new(2, columns.clone());
    syn.scan_all();
    partition(&mut syn, columns);
    assert_eq!(
        syn.steps,
        vec![Step::Cx { control: 1, target: 0 }, Step::Phase { term: 0, qubit: 0 }]
    );
}

#[test]
fn residual_is_appended_in_reverse() {
    let mut instructions = vec![Instruction::Cx { control: 0, target: 1 }];
    append_residual(&mut instructions, &vec![(0, 2), (1, 2), (2, 0)]);
    assert_eq!(
        instructions,
        vec![
            Instruction::Cx { control: 0, target: 1 },
            Instruction::Cx { control: 2, target: 0 },
            Instruction::Cx { control: 1, target: 2 },
            Instruction::Cx { control: 0, target: 2 },
        ]
    );
}

#[test]
fn nonzero_terms_all_get_gates_on_many_inputs() {
    let mut seed: u64 = 0x2545f4914f6cdd1d;
    let mut next = || {
        seed = seed.wrapping_mul(6364136223846793005).wrapping_add(1442695040888963407);
        (seed >> 33) as usize
    };
    for _ in 0..300 {
        let n = 1 + next() % 5;
        let m = next() % 9;
        let cnots: Vec<Vec<u8>> = (0..n).map(|_| (0..m).map(|_| (next() % 2) as u8).collect()).collect();
        let angles: Vec<String> = (0..m).map(|k| ["t", "s", "z", "sdg", "tdg"][k % 5].to_string()).collect();
        let out = synth_cnot_phase_aam(&cnots, &angles).ok().unwrap();
        let mut seen = vec![0usize; m];
        for (k, ins) in out.instructions.iter().enumerate() {
            if let Instruction::Phase { term, qubit, .. } = ins {
                seen[*term] += 1;
                let state = replay_cnots(n, &out.instructions[..k]);
                let column: Vec<bool> = (0..n).map(|q| cnots[q][*term] == 1).collect();
                assert_eq!(state[*qubit], column);
            }
        }
        for t in 0..m {
            let zero = (0..n).all(|q| cnots[q][t] == 0);
            assert_eq!(seen[t], if zero { 0 } else { 1 });
            assert_eq!(out.unmatched.contains(&t), zero);
        }
        assert_eq!(replay_cnots(n, &out.instructions), out.state);
    }
}

#[test]
fn labels_without_rows_are_rejected() {
    let cnots: Vec<Vec<u8>> = vec![];
    let r = synth_cnot_phase_aam(&cnots, &labels(&["t"]));
    assert!(matches!(r, Err(SynthError::InvalidMatrix)));
    let empty = synth_cnot_phase_aam(&cnots, &labels(&[])).ok().unwrap();
    assert!(empty.instructions.is_empty());
}
