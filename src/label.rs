use vstd::prelude::*;
use vstd::utf8::encode_utf8;

verus! {

/// The single-qubit phase operation that an angle label stands for.
#[derive(Clone, Debug, PartialEq, Eq)]
pub enum PhaseGate {
    T,
    Tdg,
    S,
    Sdg,
    Z,
    /// A rotation by the radian angle that the label writes out.
    Angle(String),
}

/// What an angle label stands for: a fixed rotation for t, tdg, s, sdg and z, else an angle.
pub open spec fn gate_of_label(label: String) -> PhaseGate {
    let b = encode_utf8(label@);
    if b == seq![116u8] {
        PhaseGate::T
    } else if b == seq![116u8, 100u8, 103u8] {
        PhaseGate::Tdg
    } else if b == seq![115u8] {
        PhaseGate::S
    } else if b == seq![115u8, 100u8, 103u8] {
        PhaseGate::Sdg
    } else if b == seq![122u8] {
        PhaseGate::Z
    } else {
        PhaseGate::Angle(label)
    }
}

fn bytes_are(b: &[u8], lit: &[u8]) -> (r: bool)
    ensures
        r == (b@ == lit@),
{
    if b.len() != lit.len() {
        return false;
    }
    let mut k: usize = 0;
    while k < b.len()
        invariant
            b@.len() == lit@.len(),
            0 <= k <= b@.len(),
            forall|t: int| 0 <= t < k ==> b@[t] == lit@[t],
        decreases b@.len() - k,
    {
        if b[k] != lit[k] {
            return false;
        }
        k += 1;
    }
    assert(b@ =~= lit@);
    true
}

/// Maps an angle label to its phase gate: "t", "tdg", "s", "sdg" and "z" name
/// fixed rotations; any other label is kept as the text of a radian angle.
pub fn gate_of(label: &String) -> (g: PhaseGate)
    ensures
        g == gate_of_label(*label),
{
    let b = label.as_str().as_bytes();
    let t: [u8; 1] = [116u8];
    let tdg: [u8; 3] = [116u8, 100u8, 103u8];
    let s: [u8; 1] = [115u8];
    let sdg: [u8; 3] = [115u8, 100u8, 103u8];
    let z: [u8; 1] = [122u8];
    assert(t@ =~= seq![116u8]);
    assert(tdg@ =~= seq![116u8, 100u8, 103u8]);
    assert(s@ =~= seq![115u8]);
    assert(sdg@ =~= seq![115u8, 100u8, 103u8]);
    assert(z@ =~= seq![122u8]);
    if bytes_are(b, &t) {
        PhaseGate::T
    } else if bytes_are(b, &tdg) {
        PhaseGate::Tdg
    } else if bytes_are(b, &s) {
        PhaseGate::S
    } else if bytes_are(b, &sdg) {
        PhaseGate::Sdg
    } else if bytes_are(b, &z) {
        PhaseGate::Z
    } else {
        PhaseGate::Angle(label.clone())
    }
}

} // verus!
