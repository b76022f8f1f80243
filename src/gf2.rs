use vstd::prelude::*;

verus! {

/// The sum over GF(2) of two bit vectors, entry by entry.
pub open spec fn xor_bits(a: Seq<bool>, b: Seq<bool>) -> Seq<bool> {
    Seq::new(a.len(), |k: int| a[k] != b[k])
}

/// The n×n identity matrix over GF(2), as a sequence of rows.
pub open spec fn identity(n: nat) -> Seq<Seq<bool>> {
    Seq::new(n, |i: int| Seq::new(n, |k: int| i == k))
}

/// Every row of `m` has length `len`.
pub open spec fn rows_of_len(m: Seq<Seq<bool>>, len: nat) -> bool {
    forall|i: int| 0 <= i < m.len() ==> (#[trigger] m[i]).len() == len
}

/// The rows of a bit matrix, as mathematical sequences.
pub open spec fn mat(v: Vec<Vec<bool>>) -> Seq<Seq<bool>> {
    Seq::new(v@.len(), |i: int| v@[i]@)
}

/// Row `target` of `m` receives the sum of itself and row `control`.
pub open spec fn xor_row_into(m: Seq<Seq<bool>>, control: int, target: int) -> Seq<Seq<bool>> {
    if 0 <= control < m.len() && 0 <= target < m.len() {
        m.update(target, xor_bits(m[target], m[control]))
    } else {
        m
    }
}

/// Compares two bit vectors.
pub fn bits_equal(a: &Vec<bool>, b: &Vec<bool>) -> (r: bool)
    ensures
        r == (a@ == b@),
{
    if a.len() != b.len() {
        return false;
    }
    let mut k: usize = 0;
    while k < a.len()
        invariant
            a@.len() == b@.len(),
            0 <= k <= a@.len(),
            forall|t: int| 0 <= t < k ==> a@[t] == b@[t],
        decreases a@.len() - k,
    {
        if a[k] != b[k] {
            return false;
        }
        k += 1;
    }
    assert(a@ =~= b@);
    true
}

/// Builds the n×n identity matrix.
pub fn identity_matrix(n: usize) -> (r: Vec<Vec<bool>>)
    ensures
        mat(r) == identity(n as nat),
{
    let mut r: Vec<Vec<bool>> = Vec::new();
    let mut i: usize = 0;
    while i < n
        invariant
            0 <= i <= n,
            r@.len() == i,
            forall|j: int| 0 <= j < i ==> (#[trigger] r@[j])@ == identity(n as nat)[j],
        decreases n - i,
    {
        let mut row: Vec<bool> = Vec::new();
        let mut k: usize = 0;
        while k < n
            invariant
                0 <= k <= n,
                row@ =~= Seq::new(k as nat, |t: int| i as int == t),
            decreases n - k,
        {
            row.push(i == k);
            k += 1;
        }
        assert(row@ =~= identity(n as nat)[i as int]);
        r.push(row);
        i += 1;
    }
    assert(mat(r) =~= identity(n as nat));
    r
}

/// Copies a bit matrix.
pub fn copy_matrix(v: &Vec<Vec<bool>>) -> (r: Vec<Vec<bool>>)
    ensures
        mat(r) == mat(*v),
{
    let mut r: Vec<Vec<bool>> = Vec::new();
    let mut i: usize = 0;
    while i < v.len()
        invariant
            0 <= i <= v@.len(),
            r@.len() == i,
            forall|j: int| 0 <= j < i ==> (#[trigger] r@[j])@ == v@[j]@,
        decreases v@.len() - i,
    {
        let mut row: Vec<bool> = Vec::new();
        let mut k: usize = 0;
        while k < v[i].len()
            invariant
                i < v@.len(),
                0 <= k <= v@[i as int]@.len(),
                row@ =~= v@[i as int]@.take(k as int),
            decreases v@[i as int]@.len() - k,
        {
            row.push(v[i][k]);
            k += 1;
        }
        assert(row@ =~= v@[i as int]@);
        r.push(row);
        i += 1;
    }
    assert(mat(r) =~= mat(*v));
    r
}

/// Adds row `control` of `m` into row `target`.
pub fn xor_row(m: &mut Vec<Vec<bool>>, control: usize, target: usize)
    requires
        control < old(m)@.len(),
        target < old(m)@.len(),
        old(m)@[control as int]@.len() == old(m)@[target as int]@.len(),
    ensures
        mat(*final(m)) == xor_row_into(mat(*old(m)), control as int, target as int),
{
    let src = m[control].clone();
    let mut row = m[target].clone();
    let ghost tgt = row@;
    let mut k: usize = 0;
    while k < row.len()
        invariant
            row@.len() == tgt.len(),
            src@.len() == tgt.len(),
            0 <= k <= row@.len(),
            forall|t: int| 0 <= t < k ==> row@[t] == (tgt[t] != src@[t]),
            forall|t: int| k <= t < row@.len() ==> row@[t] == tgt[t],
        decreases row@.len() - k,
    {
        let v = row[k] != src[k];
        row.set(k, v);
        k += 1;
    }
    assert(row@ =~= xor_bits(tgt, src@));
    m.set(target, row);
    assert(mat(*final(m)) =~= xor_row_into(mat(*old(m)), control as int, target as int));
}

} // verus!
