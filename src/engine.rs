use vstd::prelude::*;
use crate::gf2::mat;
use crate::tracker::{Step, Synthesis};

verus! {

/// A node of the partition: a set of phase-term columns (each a parity over
/// the qubits, in the basis of the current state), the rows still eligible as
/// pivots, and the excluded row (equal to the number of qubits for none).
pub struct WorkItem {
    pub columns: Vec<Vec<bool>>,
    pub rows: Vec<usize>,
    pub excluded: usize,
}

/// The item fits n qubits: columns of length n, rows below n, excluded row at most n.
pub open spec fn item_ok(it: WorkItem, n: nat) -> bool {
    &&& forall|c: int| 0 <= c < it.columns@.len() ==> (#[trigger] it.columns@[c])@.len() == n
    &&& forall|r: int| 0 <= r < it.rows@.len() ==> (#[trigger] it.rows@[r]) < n
    &&& it.excluded <= n
}

/// The number of columns with a one in row j.
pub open spec fn ones_in_row(cols: Seq<Seq<bool>>, j: int) -> nat
    decreases cols.len(),
{
    if cols.len() == 0 {
        0
    } else {
        ones_in_row(cols.drop_last(), j) + if cols.last()[j] { 1nat } else { 0nat }
    }
}

/// How evenly row j splits the columns: the size of the larger side.
pub open spec fn balance(cols: Seq<Seq<bool>>, j: int) -> nat {
    let ones = ones_in_row(cols, j);
    let zeros = (cols.len() - ones) as nat;
    if zeros >= ones { zeros } else { ones }
}

/// The columns whose entry in row j is `bit`, in their order.
pub open spec fn select(cols: Seq<Seq<bool>>, j: int, bit: bool) -> Seq<Seq<bool>>
    decreases cols.len(),
{
    if cols.len() == 0 {
        Seq::empty()
    } else {
        let rest = select(cols.drop_last(), j, bit);
        if cols.last()[j] == bit { rest.push(cols.last()) } else { rest }
    }
}

/// The rows other than j, in their order.
pub open spec fn without(rows: Seq<usize>, j: usize) -> Seq<usize>
    decreases rows.len(),
{
    if rows.len() == 0 {
        Seq::empty()
    } else {
        let rest = without(rows.drop_last(), j);
        if rows.last() == j { rest } else { rest.push(rows.last()) }
    }
}

/// Every column has a one in row j.
fn row_all_ones(cols: &Vec<Vec<bool>>, j: usize) -> (r: bool)
    requires
        forall|c: int| 0 <= c < cols@.len() ==> j < (#[trigger] cols@[c])@.len(),
    ensures
        r == (forall|c: int| 0 <= c < cols@.len() ==> (#[trigger] cols@[c])@[j as int]),
{
    let mut c: usize = 0;
    while c < cols.len()
        invariant
            0 <= c <= cols@.len(),
            forall|d: int| 0 <= d < cols@.len() ==> j < (#[trigger] cols@[d])@.len(),
            forall|d: int| 0 <= d < c ==> (#[trigger] cols@[d])@[j as int],
        decreases cols@.len() - c,
    {
        if !cols[c][j] {
            return false;
        }
        c += 1;
    }
    true
}

/// The balance of row j.
fn row_balance(cols: &Vec<Vec<bool>>, j: usize) -> (r: usize)
    requires
        forall|c: int| 0 <= c < cols@.len() ==> j < (#[trigger] cols@[c])@.len(),
    ensures
        r == balance(mat(*cols), j as int),
{
    let mut ones: usize = 0;
    let mut c: usize = 0;
    while c < cols.len()
        invariant
            0 <= c <= cols@.len(),
            forall|d: int| 0 <= d < cols@.len() ==> j < (#[trigger] cols@[d])@.len(),
            ones == ones_in_row(mat(*cols).take(c as int), j as int),
            ones <= c,
        decreases cols@.len() - c,
    {
        proof {
            assert(mat(*cols).take(c + 1).drop_last() =~= mat(*cols).take(c as int));
        }
        if cols[c][j] {
            ones += 1;
        }
        c += 1;
    }
    assert(mat(*cols).take(c as int) =~= mat(*cols));
    let zeros = cols.len() - ones;
    if zeros >= ones { zeros } else { ones }
}

/// The position in `rows` of the pivot: the first eligible row of largest balance.
fn pivot_position(cols: &Vec<Vec<bool>>, rows: &Vec<usize>) -> (p: usize)
    requires
        rows@.len() > 0,
        forall|c: int| 0 <= c < cols@.len() ==> (#[trigger] cols@[c])@.len() > 0,
        forall|r: int, c: int| 0 <= r < rows@.len() && 0 <= c < cols@.len() ==>
            #[trigger] rows@[r] < (#[trigger] cols@[c])@.len(),
    ensures
        p < rows@.len(),
        forall|r: int| 0 <= r < rows@.len() ==>
            balance(mat(*cols), (#[trigger] rows@[r]) as int) <= balance(mat(*cols), rows@[p as int] as int),
        forall|r: int| 0 <= r < p ==>
            balance(mat(*cols), (#[trigger] rows@[r]) as int) < balance(mat(*cols), rows@[p as int] as int),
{
    let mut best: usize = 0;
    let mut best_balance = row_balance(cols, rows[0]);
    let mut r: usize = 1;
    while r < rows.len()
        invariant
            1 <= r <= rows@.len(),
            best < r,
            forall|s: int, c: int| 0 <= s < rows@.len() && 0 <= c < cols@.len() ==>
                #[trigger] rows@[s] < (#[trigger] cols@[c])@.len(),
            best_balance == balance(mat(*cols), rows@[best as int] as int),
            forall|s: int| 0 <= s < r ==>
                balance(mat(*cols), (#[trigger] rows@[s]) as int) <= best_balance,
            forall|s: int| 0 <= s < best ==>
                balance(mat(*cols), (#[trigger] rows@[s]) as int) < best_balance,
        decreases rows@.len() - r,
    {
        let b = row_balance(cols, rows[r]);
        if b > best_balance {
            best = r;
            best_balance = b;
        }
        r += 1;
    }
    best
}

/// Splits the columns by their entry in row j: (zeros, ones), each in order.
fn split_columns(cols: Vec<Vec<bool>>, j: usize) -> (r: (Vec<Vec<bool>>, Vec<Vec<bool>>))
    requires
        forall|c: int| 0 <= c < cols@.len() ==> j < (#[trigger] cols@[c])@.len(),
    ensures
        mat(r.0) == select(mat(cols), j as int, false),
        mat(r.1) == select(mat(cols), j as int, true),
{
    let ghost all = mat(cols);
    let mut zeros: Vec<Vec<bool>> = Vec::new();
    let mut ones: Vec<Vec<bool>> = Vec::new();
    let mut rest = cols;
    let mut c: usize = 0;
    let total = rest.len();
    let ghost len = all.len();
    while rest.len() > 0
        invariant
            len == all.len(),
            len == total,
            c + rest@.len() == len,
            mat(rest) == all.skip(c as int),
            forall|d: int| 0 <= d < rest@.len() ==> j < (#[trigger] rest@[d])@.len(),
            mat(zeros) == select(all.take(c as int), j as int, false),
            mat(ones) == select(all.take(c as int), j as int, true),
        decreases rest@.len(),
    {
        let ghost before = rest@;
        let ghost before_mat = mat(rest);
        let col = rest.remove(0);
        proof {
            assert(all.take(c + 1).drop_last() =~= all.take(c as int));
            assert(all.skip(c as int)[0] == all[c as int]);
            assert(col@ == all[c as int]);
            assert(all.take(c + 1).last() == all[c as int]);
        }
        if col[j] {
            ones.push(col);
            proof {
                assert(mat(ones) =~= select(all.take(c + 1), j as int, true));
                assert(mat(zeros) =~= select(all.take(c + 1), j as int, false));
            }
        } else {
            zeros.push(col);
            proof {
                assert(mat(ones) =~= select(all.take(c + 1), j as int, true));
                assert(mat(zeros) =~= select(all.take(c + 1), j as int, false));
            }
        }
        c += 1;
        proof {
            assert forall|d: int| 0 <= d < rest@.len() implies mat(rest)[d] == all.skip(c as int)[d] by {
                assert(rest@[d] == before[d + 1]);
                assert(before_mat[d + 1] == before[d + 1]@);
                assert(all.skip(c - 1)[d + 1] == all[c + d]);
                assert(all.skip(c as int)[d] == all[c + d]);
            }
            assert(mat(rest) =~= all.skip(c as int));
        }
    }
    assert(all.take(c as int) =~= all);
    (zeros, ones)
}

/// Column c with row j replaced by the sum of rows j and ep.
pub open spec fn fold_row(c: Seq<bool>, j: int, ep: int) -> Seq<bool> {
    c.update(j, c[j] != c[ep])
}

/// The rows other than j.
fn rows_without(rows: &Vec<usize>, j: usize) -> (r: Vec<usize>)
    ensures
        r@ == without(rows@, j),
        forall|k: int| 0 <= k < r@.len() ==> rows@.contains(#[trigger] r@[k]),
{
    let mut r: Vec<usize> = Vec::new();
    let mut k: usize = 0;
    while k < rows.len()
        invariant
            0 <= k <= rows@.len(),
            r@ == without(rows@.take(k as int), j),
            forall|t: int| 0 <= t < r@.len() ==> rows@.contains(#[trigger] r@[t]),
        decreases rows@.len() - k,
    {
        proof {
            assert(rows@.take(k + 1).drop_last() =~= rows@.take(k as int));
        }
        if rows[k] != j {
            r.push(rows[k]);
        }
        k += 1;
    }
    assert(rows@.take(k as int) =~= rows@);
    r
}

/// Adds row ep into row j in every column of every queued item.
fn fold_into_queue(q: &mut Vec<WorkItem>, j: usize, ep: usize, Ghost(n): Ghost<nat>)
    requires
        j < n,
        ep < n,
        forall|k: int| 0 <= k < old(q)@.len() ==> item_ok(#[trigger] old(q)@[k], n),
    ensures
        final(q)@.len() == old(q)@.len(),
        forall|k: int| 0 <= k < final(q)@.len() ==> {
            &&& item_ok(#[trigger] final(q)@[k], n)
            &&& final(q)@[k].rows == old(q)@[k].rows
            &&& final(q)@[k].excluded == old(q)@[k].excluded
            &&& final(q)@[k].columns@.len() == old(q)@[k].columns@.len()
            &&& forall|c: int| 0 <= c < final(q)@[k].columns@.len() ==>
                (#[trigger] final(q)@[k].columns@[c])@ == fold_row(old(q)@[k].columns@[c]@, j as int, ep as int)
        },
{
    let ghost start = q@;
    let mut k: usize = 0;
    while k < q.len()
        invariant
            j < n,
            ep < n,
            0 <= k <= q@.len(),
            q@.len() == start.len(),
            forall|t: int| 0 <= t < start.len() ==> item_ok(#[trigger] start[t], n),
            forall|t: int| k <= t < q@.len() ==> #[trigger] q@[t] == start[t],
            forall|t: int| 0 <= t < k ==> {
                &&& item_ok(#[trigger] q@[t], n)
                &&& q@[t].rows == start[t].rows
                &&& q@[t].excluded == start[t].excluded
                &&& q@[t].columns@.len() == start[t].columns@.len()
                &&& forall|c: int| 0 <= c < q@[t].columns@.len() ==>
                    (#[trigger] q@[t].columns@[c])@ == fold_row(start[t].columns@[c]@, j as int, ep as int)
            },
        decreases q@.len() - k,
    {
        let mut item = q.remove(k);
        assert(item == start[k as int]);
        let mut c: usize = 0;
        while c < item.columns.len()
            invariant
                j < n,
                ep < n,
                0 <= c <= item.columns@.len(),
                item.columns@.len() == start[k as int].columns@.len(),
                item.rows == start[k as int].rows,
                item.excluded == start[k as int].excluded,
                item_ok(start[k as int], n),
                forall|d: int| c <= d < item.columns@.len() ==> #[trigger] item.columns@[d] == start[k as int].columns@[d],
                forall|d: int| 0 <= d < c ==>
                    (#[trigger] item.columns@[d])@ == fold_row(start[k as int].columns@[d]@, j as int, ep as int),
            decreases item.columns@.len() - c,
        {
            let mut col = item.columns.remove(c);
            let ghost orig_col = col@;
            assert(orig_col.len() == n);
            let v = col[j] != col[ep];
            col.set(j, v);
            assert(col@ =~= fold_row(orig_col, j as int, ep as int));
            let ghost mid = item.columns@;
            item.columns.insert(c, col);
            proof {
                assert forall|d: int| c < d < item.columns@.len() implies #[trigger] item.columns@[d] == start[k as int].columns@[d] by {
                    assert(item.columns@[d] == mid[d - 1]);
                }
                assert forall|d: int| 0 <= d < c implies
                    (#[trigger] item.columns@[d])@ == fold_row(start[k as int].columns@[d]@, j as int, ep as int) by {
                    assert(item.columns@[d] == mid[d]);
                }
            }
            c += 1;
        }
        let ghost prev = q@;
        q.insert(k, item);
        proof {
            assert forall|t: int| k < t < q@.len() implies #[trigger] q@[t] == start[t] by {
                assert(q@[t] == prev[t - 1]);
            }
            assert forall|t: int| 0 <= t < k implies q@[t] == prev[t] by {}
            assert forall|c: int| 0 <= c < item.columns@.len() implies (#[trigger] item.columns@[c])@.len() == n by {
                assert(start[k as int].columns@[c]@.len() == n);
            }
        }
        k += 1;
    }
}

proof fn lemma_select_members(cols: Seq<Seq<bool>>, j: int, bit: bool)
    ensures
        forall|k: int| 0 <= k < select(cols, j, bit).len() ==> cols.contains(#[trigger] select(cols, j, bit)[k]),
    decreases cols.len(),
{
    if cols.len() > 0 {
        lemma_select_members(cols.drop_last(), j, bit);
        let rest = select(cols.drop_last(), j, bit);
        assert forall|k: int| 0 <= k < select(cols, j, bit).len() implies cols.contains(#[trigger] select(cols, j, bit)[k]) by {
            if k < rest.len() {
                assert(select(cols, j, bit)[k] == rest[k]);
                let t = choose|t: int| 0 <= t < cols.drop_last().len() && cols.drop_last()[t] == rest[k];
                assert(cols[t] == rest[k]);
            } else {
                assert(cols[cols.len() - 1] == cols.last());
            }
        }
    }
}

/// `longer` starts with `shorter`.
pub open spec fn extends(longer: Seq<Step>, shorter: Seq<Step>) -> bool {
    shorter.len() <= longer.len() && longer.take(shorter.len() as int) == shorter
}

proof fn lemma_extends_trans(a: Seq<Step>, b: Seq<Step>, c: Seq<Step>)
    requires
        extends(b, a),
        extends(c, b),
    ensures
        extends(c, a),
{
    assert(c.take(a.len() as int) =~= c.take(b.len() as int).take(a.len() as int));
}

/// The weight of an item with k eligible rows: an upper bound, 2^(k+1) - 1,
/// on the number of items that it and its descendants can be popped as.
pub open spec fn weight(k: nat) -> nat
    decreases k,
{
    if k == 0 { 1 } else { 2 * weight((k - 1) as nat) + 1 }
}

/// The total weight of a queue: it drops with every item popped.
pub open spec fn queue_weight(q: Seq<WorkItem>) -> nat
    decreases q.len(),
{
    if q.len() == 0 { 0 } else { queue_weight(q.drop_last()) + weight(q.last().rows@.len()) }
}

/// Row r is a one in every column.
pub open spec fn full_row(cols: Seq<Seq<bool>>, r: int) -> bool {
    forall|c: int| 0 <= c < cols.len() ==> #[trigger] cols[c][r]
}

/// The number of rows below k, other than ep, that are a one in every column.
pub open spec fn full_rows(cols: Seq<Seq<bool>>, ep: int, k: nat) -> nat
    decreases k,
{
    if k == 0 {
        0
    } else {
        full_rows(cols, ep, (k - 1) as nat) + if (k - 1) as int != ep && full_row(cols, (k - 1) as int) { 1nat } else { 0nat }
    }
}

proof fn lemma_weight_mono(a: nat, b: nat)
    requires
        a <= b,
    ensures
        weight(a) <= weight(b),
    decreases b,
{
    if a < b {
        lemma_weight_mono(a, (b - 1) as nat);
    }
}

proof fn lemma_without_shorter(rows: Seq<usize>, j: usize)
    ensures
        without(rows, j).len() <= rows.len(),
        rows.contains(j) ==> without(rows, j).len() < rows.len(),
    decreases rows.len(),
{
    if rows.len() > 0 {
        lemma_without_shorter(rows.drop_last(), j);
        if rows.contains(j) && rows.last() != j {
            let t = choose|t: int| 0 <= t < rows.len() && rows[t] == j;
            assert(t < rows.len() - 1);
            assert(rows.drop_last()[t] == j);
        }
    }
}

proof fn lemma_queue_weight_same(a: Seq<WorkItem>, b: Seq<WorkItem>)
    requires
        a.len() == b.len(),
        forall|k: int| 0 <= k < a.len() ==> (#[trigger] a[k]).rows == b[k].rows,
    ensures
        queue_weight(a) == queue_weight(b),
    decreases a.len(),
{
    if a.len() > 0 {
        assert(a.last().rows == b.last().rows);
        lemma_queue_weight_same(a.drop_last(), b.drop_last());
    }
}

proof fn lemma_queue_weight_push(q: Seq<WorkItem>, it: WorkItem)
    ensures
        queue_weight(q.push(it)) == queue_weight(q) + weight(it.rows@.len()),
{
    assert(q.push(it).drop_last() =~= q);
}

proof fn lemma_full_rows_drop(old_cols: Seq<Seq<bool>>, new_cols: Seq<Seq<bool>>, ep: int, j: int, k: nat)
    requires
        forall|r: int| 0 <= r < k && r != j ==> (full_row(new_cols, r) ==> full_row(old_cols, r)),
        0 <= j < k ==> full_row(old_cols, j) && !full_row(new_cols, j) && j != ep,
    ensures
        full_rows(new_cols, ep, k) <= full_rows(old_cols, ep, k),
        0 <= j < k ==> full_rows(new_cols, ep, k) < full_rows(old_cols, ep, k),
    decreases k,
{
    if k > 0 {
        lemma_full_rows_drop(old_cols, new_cols, ep, j, (k - 1) as nat);
    }
}

/// Whether row r has a one in some column.
fn row_has_one(cols: &Vec<Vec<bool>>, r: usize) -> (b: bool)
    requires
        forall|c: int| 0 <= c < cols@.len() ==> r < (#[trigger] cols@[c])@.len(),
    ensures
        b == (exists|c: int| 0 <= c < cols@.len() && (#[trigger] cols@[c])@[r as int]),
{
    let mut c: usize = 0;
    while c < cols.len()
        invariant
            0 <= c <= cols@.len(),
            forall|d: int| 0 <= d < cols@.len() ==> r < (#[trigger] cols@[d])@.len(),
            forall|d: int| 0 <= d < c ==> !(#[trigger] cols@[d])@[r as int],
        decreases cols@.len() - c,
    {
        if cols[c][r] {
            return true;
        }
        c += 1;
    }
    false
}

/// Runs the partition over `root`, a list of columns of length n, on a stack
/// of work items. For a popped item with an excluded row ep, while some other
/// row j is a one in every column (and row ep has a one somewhere), it emits
/// CNOT(j, ep), emits the phase gates that this makes available, and adds row
/// ep into row j in every column of every queued item; then it splits the item
/// on its first eligible row of largest balance, pushing the ones side (whose
/// excluded row becomes the pivot if it had none) and then the zeros side.
/// Every popped item either ends or is replaced by two items with fewer
/// eligible rows, so the stack empties.
pub fn partition(syn: &mut Synthesis, root: Vec<Vec<bool>>)
    requires
        old(syn).wf(),
        forall|c: int| 0 <= c < root@.len() ==> (#[trigger] root@[c])@.len() == old(syn).num_qubits,
    ensures
        final(syn).wf(),
        final(syn).num_qubits == old(syn).num_qubits,
        final(syn).original == old(syn).original,
        extends(final(syn).steps@, old(syn).steps@),
{
    let n = syn.num_qubits;
    let ghost start = syn.steps@;
    let ghost orig = syn.original;
    let mut all_rows: Vec<usize> = Vec::new();
    let mut r: usize = 0;
    while r < n
        invariant
            0 <= r <= n,
            all_rows@.len() == r,
            forall|t: int| 0 <= t < r ==> #[trigger] all_rows@[t] == t,
        decreases n - r,
    {
        all_rows.push(r);
        r += 1;
    }
    let mut queue: Vec<WorkItem> = Vec::new();
    queue.push(WorkItem { columns: root, rows: all_rows, excluded: n });
    assert(syn.steps@.take(start.len() as int) =~= start);
    while queue.len() > 0
        invariant
            syn.wf(),
            syn.num_qubits == n,
            syn.original == orig,
            n == old(syn).num_qubits,
            orig == old(syn).original,
            start == old(syn).steps@,
            extends(syn.steps@, start),
            forall|k: int| 0 <= k < queue@.len() ==> item_ok(#[trigger] queue@[k], n as nat),
        decreases queue_weight(queue@),
    {
        let ghost before_pop = queue@;
        let mut cur = queue.pop().unwrap();
        proof {
            assert(before_pop.drop_last() =~= queue@);
        }
        let ghost w0 = queue_weight(queue@);
        let ghost rows0 = cur.rows;
        if cur.columns.len() == 0 || n == 0 {
            continue;
        }
        if cur.excluded < n {
            let ep = cur.excluded;
            let mut condition = true;
            while condition
                invariant
                    syn.wf(),
                    syn.num_qubits == n,
                    syn.original == orig,
                    n == old(syn).num_qubits,
                    orig == old(syn).original,
                    start == old(syn).steps@,
                    extends(syn.steps@, start),
                    forall|k: int| 0 <= k < queue@.len() ==> item_ok(#[trigger] queue@[k], n as nat),
                    item_ok(cur, n as nat),
                    cur.excluded == ep,
                    ep < n,
                    cur.rows == rows0,
                    cur.columns@.len() > 0,
                    queue_weight(queue@) == w0,
                decreases full_rows(mat(cur.columns), ep as int, n as nat) + if condition { 1nat } else { 0nat },
            {
                let ghost c0 = full_rows(mat(cur.columns), ep as int, n as nat);
                condition = false;
                let mut j: usize = 0;
                while j < n
                    invariant
                        syn.wf(),
                        syn.num_qubits == n,
                        syn.original == orig,
                        n == old(syn).num_qubits,
                        orig == old(syn).original,
                        start == old(syn).steps@,
                        extends(syn.steps@, start),
                        forall|k: int| 0 <= k < queue@.len() ==> item_ok(#[trigger] queue@[k], n as nat),
                        item_ok(cur, n as nat),
                        cur.excluded == ep,
                        ep < n,
                        cur.rows == rows0,
                        cur.columns@.len() > 0,
                        queue_weight(queue@) == w0,
                        full_rows(mat(cur.columns), ep as int, n as nat) + (if condition { 1nat } else { 0nat }) <= c0,
                    decreases n - j,
                {
                    if j != ep && row_has_one(&cur.columns, ep) && row_all_ones(&cur.columns, j) {
                        condition = true;
                        let ghost s0 = syn.steps@;
                        syn.cnot(j, ep);
                        let ghost s1 = syn.steps@;
                        proof {
                            assert(s1.take(s0.len() as int) =~= s0);
                        }
                        syn.match_qubit(ep);
                        proof {
                            lemma_extends_trans(s0, s1, syn.steps@);
                            lemma_extends_trans(start, s0, syn.steps@);
                        }
                        let ghost old_cur = cur;
                        let ghost q0 = queue@;
                        queue.push(cur);
                        let ghost pushed = queue@;
                        fold_into_queue(&mut queue, j, ep, Ghost(n as nat));
                        let ghost folded = queue@;
                        cur = queue.pop().unwrap();
                        proof {
                            assert(pushed[q0.len() as int] == old_cur);
                            assert(folded.drop_last() =~= queue@);
                            assert forall|k: int| 0 <= k < queue@.len() implies (#[trigger] queue@[k]).rows == q0[k].rows by {
                                assert(queue@[k] == folded[k]);
                                assert(pushed[k] == q0[k]);
                            }
                            lemma_queue_weight_same(queue@, q0);
                            assert forall|k: int| 0 <= k < queue@.len() implies item_ok(#[trigger] queue@[k], n as nat) by {
                                assert(queue@[k] == folded[k]);
                            }
                            let oc = mat(old_cur.columns);
                            let nc = mat(cur.columns);
                            let wit = choose|c: int| 0 <= c < old_cur.columns@.len() && (#[trigger] old_cur.columns@[c])@[ep as int];
                            assert(nc[wit] == fold_row(oc[wit], j as int, ep as int));
                            assert(oc[wit][j as int]);
                            assert(!nc[wit][j as int]);
                            assert forall|r: int| 0 <= r < n && r != j implies
                                (full_row(nc, r) ==> full_row(oc, r)) by {
                                if full_row(nc, r) {
                                    assert forall|c: int| 0 <= c < oc.len() implies #[trigger] oc[c][r] by {
                                        assert(nc[c] == fold_row(oc[c], j as int, ep as int));
                                        assert(nc[c][r]);
                                    }
                                }
                            }
                            assert(full_row(oc, j as int)) by {
                                assert forall|c: int| 0 <= c < oc.len() implies #[trigger] oc[c][j as int] by {
                                    assert(oc[c] == old_cur.columns@[c]@);
                                }
                            }
                            lemma_full_rows_drop(oc, nc, ep as int, j as int, n as nat);
                        }
                    }
                    j += 1;
                }
            }
        }
        if cur.rows.len() == 0 {
            continue;
        }
        let p = pivot_position(&cur.columns, &cur.rows);
        let pivot = cur.rows[p];
        let rest = rows_without(&cur.rows, pivot);
        let rest1 = rows_without(&cur.rows, pivot);
        let excluded = cur.excluded;
        let (zeros, ones) = split_columns(cur.columns, pivot);
        let ones_excluded = if excluded == n { pivot } else { excluded };
        proof {
            lemma_select_members(mat(cur.columns), pivot as int, true);
            lemma_select_members(mat(cur.columns), pivot as int, false);
            assert forall|c: int| 0 <= c < ones@.len() implies (#[trigger] ones@[c])@.len() == n by {
                assert(mat(ones)[c] == ones@[c]@);
            }
            assert forall|c: int| 0 <= c < zeros@.len() implies (#[trigger] zeros@[c])@.len() == n by {
                assert(mat(zeros)[c] == zeros@[c]@);
            }
            assert(cur.rows@.contains(pivot));
            lemma_without_shorter(cur.rows@, pivot);
            lemma_weight_mono(rest@.len(), (cur.rows@.len() - 1) as nat);
        }
        let ghost q0 = queue@;
        let it1 = WorkItem { columns: ones, rows: rest1, excluded: ones_excluded };
        let it0 = WorkItem { columns: zeros, rows: rest, excluded };
        queue.push(it1);
        proof {
            lemma_queue_weight_push(q0, it1);
        }
        let ghost q1 = queue@;
        queue.push(it0);
        proof {
            lemma_queue_weight_push(q1, it0);
        }
    }
}

} // verus!
