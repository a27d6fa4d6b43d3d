//! Growing and updating the rows of a bookkeeping matrix.
use vstd::prelude::*;

verus! {

/// The rows of a matrix of counters, as sequences.
pub open spec fn matrix_view(m: &Vec<Vec<usize>>) -> Seq<Seq<usize>> {
    m@.map_values(|row: Vec<usize>| row@)
}

/// The view of a matrix has its rows and their lengths.
pub broadcast proof fn lemma_matrix_view(m: &Vec<Vec<usize>>)
    ensures
        (#[trigger] matrix_view(m)).len() == m@.len(),
        forall|t: int| 0 <= t < m@.len() ==> matrix_view(m)[t] == (#[trigger] m@[t])@,
{
}

/// `v` with empty rows appended until it has at least `rows` rows.
pub open spec fn padded_rows(v: Seq<Seq<usize>>, rows: nat) -> Seq<Seq<usize>> {
    if v.len() >= rows {
        v
    } else {
        v + Seq::new((rows - v.len()) as nat, |i: int| Seq::<usize>::empty())
    }
}

/// `row` with zeros appended until it has at least `len` entries.
pub open spec fn padded_row(row: Seq<usize>, len: nat) -> Seq<usize> {
    if row.len() >= len {
        row
    } else {
        row + Seq::new((len - row.len()) as nat, |i: int| 0usize)
    }
}

/// `v` with the entry in row `t`, column `r` set to `x`.
pub open spec fn set_entry(v: Seq<Seq<usize>>, t: int, r: int, x: usize) -> Seq<Seq<usize>> {
    v.update(t, v[t].update(r, x))
}

/// Appends empty rows until the matrix has at least `rows` rows.
pub fn pad_rows(m: &mut Vec<Vec<usize>>, rows: usize)
    ensures
        matrix_view(final(m)) == padded_rows(matrix_view(old(m)), rows as nat),
        final(m).len() == padded_rows(matrix_view(old(m)), rows as nat).len(),
{
    let ghost start = matrix_view(m);
    while m.len() < rows
        invariant
            m.len() >= start.len(),
            start.len() < rows ==> m.len() <= rows,
            start.len() >= rows ==> m.len() == start.len(),
            matrix_view(m) == start + Seq::new((m.len() - start.len()) as nat, |i: int| Seq::<usize>::empty()),
        decreases rows - m.len(),
    {
        let ghost prev = matrix_view(m);
        m.push(Vec::new());
        assert(matrix_view(m) =~= prev.push(Seq::<usize>::empty()));
        assert(matrix_view(m) =~= start + Seq::new((m.len() - start.len()) as nat, |i: int| Seq::<usize>::empty()));
    }
    proof {
        if start.len() >= rows {
            assert(matrix_view(m) =~= start);
        } else {
            assert(m.len() == rows);
            assert(matrix_view(m) =~= padded_rows(start, rows as nat));
        }
    }
}

/// Appends zeros to row `t` until it has at least `len` entries.
pub fn pad_row(m: &mut Vec<Vec<usize>>, t: usize, len: usize)
    requires
        t < old(m).len(),
    ensures
        matrix_view(final(m)) == matrix_view(old(m)).update(t as int, padded_row(matrix_view(old(m))[t as int], len as nat)),
        final(m).len() == old(m).len(),
{
    let ghost start = matrix_view(m);
    while m[t].len() < len
        invariant
            t < m.len(),
            m.len() == start.len(),
            m@[t as int]@.len() >= start[t as int].len(),
            start[t as int].len() < len ==> m@[t as int]@.len() <= len,
            start[t as int].len() >= len ==> m@[t as int]@.len() == start[t as int].len(),
            forall|k: int| 0 <= k < m.len() && k != t ==> m@[k]@ == start[k],
            m@[t as int]@ == start[t as int] + Seq::new((m@[t as int]@.len() - start[t as int].len()) as nat, |i: int| 0usize),
        decreases len - m@[t as int]@.len(),
    {
        m[t].push(0);
        assert(m@[t as int]@ =~= start[t as int] + Seq::new((m@[t as int]@.len() - start[t as int].len()) as nat, |i: int| 0usize));
    }
    proof {
        if start[t as int].len() >= len {
            assert(matrix_view(m)[t as int] =~= start[t as int]);
        } else {
            assert(matrix_view(m)[t as int] =~= padded_row(start[t as int], len as nat));
        }
    }
    assert(matrix_view(m) =~= start.update(t as int, padded_row(start[t as int], len as nat)));
}

/// Sets the entry in row `t`, column `r`.
pub fn set_entry_at(m: &mut Vec<Vec<usize>>, t: usize, r: usize, x: usize)
    requires
        t < old(m).len(),
        r < old(m)@[t as int].len(),
    ensures
        matrix_view(final(m)) == set_entry(matrix_view(old(m)), t as int, r as int, x),
        final(m).len() == old(m).len(),
{
    m[t][r] = x;
    assert(matrix_view(m) =~= set_entry(matrix_view(old(m)), t as int, r as int, x));
}

/// Setting an entry and then setting it back to what it was gives the matrix back.
pub proof fn lemma_set_entry_restore(v: Seq<Seq<usize>>, t: int, c: int, x: usize)
    requires
        0 <= t < v.len(),
        0 <= c < v[t].len(),
    ensures
        set_entry(set_entry(v, t, c, x), t, c, v[t][c]) == v,
{
    assert(set_entry(set_entry(v, t, c, x), t, c, v[t][c])[t] =~= v[t]);
    assert(set_entry(set_entry(v, t, c, x), t, c, v[t][c]) =~= v);
}

} // verus!
