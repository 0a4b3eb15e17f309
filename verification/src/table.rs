//! Rectangular tables with one slot per cell of the board, stored by rows.

use vstd::prelude::*;

verus! {

/// `t` has `height` rows of `width` slots each.
pub open spec fn is_table<T>(t: Seq<Vec<T>>, width: nat, height: nat) -> bool {
    &&& t.len() == height
    &&& forall|y: int| 0 <= y < height ==> (#[trigger] t[y])@.len() == width
}

/// A table of the given size with `fill` in every slot.
pub fn new_table<T: Copy>(width: usize, height: usize, fill: T) -> (t: Vec<Vec<T>>)
    ensures
        is_table(t@, width as nat, height as nat),
        forall|y: int, x: int| 0 <= y < height && 0 <= x < width ==> (#[trigger] t@[y]@[x]) == fill,
{
    let mut t: Vec<Vec<T>> = Vec::new();
    let mut y: usize = 0;
    while y < height
        invariant
            y <= height,
            is_table(t@, width as nat, y as nat),
            forall|j: int, i: int| 0 <= j < y && 0 <= i < width ==> (#[trigger] t@[j]@[i]) == fill,
        decreases height - y,
    {
        let mut row: Vec<T> = Vec::new();
        let mut x: usize = 0;
        while x < width
            invariant
                x <= width,
                row@.len() == x,
                forall|i: int| 0 <= i < x ==> row@[i] == fill,
            decreases width - x,
        {
            row.push(fill);
            x += 1;
        }
        t.push(row);
        y += 1;
    }
    t
}


/// The slot of cell `(x, y)`.
pub open spec fn slot<T>(t: Seq<Vec<T>>, x: int, y: int) -> T {
    t[y]@[x]
}

/// The number of marked slots of a row.
pub open spec fn count_row(row: Seq<bool>) -> nat
    decreases row.len(),
{
    if row.len() == 0 {
        0
    } else {
        count_row(row.drop_last()) + if row.last() {
            1nat
        } else {
            0nat
        }
    }
}

/// The number of marked slots of a table.
pub open spec fn count_marks(t: Seq<Vec<bool>>) -> nat
    decreases t.len(),
{
    if t.len() == 0 {
        0
    } else {
        count_marks(t.drop_last()) + count_row(t.last()@)
    }
}

pub proof fn lemma_count_row_bound(row: Seq<bool>)
    ensures
        count_row(row) <= row.len(),
    decreases row.len(),
{
    if row.len() > 0 {
        lemma_count_row_bound(row.drop_last());
    }
}

/// Marking a slot that was not marked adds one to the count of its row.
pub proof fn lemma_count_row_set(row: Seq<bool>, x: int)
    requires
        0 <= x < row.len(),
        !row[x],
    ensures
        count_row(row.update(x, true)) == count_row(row) + 1,
    decreases row.len(),
{
    let after = row.update(x, true);
    if x == row.len() - 1 {
        assert(after.drop_last() =~= row.drop_last());
    } else {
        lemma_count_row_set(row.drop_last(), x);
        assert(after.drop_last() =~= row.drop_last().update(x, true));
    }
}

/// Marking one slot that was not marked adds one to the count of the table.
pub proof fn lemma_count_marks_set(before: Seq<Vec<bool>>, after: Seq<Vec<bool>>, x: int, y: int)
    requires
        after.len() == before.len(),
        0 <= y < before.len(),
        0 <= x < before[y]@.len(),
        !before[y]@[x],
        after[y]@ == before[y]@.update(x, true),
        forall|j: int| 0 <= j < before.len() && j != y ==> after[j]@ == before[j]@,
    ensures
        count_marks(after) == count_marks(before) + 1,
    decreases before.len(),
{
    if y == before.len() - 1 {
        lemma_count_row_set(before[y]@, x);
        lemma_count_marks_same(before.drop_last(), after.drop_last());
    } else {
        lemma_count_marks_set(before.drop_last(), after.drop_last(), x, y);
    }
}

/// Tables with the same rows have the same count.
pub proof fn lemma_count_marks_same(a: Seq<Vec<bool>>, b: Seq<Vec<bool>>)
    requires
        a.len() == b.len(),
        forall|j: int| 0 <= j < a.len() ==> a[j]@ == b[j]@,
    ensures
        count_marks(a) == count_marks(b),
    decreases a.len(),
{
    if a.len() > 0 {
        lemma_count_marks_same(a.drop_last(), b.drop_last());
    }
}

/// A table holds no more marks than slots.
pub proof fn lemma_count_marks_bound(t: Seq<Vec<bool>>, width: nat, height: nat)
    requires
        is_table(t, width, height),
    ensures
        count_marks(t) <= width * height,
    decreases height,
{
    if height > 0 {
        lemma_count_marks_bound(t.drop_last(), width, (height - 1) as nat);
        lemma_count_row_bound(t.last()@);
        assert(width * height == width * (height - 1) + width) by (nonlinear_arith)
            requires
                height > 0,
        ;
    } else {
        assert(width * height == 0) by (nonlinear_arith)
            requires
                height == 0,
        ;
    }
}

/// A table without a mark counts zero.
pub proof fn lemma_count_marks_none(t: Seq<Vec<bool>>)
    requires
        forall|y: int, x: int| 0 <= y < t.len() && 0 <= x < t[y]@.len() ==> !(#[trigger] t[y]@[x]),
    ensures
        count_marks(t) == 0,
    decreases t.len(),
{
    if t.len() > 0 {
        lemma_count_marks_none(t.drop_last());
        lemma_count_row_none(t.last()@);
    }
}

pub proof fn lemma_count_row_none(row: Seq<bool>)
    requires
        forall|x: int| 0 <= x < row.len() ==> !row[x],
    ensures
        count_row(row) == 0,
    decreases row.len(),
{
    if row.len() > 0 {
        lemma_count_row_none(row.drop_last());
    }
}

/// A row with every slot marked counts its length.
pub proof fn lemma_count_row_all(row: Seq<bool>)
    requires
        forall|x: int| 0 <= x < row.len() ==> row[x],
    ensures
        count_row(row) == row.len(),
    decreases row.len(),
{
    if row.len() > 0 {
        lemma_count_row_all(row.drop_last());
    }
}

/// Whether `t` has `height` rows of `width` slots each.
pub fn table_fits<T>(t: &Vec<Vec<T>>, width: usize, height: usize) -> (fits: bool)
    ensures
        fits == is_table(t@, width as nat, height as nat),
{
    if t.len() != height {
        return false;
    }
    let mut y: usize = 0;
    while y < height
        invariant
            y <= height,
            t@.len() == height,
            forall|j: int| 0 <= j < y ==> (#[trigger] t@[j])@.len() == width,
        decreases height - y,
    {
        if t[y].len() != width {
            return false;
        }
        y += 1;
    }
    true
}

/// A table with the same slots.
pub fn copy_table<T: Copy>(t: &Vec<Vec<T>>) -> (copy: Vec<Vec<T>>)
    ensures
        copy@.len() == t@.len(),
        forall|y: int| 0 <= y < t@.len() ==> (#[trigger] copy@[y])@ == t@[y]@,
{
    let mut copy: Vec<Vec<T>> = Vec::new();
    let mut y: usize = 0;
    while y < t.len()
        invariant
            y <= t@.len(),
            copy@.len() == y,
            forall|j: int| 0 <= j < y ==> (#[trigger] copy@[j])@ == t@[j]@,
        decreases t@.len() - y,
    {
        let mut row: Vec<T> = Vec::new();
        let mut x: usize = 0;
        while x < t[y].len()
            invariant
                y < t@.len(),
                x <= t@[y as int]@.len(),
                row@ == t@[y as int]@.take(x as int),
            decreases t@[y as int]@.len() - x,
        {
            row.push(t[y][x]);
            assert(row@ =~= t@[y as int]@.take(x + 1));
            x += 1;
        }
        assert(t@[y as int]@.take(t@[y as int]@.len() as int) =~= t@[y as int]@);
        copy.push(row);
        y += 1;
    }
    copy
}

} // verus!
