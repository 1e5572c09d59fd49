use vstd::prelude::*;
use vstd::set_lib::{lemma_int_range, lemma_len_subset, set_int_range};

verus! {

/// The cells of the 3x3 block around `(row, col)`, from the `k`-th of its nine offsets on,
/// in row-major order, keeping only cells inside a `width` x `height` grid.
pub open spec fn neighbor_cells_from(row: int, col: int, width: int, height: int, k: int) -> Seq<
    (usize, usize),
>
    decreases 9 - k,
{
    if k >= 9 || k < 0 {
        seq![]
    } else {
        let a = row + k / 3 - 1;
        let b = col + k % 3 - 1;
        let rest = neighbor_cells_from(row, col, width, height, k + 1);
        if 0 <= a < height && 0 <= b < width {
            seq![(a as usize, b as usize)] + rest
        } else {
            rest
        }
    }
}

/// The cells of the 3x3 block centered at `(row, col)` that lie inside the grid,
/// the center included, in row-major order. The grid does not wrap around its edges.
pub open spec fn neighbor_cells(row: int, col: int, width: int, height: int) -> Seq<(usize, usize)> {
    neighbor_cells_from(row, col, width, height, 0)
}

/// Returns the cells that the 3x3 neighborhood of `(row, col)` runs over: the cell itself
/// and its adjacent cells that lie within a `width` x `height` grid.
pub fn run_for_neighbor_cells(row: usize, col: usize, width: usize, height: usize) -> (r: Vec<
    (usize, usize),
>)
    requires
        row < usize::MAX - 2,
        col < usize::MAX - 2,
    ensures
        r@ == neighbor_cells(row as int, col as int, width as int, height as int),
{
    let mut r: Vec<(usize, usize)> = Vec::new();
    let mut k: usize = 0;
    while k < 9
        invariant
            k <= 9,
            row < usize::MAX - 2,
            col < usize::MAX - 2,
            r@ + neighbor_cells_from(row as int, col as int, width as int, height as int, k as int)
                == neighbor_cells(row as int, col as int, width as int, height as int),
        decreases 9 - k,
    {
        let ghost rest = neighbor_cells_from(
            row as int,
            col as int,
            width as int,
            height as int,
            k as int + 1,
        );
        let rs: usize = row + k / 3;
        let cs: usize = col + k % 3;
        if rs >= 1 && rs - 1 < height && cs >= 1 && cs - 1 < width {
            let ghost before = r@;
            r.push((rs - 1, cs - 1));
            assert(r@ + rest =~= before + (seq![((rs - 1) as usize, (cs - 1) as usize)] + rest));
        }
        k = k + 1;
    }
    assert(r@ + neighbor_cells_from(row as int, col as int, width as int, height as int, 9) =~= r@);
    r
}

/// A grid corner has only three neighbors inside the grid: its neighborhood is four
/// cells, not nine.
pub proof fn corner_neighborhood_has_four_cells(width: int, height: int)
    requires
        width >= 2,
        height >= 2,
    ensures
        neighbor_cells(0, 0, width, height).len() == 4,
        neighbor_cells(0, 0, width, height) == seq![
            (0usize, 0usize),
            (0usize, 1usize),
            (1usize, 0usize),
            (1usize, 1usize),
        ],
{
    reveal_with_fuel(neighbor_cells_from, 10);
    assert(neighbor_cells(0, 0, width, height) =~= seq![
        (0usize, 0usize),
        (0usize, 1usize),
        (1usize, 0usize),
        (1usize, 1usize),
    ]);
}

/// A cell holds distinct indices below `n`, so it holds at most `n` of them.
pub proof fn lemma_distinct_indices_len(s: Seq<usize>, n: nat)
    requires
        s.no_duplicates(),
        forall|k: int| 0 <= k < s.len() ==> s[k] < n,
    ensures
        s.len() <= n,
{
    let t = s.map_values(|x: usize| x as int);
    assert(t.no_duplicates()) by {
        assert forall|i: int, j: int| 0 <= i < t.len() && 0 <= j < t.len() && i != j implies t[i]
            != t[j] by {
            assert(s[i] != s[j]);
        }
    }
    t.unique_seq_to_set();
    assert(t.to_set().subset_of(set_int_range(0, n as int))) by {
        assert forall|x: int| t.to_set().contains(x) implies set_int_range(0, n as int).contains(
            x,
        ) by {
            let k = choose|k: int| 0 <= k < t.len() && t[k] == x;
        }
    }
    lemma_int_range(0, n as int);
    lemma_len_subset(t.to_set(), set_int_range(0, n as int));
}

/// Every cell of a neighborhood lies inside the grid.
pub proof fn lemma_neighbor_cells_in_grid(row: int, col: int, width: int, height: int, k: int)
    ensures
        forall|q: int|
            0 <= q < neighbor_cells_from(row, col, width, height, k).len() ==> {
                let c = #[trigger] neighbor_cells_from(row, col, width, height, k)[q];
                &&& (c.0 as int) < height
                &&& (c.1 as int) < width
            },
        0 <= k <= 9 ==> neighbor_cells_from(row, col, width, height, k).len() <= 9 - k,
    decreases 9 - k,
{
    if 0 <= k < 9 {
        lemma_neighbor_cells_in_grid(row, col, width, height, k + 1);
        let rest = neighbor_cells_from(row, col, width, height, k + 1);
        let a = row + k / 3 - 1;
        let b = col + k % 3 - 1;
        if 0 <= a < height && 0 <= b < width {
            assert forall|q: int|
                0 <= q < neighbor_cells_from(row, col, width, height, k).len() implies {
                    let c = #[trigger] neighbor_cells_from(row, col, width, height, k)[q];
                    &&& (c.0 as int) < height
                    &&& (c.1 as int) < width
                } by {
                if q > 0 {
                    assert(neighbor_cells_from(row, col, width, height, k)[q] == rest[q - 1]);
                }
            }
        }
    }
}

} // verus!
