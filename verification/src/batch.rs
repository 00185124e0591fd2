//! Training mini-batches drawn from a pre-tokenized corpus.
//!
//! Each row of a batch is a contiguous window of `block_size` tokens; the
//! matching row of targets is the same window shifted by one token, which
//! is the next-token prediction setup of nano-gpt.
use rand::rngs::StdRng;
use rand::Rng;
use vstd::prelude::*;

verus! {

#[verifier::external_type_specification]
#[verifier::external_body]
pub struct ExStdRng(StdRng);

/// A random generator for batch sampling that keeps, as ghost state, the
/// log of its draws: for each draw, the inclusive upper bound it was asked
/// for and the value it gave.
pub struct BatchRng {
    inner: StdRng,
    draws: Ghost<Seq<(usize, usize)>>,
}

impl BatchRng {
    /// The draws made so far, oldest first: `(bound, value)` pairs.
    pub closed spec fn draws(&self) -> Seq<(usize, usize)> {
        self.draws@
    }

    /// Wrap a generator; no draw has been made through the wrapper yet.
    pub fn new(inner: StdRng) -> (r: Self)
        ensures
            r.draws() == Seq::<(usize, usize)>::empty(),
    {
        BatchRng { inner, draws: Ghost(Seq::empty()) }
    }

    /// `Rng::random_range` from rand, on the range `0..=high`: a value drawn
    /// from that range, recorded with its bound at the end of the draw log.
    /// Which value comes out depends on the generator's state and is not
    /// stated; the range is never empty, so the call does not panic.
    #[verifier::external_body]
    fn draw_up_to(&mut self, high: usize) -> (r: usize)
        ensures
            r <= high,
            final(self).draws() == old(self).draws().push((high, r)),
    {
        self.inner.random_range(0..=high)
    }
}

/// The values of the draws made after the first `before.len()` entries of
/// the log `after`.
pub open spec fn drawn_values(before: Seq<(usize, usize)>, after: Seq<(usize, usize)>) -> Seq<usize> {
    Seq::new((after.len() - before.len()) as nat, |r: int| after[before.len() + r].1)
}

/// `after` is the log `before` followed by `n` more draws, each with
/// inclusive upper bound `bound`.
pub open spec fn drew_with_bound(
    before: Seq<(usize, usize)>,
    after: Seq<(usize, usize)>,
    n: nat,
    bound: usize,
) -> bool {
    &&& after.len() == before.len() + n
    &&& after.take(before.len() as int) == before
    &&& forall|r: int|
        0 <= r < n ==> (#[trigger] after[before.len() + r]).0 == bound && after[before.len()
            + r].1 <= bound
}

/// A row-major grid of token ids, the plain form of a `[rows, cols]` integer
/// tensor.
pub struct TokenGrid {
    values: Vec<i32>,
    rows: usize,
    cols: usize,
}

impl View for TokenGrid {
    type V = Seq<i32>;

    /// The ids, row after row.
    closed spec fn view(&self) -> Seq<i32> {
        self.values@
    }
}

/// The entry at row `r` and column `j` of the row-major `values` with
/// `cols` columns.
pub open spec fn cell(values: Seq<i32>, cols: nat, r: int, j: int) -> i32 {
    values[r * cols + j]
}

/// `values` holds one row of `cols` ids per start: row `r` is the run of
/// `tokens` that begins at `starts[r] + shift`, each id cast to `i32`.
pub open spec fn holds_windows(
    values: Seq<i32>,
    tokens: Seq<u32>,
    starts: Seq<usize>,
    cols: nat,
    shift: int,
) -> bool {
    &&& values.len() == starts.len() * cols
    &&& forall|r: int, j: int|
        0 <= r < starts.len() && 0 <= j < cols ==> #[trigger] cell(values, cols, r, j)
            == tokens[starts[r] + j + shift] as i32
}

impl TokenGrid {
    #[verifier::type_invariant]
    spec fn shape_holds(self) -> bool {
        self.values@.len() == self.rows * self.cols
    }

    /// Number of rows.
    pub closed spec fn num_rows(&self) -> nat {
        self.rows as nat
    }

    /// Number of columns.
    pub closed spec fn num_cols(&self) -> nat {
        self.cols as nat
    }

    /// `[rows, cols]`.
    pub fn dims(&self) -> (d: [usize; 2])
        ensures
            d@ == seq![self.num_rows() as usize, self.num_cols() as usize],
    {
        [self.rows, self.cols]
    }

    /// The ids, row after row.
    pub fn values(&self) -> (v: &[i32])
        ensures
            v@ == self@,
            v@.len() == self.num_rows() * self.num_cols(),
    {
        proof {
            use_type_invariant(self);
        }
        self.values.as_slice()
    }
}

/// In a row-major layout, every cell of an earlier row comes before the
/// start of row `r`.
proof fn lemma_row_major(r1: int, j1: int, r: int, cols: int)
    by (nonlinear_arith)
    requires
        0 <= r1 < r,
        0 <= j1 < cols,
    ensures
        r1 * cols + j1 < r * cols,
{
}

/// The next row begins `cols` entries further on.
proof fn lemma_next_row(r: int, cols: int)
    by (nonlinear_arith)
    ensures
        (r + 1) * cols == r * cols + cols,
{
}

/// A row-major index stays below the grid size.
proof fn lemma_index_below_size(r: int, j: int, rows: int, cols: int)
    by (nonlinear_arith)
    requires
        0 <= r < rows,
        0 <= j < cols,
    ensures
        r * cols + j < rows * cols,
{
}

/// The windows of `block_size` tokens that begin at `starts`, with the
/// same windows shifted by one token as targets.
pub fn gather_windows(tokens: &[u32], starts: &[usize], block_size: usize) -> (r: (
    TokenGrid,
    TokenGrid,
))
    requires
        forall|i: int| 0 <= i < starts@.len() ==> #[trigger] starts@[i] + block_size < tokens@.len(),
    ensures
        r.0.num_rows() == starts@.len(),
        r.0.num_cols() == block_size,
        r.1.num_rows() == starts@.len(),
        r.1.num_cols() == block_size,
        holds_windows(r.0@, tokens@, starts@, block_size as nat, 0),
        holds_windows(r.1@, tokens@, starts@, block_size as nat, 1),
{
    let mut inputs: Vec<i32> = Vec::new();
    let mut targets: Vec<i32> = Vec::new();
    let ghost cols = block_size as nat;
    let n_tokens = tokens.len();
    proof {
        assert(0 * cols == 0) by (nonlinear_arith);
    }
    for r in 0..starts.len()
        invariant
            cols == block_size,
            n_tokens == tokens@.len(),
            forall|i: int| 0 <= i < starts@.len() ==> #[trigger] starts@[i] + block_size < tokens@.len(),
            inputs@.len() == r * cols,
            targets@.len() == r * cols,
            forall|r1: int, j1: int|
                0 <= r1 < r && 0 <= j1 < cols ==> #[trigger] cell(inputs@, cols, r1, j1)
                    == tokens@[starts@[r1] + j1] as i32,
            forall|r1: int, j1: int|
                0 <= r1 < r && 0 <= j1 < cols ==> #[trigger] cell(targets@, cols, r1, j1)
                    == tokens@[starts@[r1] + j1 + 1] as i32,
    {
        let start = starts[r];
        assert(start + block_size < tokens@.len());
        for j in 0..block_size
            invariant
                cols == block_size,
                n_tokens == tokens@.len(),
                start == starts@[r as int],
                start + block_size < tokens@.len(),
                0 <= r < starts@.len(),
                inputs@.len() == r * cols + j,
                targets@.len() == r * cols + j,
                forall|r1: int, j1: int|
                    0 <= r1 < r && 0 <= j1 < cols ==> #[trigger] cell(inputs@, cols, r1, j1)
                        == tokens@[starts@[r1] + j1] as i32,
                forall|r1: int, j1: int|
                    0 <= r1 < r && 0 <= j1 < cols ==> #[trigger] cell(targets@, cols, r1, j1)
                        == tokens@[starts@[r1] + j1 + 1] as i32,
                forall|j1: int|
                    0 <= j1 < j ==> #[trigger] inputs@[r * cols + j1] == tokens@[start + j1] as i32,
                forall|j1: int|
                    0 <= j1 < j ==> #[trigger] targets@[r * cols + j1] == tokens@[start + j1
                        + 1] as i32,
        {
            let ghost old_inputs = inputs@;
            let ghost old_targets = targets@;
            inputs.push(tokens[start + j] as i32);
            targets.push(tokens[start + j + 1] as i32);
            proof {
                assert forall|r1: int, j1: int| 0 <= r1 < r && 0 <= j1 < cols implies #[trigger] cell(
                    inputs@,
                    cols,
                    r1,
                    j1,
                ) == tokens@[starts@[r1] + j1] as i32 by {
                    lemma_row_major(r1, j1, r as int, cols as int);
                    assert(cell(old_inputs, cols, r1, j1) == tokens@[starts@[r1] + j1] as i32);
                }
                assert forall|r1: int, j1: int| 0 <= r1 < r && 0 <= j1 < cols implies #[trigger] cell(
                    targets@,
                    cols,
                    r1,
                    j1,
                ) == tokens@[starts@[r1] + j1 + 1] as i32 by {
                    lemma_row_major(r1, j1, r as int, cols as int);
                    assert(cell(old_targets, cols, r1, j1) == tokens@[starts@[r1] + j1 + 1] as i32);
                }
                assert forall|j1: int| 0 <= j1 < j + 1 implies #[trigger] inputs@[r * cols + j1]
                    == tokens@[start + j1] as i32 && targets@[r * cols + j1] == tokens@[start + j1
                    + 1] as i32 by {
                    if j1 < j {
                        assert(old_inputs[r * cols + j1] == tokens@[start + j1] as i32);
                        assert(old_targets[r * cols + j1] == tokens@[start + j1 + 1] as i32);
                    }
                }
            }
        }
        proof {
            lemma_next_row(r as int, cols as int);
            assert forall|r1: int, j1: int| 0 <= r1 < r + 1 && 0 <= j1 < cols implies #[trigger] cell(
                inputs@,
                cols,
                r1,
                j1,
            ) == tokens@[starts@[r1] + j1] as i32 by {
                if r1 == r {
                    assert(inputs@[r * cols + j1] == tokens@[start + j1] as i32);
                }
            }
            assert forall|r1: int, j1: int| 0 <= r1 < r + 1 && 0 <= j1 < cols implies #[trigger] cell(
                targets@,
                cols,
                r1,
                j1,
            ) == tokens@[starts@[r1] + j1 + 1] as i32 by {
                if r1 == r {
                    assert(targets@[r * cols + j1] == tokens@[start + j1 + 1] as i32);
                }
            }
        }
    }
    let ghost n = starts@.len();
    proof {
        assert(inputs@.len() == n * cols);
    }
    let rows = starts.len();
    (
        TokenGrid { values: inputs, rows, cols: block_size },
        TokenGrid { values: targets, rows, cols: block_size },
    )
}

/// Sample a training mini-batch from a pre-tokenized corpus.
///
/// Each row of the inputs is a contiguous window of `block_size` tokens
/// that starts at a position drawn from `0..=tokens.len() - block_size - 1`,
/// one draw per row, in row order; the matching row of the targets is the
/// same window shifted by one token. Both grids have shape
/// `[batch_size, block_size]`. The corpus must hold more than `block_size`
/// tokens, so that a shifted window fits.
pub fn sample_batch(
    tokens: &[u32],
    batch_size: usize,
    block_size: usize,
    rng: &mut BatchRng,
) -> (r: (TokenGrid, TokenGrid))
    requires
        tokens@.len() > block_size,
    ensures
        drew_with_bound(
            old(rng).draws(),
            final(rng).draws(),
            batch_size as nat,
            (tokens@.len() - block_size - 1) as usize,
        ),
        r.0.num_rows() == batch_size,
        r.0.num_cols() == block_size,
        r.1.num_rows() == batch_size,
        r.1.num_cols() == block_size,
        holds_windows(
            r.0@,
            tokens@,
            drawn_values(old(rng).draws(), final(rng).draws()),
            block_size as nat,
            0,
        ),
        holds_windows(
            r.1@,
            tokens@,
            drawn_values(old(rng).draws(), final(rng).draws()),
            block_size as nat,
            1,
        ),
{
    // Inclusive upper bound for the start index: the last token of the
    // target window is at `start + block_size`, which must be in range.
    let max_start = tokens.len() - block_size - 1;
    let ghost before = rng.draws();
    assert(before.take(before.len() as int) =~= before);
    assert(drawn_values(before, before) =~= Seq::<usize>::empty());
    let mut starts: Vec<usize> = Vec::new();
    for i in 0..batch_size
        invariant
            max_start == tokens@.len() - block_size - 1,
            starts@.len() == i,
            drew_with_bound(before, rng.draws(), i as nat, max_start),
            starts@ == drawn_values(before, rng.draws()),
    {
        let ghost log = rng.draws();
        let start = rng.draw_up_to(max_start);
        starts.push(start);
        proof {
            let after = rng.draws();
            assert(after.take(before.len() as int) =~= log.take(before.len() as int));
            assert forall|r: int| 0 <= r < i + 1 implies (#[trigger] after[before.len() + r]).0
                == max_start && after[before.len() + r].1 <= max_start by {
                if r < i {
                    assert(after[before.len() + r] == log[before.len() + r]);
                }
            }
            assert(starts@ =~= drawn_values(before, after));
        }
    }
    let r = gather_windows(tokens, starts.as_slice(), block_size);
    r
}

/// Targets are inputs shifted by one: within a row, each target is the
/// input of the next column.
pub proof fn law_targets_are_inputs_shifted(
    inputs: Seq<i32>,
    targets: Seq<i32>,
    tokens: Seq<u32>,
    starts: Seq<usize>,
    cols: nat,
)
    requires
        holds_windows(inputs, tokens, starts, cols, 0),
        holds_windows(targets, tokens, starts, cols, 1),
    ensures
        forall|r: int, j: int|
            0 <= r < starts.len() && 0 <= j < cols - 1 ==> #[trigger] cell(targets, cols, r, j)
                == cell(inputs, cols, r, j + 1),
{
    assert forall|r: int, j: int| 0 <= r < starts.len() && 0 <= j < cols - 1 implies #[trigger] cell(
        targets,
        cols,
        r,
        j,
    ) == cell(inputs, cols, r, j + 1) by {
        assert(cell(inputs, cols, r, j + 1) == tokens[starts[r] + (j + 1) + 0] as i32);
        assert(cell(targets, cols, r, j) == tokens[starts[r] + j + 1] as i32);
    }
}

} // verus!
