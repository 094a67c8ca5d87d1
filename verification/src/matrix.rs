use vstd::prelude::*;
use crate::passage::Context;

verus! {

/// The similarity matrix: a dense array of token identifiers with one row per passage,
/// kept in an `ndarray::Array2<u32>`.
///
/// Verus does not look inside the array. What it holds is named by [`matrix_rows`] and
/// [`matrix_width`], and the functions below that touch the array say over those two
/// names what `ndarray` does.
#[verifier::external_body]
pub struct RagMatrix {
    cells: ndarray::Array2<u32>,
}

/// The rows of the array, first row first.
pub uninterp spec fn matrix_rows(m: RagMatrix) -> Seq<Seq<u32>>;

/// The number of columns that the array was made with.
pub uninterp spec fn matrix_width(m: RagMatrix) -> nat;

/// Whether an array of `rows` rows and `width` columns stays within the size that
/// `ndarray` accepts: no axis, and no product of axes, above `isize::MAX`.
pub open spec fn holds_rows(rows: nat, width: nat) -> bool {
    &&& rows <= isize::MAX
    &&& width <= isize::MAX
    &&& rows * width <= isize::MAX
}

/// `Array2::zeros((0, width))`: an array without rows. The source computes the product
/// of the axis lengths that are not zero, here `width`, and panics when it is above
/// `isize::MAX`; the contract leaves those widths out.
#[verifier::external_body]
fn empty_matrix(width: usize) -> (m: RagMatrix)
    requires
        width <= isize::MAX,
    ensures
        matrix_rows(m) == Seq::<Seq<u32>>::empty(),
        matrix_width(m) == width,
{
    RagMatrix { cells: ndarray::Array2::zeros((0, width)) }
}

/// `ArrayBase::push` along axis 0: the row becomes the last row and the rows before it
/// stay. The source answers with an error when the row's length is not the number of
/// columns, or when the grown array would be larger than `holds_rows` allows; the
/// contract leaves both out, so the call always succeeds where it is admitted.
#[verifier::external_body]
fn push_row(m: &mut RagMatrix, row: &Vec<u32>)
    requires
        row@.len() == matrix_width(*old(m)),
        holds_rows(matrix_rows(*old(m)).len() + 1, matrix_width(*old(m))),
    ensures
        matrix_rows(*final(m)) == matrix_rows(*old(m)).push(row@),
        matrix_width(*final(m)) == matrix_width(*old(m)),
{
    m.cells.push(ndarray::Axis(0), ndarray::ArrayView1::from(row.as_slice())).unwrap();
}

/// `ArrayBase::nrows`: the length of axis 0.
#[verifier::external_body]
pub(crate) fn row_count(m: &RagMatrix) -> (n: usize)
    ensures
        n == matrix_rows(*m).len(),
{
    m.cells.nrows()
}

/// `ArrayBase::ncols`: the length of axis 1, which is the length of every row.
#[verifier::external_body]
pub(crate) fn column_count(m: &RagMatrix) -> (n: usize)
    ensures
        n == matrix_width(*m),
        forall|i: int| 0 <= i < matrix_rows(*m).len() ==> (#[trigger] matrix_rows(*m)[i]).len() == n,
{
    m.cells.ncols()
}

/// `ArrayBase::index_axis` on axis 0 and `to_vec`: a copy of row `index`. The source
/// panics when `index` is not below the number of rows.
#[verifier::external_body]
pub(crate) fn copy_row(m: &RagMatrix, index: usize) -> (row: Vec<u32>)
    requires
        index < matrix_rows(*m).len(),
    ensures
        row@ == matrix_rows(*m)[index as int],
        row@.len() == matrix_width(*m),
{
    m.cells.index_axis(ndarray::Axis(0), index).to_vec()
}

impl RagMatrix {
    /// The number of rows, which is the number of passages.
    pub fn nrows(&self) -> (n: usize)
        ensures
            n == matrix_rows(*self).len(),
    {
        row_count(self)
    }

    /// The number of columns, which is the width of every row.
    pub fn ncols(&self) -> (n: usize)
        ensures
            n == matrix_width(*self),
            forall|i: int|
                0 <= i < matrix_rows(*self).len() ==> (#[trigger] matrix_rows(*self)[i]).len() == n,
    {
        column_count(self)
    }

    /// A copy of the row at `index`, or `None` where the matrix has no such row.
    pub fn row(&self, index: usize) -> (r: Option<Vec<u32>>)
        ensures
            match r {
                Some(row) => index < matrix_rows(*self).len() && row@ == matrix_rows(
                    *self,
                )[index as int],
                None => index >= matrix_rows(*self).len(),
            },
    {
        if index < row_count(self) {
            Some(copy_row(self, index))
        } else {
            None
        }
    }
}

/// Why a repository snapshot could not be turned into a matrix.
#[derive(Debug)]
pub enum RepoError {
    /// The scan handed out a failure in place of the passage at `position`.
    ReadFailed { position: usize, message: String },
    /// The passage at `position` holds an embedding of `found` entries, not of the
    /// configured width.
    WidthMismatch { position: usize, found: usize },
    /// A matrix of `rows` rows of the configured width is more than an array can hold.
    TooLarge { rows: usize },
}

/// Whether a scanned entry is a passage whose embedding has `width` entries.
pub open spec fn entry_fits(entry: Result<Context, String>, width: nat) -> bool {
    entry is Ok && entry->Ok_0.has_width(width)
}

/// Whether the first `upto` entries of a scan all fit the width.
pub open spec fn all_fit(entries: Seq<Result<Context, String>>, width: nat, upto: int) -> bool {
    forall|p: int| 0 <= p < upto ==> entry_fits(#[trigger] entries[p], width)
}

/// The embeddings of a scan, in scan order: row `p` is the embedding of entry `p`.
pub open spec fn stored_rows(entries: Seq<Result<Context, String>>) -> Seq<Seq<u32>> {
    Seq::new(entries.len(), |p: int| entries[p]->Ok_0.embedding@)
}

/// Builds the similarity matrix from one full scan of the repository.
///
/// Row `p` of the matrix is the embedding of entry `p`, so the row index is the
/// passage's identity. The scan is refused as a whole when it is larger than an array
/// can be; otherwise the first entry that failed to read, or whose embedding has
/// another length than `context_window`, decides the error.
pub fn build_rag_matrix(entries: &Vec<Result<Context, String>>, context_window: usize) -> (r:
    Result<RagMatrix, RepoError>)
    ensures
        match r {
            Ok(m) => {
                &&& holds_rows(entries@.len(), context_window as nat)
                &&& all_fit(entries@, context_window as nat, entries@.len() as int)
                &&& matrix_rows(m) == stored_rows(entries@)
                &&& matrix_width(m) == context_window
            },
            Err(RepoError::TooLarge { rows }) => {
                &&& !holds_rows(entries@.len(), context_window as nat)
                &&& rows == entries@.len()
            },
            Err(RepoError::ReadFailed { position, message }) => {
                &&& holds_rows(entries@.len(), context_window as nat)
                &&& position < entries@.len()
                &&& all_fit(entries@, context_window as nat, position as int)
                &&& entries@[position as int] is Err
                &&& message@ == entries@[position as int]->Err_0@
            },
            Err(RepoError::WidthMismatch { position, found }) => {
                &&& holds_rows(entries@.len(), context_window as nat)
                &&& position < entries@.len()
                &&& all_fit(entries@, context_window as nat, position as int)
                &&& entries@[position as int] is Ok
                &&& found == entries@[position as int]->Ok_0.embedding@.len()
                &&& found != context_window
            },
        },
{
    let count: usize = entries.len();
    let limit: usize = isize::MAX as usize;
    if context_window > limit || count > limit {
        return Err(RepoError::TooLarge { rows: count });
    }
    assert(count * context_window <= u128::MAX) by (nonlinear_arith)
        requires
            count <= 0xffff_ffff_ffff_ffff,
            context_window <= 0xffff_ffff_ffff_ffff,
    ;
    if (count as u128) * (context_window as u128) > limit as u128 {
        return Err(RepoError::TooLarge { rows: count });
    }
    let mut matrix = empty_matrix(context_window);
    let mut position: usize = 0;
    while position < count
        invariant
            count == entries@.len(),
            position <= count,
            holds_rows(count as nat, context_window as nat),
            all_fit(entries@, context_window as nat, position as int),
            matrix_width(matrix) == context_window,
            matrix_rows(matrix) == stored_rows(entries@).take(position as int),
        decreases count - position,
    {
        match &entries[position] {
            Err(message) => {
                return Err(RepoError::ReadFailed { position, message: message.clone() });
            },
            Ok(context) => {
                let found: usize = context.embedding.len();
                if found != context_window {
                    return Err(RepoError::WidthMismatch { position, found });
                }
                proof {
                    lemma_fewer_rows_fit(position as nat + 1, count as nat, context_window as nat);
                }
                push_row(&mut matrix, &context.embedding);
                assert(stored_rows(entries@).take(position as int + 1) =~= stored_rows(
                    entries@,
                ).take(position as int).push(context.embedding@));
            },
        }
        position += 1;
    }
    assert(stored_rows(entries@).take(count as int) =~= stored_rows(entries@));
    Ok(matrix)
}

/// An array that fits still fits with fewer rows.
proof fn lemma_fewer_rows_fit(fewer: nat, rows: nat, width: nat)
    requires
        fewer <= rows,
        holds_rows(rows, width),
    ensures
        holds_rows(fewer, width),
{
    assert(fewer * width <= rows * width) by (nonlinear_arith)
        requires
            fewer <= rows,
    ;
}

} // verus!
