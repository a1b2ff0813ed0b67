//! Matrices as the shader reads them.

use vstd::prelude::*;
use crate::bytes::{bytes_of_words, cast_words, holds_words};
use crate::gpu::UNIFORM_SIZE;
use crate::single::Single;

verus! {

/// A four by four matrix by its columns.
#[derive(Clone, Copy, Debug)]
pub struct Matrix {
    pub columns: [[Single; 4]; 4],
}

/// The words of a matrix, column by column.
pub open spec fn matrix_words(m: Matrix) -> Seq<u32> {
    Seq::new(16, |i: int| m.columns@[i / 4]@[i % 4].bits)
}

/// The words of a matrix, column by column.
pub fn words_of(m: &Matrix) -> (r: [u32; 16])
    ensures
        r@ == matrix_words(*m),
        forall|column: int, row: int|
            0 <= column < 4 && 0 <= row < 4 ==> r@[4 * column + row] == (#[trigger] m.columns@[column]@[row]).bits,
{
    let c = &m.columns;
    let r = [
        c[0][0].bits,
        c[0][1].bits,
        c[0][2].bits,
        c[0][3].bits,
        c[1][0].bits,
        c[1][1].bits,
        c[1][2].bits,
        c[1][3].bits,
        c[2][0].bits,
        c[2][1].bits,
        c[2][2].bits,
        c[2][3].bits,
        c[3][0].bits,
        c[3][1].bits,
        c[3][2].bits,
        c[3][3].bits,
    ];
    assert(r@ =~= matrix_words(*m));
    r
}

/// The contents of the camera's uniform buffer.
pub fn camera_uniform(view_proj: &Matrix) -> (r: Vec<u8>)
    ensures
        holds_words(r@, matrix_words(*view_proj)),
        r@.len() == 64,
        r@.len() == UNIFORM_SIZE,
{
    let words = words_of(view_proj);
    cast_words(words.as_slice())
}

/// The contents of the uniform buffer of an object.
pub fn object_uniform(model: &Matrix) -> (r: Vec<u8>)
    ensures
        holds_words(r@, matrix_words(*model)),
        r@.len() == 64,
        r@.len() == UNIFORM_SIZE,
{
    let words = words_of(model);
    bytes_of_words(&words)
}

/// A matrix is stored column after column, each from the top, without gaps; so
/// no two matrices have the same words.
pub proof fn lemma_matrix_is_stored_by_columns(m: Matrix, column: int, row: int)
    requires
        0 <= column < 4,
        0 <= row < 4,
    ensures
        matrix_words(m).len() == 16,
        UNIFORM_SIZE == 4 * matrix_words(m).len(),
        matrix_words(m)[4 * column + row] == m.columns@[column]@[row].bits,
{
}

} // verus!
