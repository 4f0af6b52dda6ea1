//! A minimal multi-dimensional array (tensor) construction library.
//!
//! A tensor is a flat, contiguous buffer together with a shape: one extent
//! per dimension, dimension 0 first. Addressing is row-major with dimension 0
//! as the fastest-varying, contiguous axis: the stride of dimension `k` is
//! the product of all extents before `k`. The two constructors build a tensor
//! filled with a constant value (`fill`) or with the multiplicative identity
//! along the generalized diagonal (`eye`).

mod element;
mod layout;
mod tensor;

pub use crate::element::TensorNumber;
pub use crate::layout::{flat_offset, product};
pub use crate::tensor::{
    diag_coord, diag_count, lemma_eye_deterministic, lemma_eye_matrix, lemma_eye_rank1,
    lemma_fill_deterministic, lemma_square_offset, lemma_square_offset_decompose, on_diag,
    on_diag_upto, uniform, ShapeError, Tensor,
};
