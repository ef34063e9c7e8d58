//! What the array bindings decide before a kernel runs: which element types a
//! call is for, how many rows an `indptr` array implies, and whether the lists
//! handed to the zip match.
use vstd::prelude::*;

use crate::matmul_topn::{SortMode, TopNOptions};
use crate::scalar::Scalar;

verus! {

/// Supported element types of the value arrays.
#[derive(Debug, Clone, Copy, PartialEq, Eq, Structural)]
pub enum VKind {
    F32,
    F64,
    I32,
    I64,
}

/// Supported element types of the index arrays.
#[derive(Debug, Clone, Copy, PartialEq, Eq, Structural)]
pub enum IKind {
    I32,
    I64,
}

/// Which of the supported value types a dtype is equivalent to. More than one
/// answer may be yes on a platform where types coincide.
#[derive(Debug, Clone, Copy)]
pub struct DtypeMatches {
    pub float64: bool,
    pub float32: bool,
    pub int32: bool,
    pub int64: bool,
}

/// The value type of a dtype: the first match of double, float, 32-bit and
/// 64-bit integer.
pub fn value_kind(dt: DtypeMatches) -> (r: Option<VKind>)
    ensures
        r == if dt.float64 {
            Some(VKind::F64)
        } else if dt.float32 {
            Some(VKind::F32)
        } else if dt.int32 {
            Some(VKind::I32)
        } else if dt.int64 {
            Some(VKind::I64)
        } else {
            None
        },
{
    if dt.float64 {
        return Some(VKind::F64);
    }
    if dt.float32 {
        return Some(VKind::F32);
    }
    if dt.int32 {
        return Some(VKind::I32);
    }
    if dt.int64 {
        return Some(VKind::I64);
    }
    None
}

/// The index type of a dtype: the first match of 32-bit and 64-bit integer.
pub fn index_kind(dt: DtypeMatches) -> (r: Option<IKind>)
    ensures
        r == if dt.int32 {
            Some(IKind::I32)
        } else if dt.int64 {
            Some(IKind::I64)
        } else {
            None
        },
{
    if dt.int32 {
        return Some(IKind::I32);
    }
    if dt.int64 {
        return Some(IKind::I64);
    }
    None
}

/// Why a call cannot be dispatched.
#[derive(Debug, Clone, Copy, PartialEq, Eq, Structural)]
pub enum DispatchError {
    /// The value dtypes of the factors differ.
    ValueDtypes,
    /// The index dtypes of the factors differ.
    IndexDtypes,
    /// No kernel for this pair of dtypes.
    Unsupported,
}

impl DispatchError {
    /// The error in words. The unsupported dtypes follow the last message.
    pub fn message(&self) -> (r: &'static str)
        ensures
            r@ == match *self {
                DispatchError::ValueDtypes => "A and B must have the same value dtype"@,
                DispatchError::IndexDtypes => "A and B must have the same index dtype"@,
                DispatchError::Unsupported => "unsupported dtype combo: "@,
            },
    {
        match self {
            DispatchError::ValueDtypes => "A and B must have the same value dtype",
            DispatchError::IndexDtypes => "A and B must have the same index dtype",
            DispatchError::Unsupported => "unsupported dtype combo: ",
        }
    }
}

/// Pick the (value, index) types of a call from the dtypes of `A`, given
/// whether those of `B` are equivalent. Value dtypes are compared first.
pub fn dispatch_kinds(
    same_values: bool,
    same_indices: bool,
    values: DtypeMatches,
    indices: DtypeMatches,
) -> (r: Result<(VKind, IKind), DispatchError>)
    ensures
        !same_values ==> r == Err::<(VKind, IKind), _>(DispatchError::ValueDtypes),
        same_values && !same_indices ==> r == Err::<(VKind, IKind), _>(
            DispatchError::IndexDtypes,
        ),
        same_values && same_indices ==> match r {
            Ok((v, i)) => {
                &&& v == VKind::F64 <==> values.float64
                &&& v == VKind::F32 <==> values.float32 && !values.float64
                &&& v == VKind::I32 <==> values.int32 && !values.float64 && !values.float32
                &&& v == VKind::I64 <==> values.int64 && !values.float64 && !values.float32 && !values.int32
                &&& i == IKind::I32 <==> indices.int32
                &&& i == IKind::I64 <==> indices.int64 && !indices.int32
            },
            Err(e) => {
                &&& e == DispatchError::Unsupported
                &&& !(values.float64 || values.float32 || values.int32 || values.int64) || !(indices.int32
                    || indices.int64)
            },
        },
{
    if !same_values {
        return Err(DispatchError::ValueDtypes);
    }
    if !same_indices {
        return Err(DispatchError::IndexDtypes);
    }
    match (value_kind(values), index_kind(indices)) {
        (Some(v), Some(i)) => Ok((v, i)),
        _ => Err(DispatchError::Unsupported),
    }
}

/// What is wrong with the arrays of a call.
#[derive(Debug, Clone, Copy, PartialEq, Eq, Structural)]
pub enum InputError {
    /// An `indptr` array without elements.
    EmptyIndptr,
    /// A zip without chunks.
    NoChunks,
    /// A zip with lists of different lengths.
    ListLengths,
    /// A zip with a width list that does not match.
    WidthCount,
}

impl InputError {
    /// The error in words.
    pub fn message(&self) -> (r: &'static str)
        ensures
            r@ == match *self {
                InputError::EmptyIndptr => "indptr must have length >= 1"@,
                InputError::NoChunks => "zip_sp_matmul_topn: at least one chunk is required"@,
                InputError::ListLengths =>
                    "zip_sp_matmul_topn: data, indptr, indices must have the same length"@,
                InputError::WidthCount =>
                    "zip_sp_matmul_topn: B_ncols length must match number of chunks"@,
            },
    {
        match self {
            InputError::EmptyIndptr => "indptr must have length >= 1",
            InputError::NoChunks => "zip_sp_matmul_topn: at least one chunk is required",
            InputError::ListLengths =>
                "zip_sp_matmul_topn: data, indptr, indices must have the same length",
            InputError::WidthCount =>
                "zip_sp_matmul_topn: B_ncols length must match number of chunks",
        }
    }
}

/// The row count that an `indptr` array of length `len` implies: `len` minus
/// one, where there is at least one element.
pub fn indptr_nrows(len: usize) -> (r: Result<usize, InputError>)
    ensures
        match r {
            Ok(nrows) => len == nrows + 1,
            Err(e) => len == 0 && e == InputError::EmptyIndptr,
        },
{
    if len == 0 {
        return Err(InputError::EmptyIndptr);
    }
    Ok(len - 1)
}

/// The number of chunks that the three lists of a zip hold.
pub fn zip_chunk_count(data: usize, indptr: usize, indices: usize) -> (r: Result<
    usize,
    InputError,
>)
    ensures
        match r {
            Ok(n) => n > 0 && data == n && indptr == n && indices == n,
            Err(InputError::NoChunks) => data == 0,
            Err(e) => e == InputError::ListLengths && data > 0 && (indptr != data || indices
                != data),
        },
{
    if data == 0 {
        return Err(InputError::NoChunks);
    }
    if indptr != data || indices != data {
        return Err(InputError::ListLengths);
    }
    Ok(data)
}

/// Is there one width for each chunk?
pub fn check_zip_widths(widths: usize, n_chunks: usize) -> (r: Result<(), InputError>)
    ensures
        match r {
            Ok(_) => widths == n_chunks,
            Err(e) => widths != n_chunks && e == InputError::WidthCount,
        },
{
    if widths != n_chunks {
        return Err(InputError::WidthCount);
    }
    Ok(())
}

/// The options of a bound top-n call: `sort` asks for the largest value first.
pub fn call_options<V: Scalar>(
    threshold: Option<V>,
    capacity_hint: Option<usize>,
    sort: bool,
    chunk_cols: Option<usize>,
    n_threads: Option<usize>,
) -> (r: TopNOptions<V>)
    ensures
        r.threshold == threshold,
        r.capacity_hint == capacity_hint,
        r.sort == if sort {
            SortMode::ByValueDesc
        } else {
            SortMode::ByColumn
        },
        r.chunk_cols == chunk_cols,
        r.n_threads == n_threads,
        r.accum_mode == crate::chunked::AccumMode::Adaptive,
        r.projection is None,
        r.row_block is None,
        !r.tile_b,
{
    TopNOptions {
        threshold,
        capacity_hint,
        sort: if sort {
            SortMode::ByValueDesc
        } else {
            SortMode::ByColumn
        },
        chunk_cols,
        n_threads,
        ..TopNOptions::default()
    }
}

} // verus!
