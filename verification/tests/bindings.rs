//! What the array bindings decide.
use sp_matmul_rs::bindings::{
    call_options, check_zip_widths, dispatch_kinds, index_kind, indptr_nrows, value_kind,
    zip_chunk_count, DispatchError, DtypeMatches, IKind, InputError, VKind,
};
use sp_matmul_rs::matmul_topn::SortMode;

fn none() -> DtypeMatches {
    DtypeMatches {
        float64: false,
        float32: false,
        int32: false,
        int64: false,
    }
}

fn doubles() -> DtypeMatches {
    DtypeMatches {
        float64: true,
        ..none()
    }
}

fn floats() -> DtypeMatches {
    DtypeMatches {
        float32: true,
        ..none()
    }
}

fn ints() -> DtypeMatches {
    DtypeMatches {
        int32: true,
        ..none()
    }
}

fn longs() -> DtypeMatches {
    DtypeMatches {
        int64: true,
        ..none()
    }
}

#[test]
fn kinds_of_dtypes() {
    assert_eq!(value_kind(doubles()), Some(VKind::F64));
    assert_eq!(value_kind(floats()), Some(VKind::F32));
    assert_eq!(value_kind(ints()), Some(VKind::I32));
    assert_eq!(value_kind(longs()), Some(VKind::I64));
    assert_eq!(value_kind(none()), None);
    assert_eq!(index_kind(ints()), Some(IKind::I32));
    assert_eq!(index_kind(longs()), Some(IKind::I64));
    assert_eq!(index_kind(doubles()), None);
}

#[test]
fn dispatch_on_dtypes() {
    assert_eq!(
        dispatch_kinds(true, true, floats(), longs()),
        Ok((VKind::F32, IKind::I64))
    );
    assert_eq!(
        dispatch_kinds(false, false, floats(), longs()),
        Err(DispatchError::ValueDtypes)
    );
    assert_eq!(
        dispatch_kinds(true, false, floats(), longs()),
        Err(DispatchError::IndexDtypes)
    );
    assert_eq!(
        dispatch_kinds(true, true, none(), longs()),
        Err(DispatchError::Unsupported)
    );
    assert_eq!(
        dispatch_kinds(true, true, ints(), floats()),
        Err(DispatchError::Unsupported)
    );
    assert_eq!(
        DispatchError::ValueDtypes.message(),
        "A and B must have the same value dtype"
    );
    assert_eq!(
        DispatchError::IndexDtypes.message(),
        "A and B must have the same index dtype"
    );
    assert_eq!(
        DispatchError::Unsupported.message(),
        "unsupported dtype combo: "
    );
}

#[test]
fn rows_of_indptr() {
    assert_eq!(indptr_nrows(1), Ok(0));
    assert_eq!(indptr_nrows(8), Ok(7));
    assert_eq!(indptr_nrows(0), Err(InputError::EmptyIndptr));
    assert_eq!(
        InputError::EmptyIndptr.message(),
        "indptr must have length >= 1"
    );
}

#[test]
fn zip_lists() {
    assert_eq!(zip_chunk_count(3, 3, 3), Ok(3));
    assert_eq!(zip_chunk_count(0, 3, 3), Err(InputError::NoChunks));
    assert_eq!(zip_chunk_count(3, 2, 3), Err(InputError::ListLengths));
    assert_eq!(zip_chunk_count(3, 3, 4), Err(InputError::ListLengths));
    assert_eq!(check_zip_widths(3, 3), Ok(()));
    assert_eq!(check_zip_widths(2, 3), Err(InputError::WidthCount));
    assert_eq!(
        InputError::NoChunks.message(),
        "zip_sp_matmul_topn: at least one chunk is required"
    );
    assert_eq!(
        InputError::ListLengths.message(),
        "zip_sp_matmul_topn: data, indptr, indices must have the same length"
    );
    assert_eq!(
        InputError::WidthCount.message(),
        "zip_sp_matmul_topn: B_ncols length must match number of chunks"
    );
}

#[test]
fn options_of_a_call() {
    let opts = call_options::<i32>(Some(4), Some(100), true, Some(8), Some(2));
    assert_eq!(opts.threshold, Some(4));
    assert_eq!(opts.capacity_hint, Some(100));
    assert_eq!(opts.sort, SortMode::ByValueDesc);
    assert_eq!(opts.chunk_cols, Some(8));
    assert_eq!(opts.n_threads, Some(2));
    assert!(!opts.tile_b);
    let opts = call_options::<i32>(None, None, false, None, None);
    assert_eq!(opts.sort, SortMode::ByColumn);
    assert!(opts.projection.is_none());
    assert!(opts.row_block.is_none());
}
