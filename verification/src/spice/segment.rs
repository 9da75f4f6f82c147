//! Integer layout of SPK Chebyshev segments (Types 2 and 3).
//!
//! A segment is a packed sequence of `n_records` records of `rsize` double
//! words each, `[MID, RADIUS, coefficients…]`, followed by a four-word
//! trailer `(INIT, INTLEN, RSIZE, N)`. Type 2 stores three components
//! (position), Type 3 six (position and velocity), each with
//! `ncoeff = (rsize - 2) / components` coefficients.

use vstd::prelude::*;

verus! {

/// Why a segment's layout was refused.
#[derive(Debug, Clone, Copy, PartialEq, Eq, Structural)]
pub enum SegmentLayoutError {
    /// The SPK data type is neither 2 nor 3.
    UnsupportedDataType { data_type: i32 },
    /// The trailer cannot sit before word 4.
    TrailerTooSmall { end_word: usize },
    /// The record size is outside `5..=4096`.
    ImplausibleRecordSize { rsize: usize },
    /// `rsize - 2` is not a multiple of the component count.
    RecordSizeNotMultiple { rsize: usize, components: u8 },
    /// The record count is zero or above ten million.
    ImplausibleRecordCount { n_records: usize },
    /// `n_records * rsize` does not fit in a `usize`.
    RecordCountOverflow { n_records: usize, rsize: usize },
    /// The data words `[start_word, start_word + total - 1]` run past the
    /// summary's end word.
    WindowOutsideSummary { start_word: usize, total: usize, end_word: usize },
}

/// Components per record of an SPK data type: 3 for Type 2, 6 for Type 3.
pub open spec fn components_of(data_type: i32) -> Option<u8> {
    if data_type == 2 {
        Some(3u8)
    } else if data_type == 3 {
        Some(6u8)
    } else {
        None
    }
}

/// The number of components of a segment of the given data type.
pub fn components_for_data_type(data_type: i32) -> (r: Result<u8, SegmentLayoutError>)
    ensures
        match components_of(data_type) {
            Some(c) => r == Ok::<u8, SegmentLayoutError>(c),
            None => r == Err::<u8, SegmentLayoutError>(
                SegmentLayoutError::UnsupportedDataType { data_type },
            ),
        },
{
    if data_type == 2 {
        Ok(3)
    } else if data_type == 3 {
        Ok(6)
    } else {
        Err(SegmentLayoutError::UnsupportedDataType { data_type })
    }
}

/// The trailer (four words ending at `end_word`) must start at word 1 or
/// later.
pub fn check_trailer(end_word: usize) -> (r: Result<(), SegmentLayoutError>)
    ensures
        r is Ok <==> end_word >= 4,
        r is Err ==> r == Err::<(), SegmentLayoutError>(
            SegmentLayoutError::TrailerTooSmall { end_word },
        ),
{
    if end_word < 4 {
        Err(SegmentLayoutError::TrailerTooSmall { end_word })
    } else {
        Ok(())
    }
}

/// The record-shape check of a segment with `components` components:
/// the record size, its split into coefficient series and the record count.
pub open spec fn record_layout_spec(rsize: usize, n_records: usize, components: u8) -> Result<
    usize,
    SegmentLayoutError,
> {
    if !(5 <= rsize <= 4096) {
        Err(SegmentLayoutError::ImplausibleRecordSize { rsize })
    } else if (rsize - 2) % (components as int) != 0 {
        Err(SegmentLayoutError::RecordSizeNotMultiple { rsize, components })
    } else if n_records == 0 || n_records > 10_000_000 {
        Err(SegmentLayoutError::ImplausibleRecordCount { n_records })
    } else {
        Ok(((rsize - 2) / (components as int)) as usize)
    }
}

/// Check the record shape and give the coefficients per series
/// (`(rsize - 2) / components`).
pub fn record_layout(rsize: usize, n_records: usize, components: u8) -> (r: Result<
    usize,
    SegmentLayoutError,
>)
    requires
        components > 0,
    ensures
        r == record_layout_spec(rsize, n_records, components),
{
    if !(5 <= rsize && rsize <= 4096) {
        return Err(SegmentLayoutError::ImplausibleRecordSize { rsize });
    }
    let comp = components as usize;
    if (rsize - 2) % comp != 0 {
        return Err(SegmentLayoutError::RecordSizeNotMultiple { rsize, components });
    }
    if n_records == 0 || n_records > 10_000_000 {
        return Err(SegmentLayoutError::ImplausibleRecordCount { n_records });
    }
    Ok((rsize - 2) / comp)
}

/// The data-window check: the `n_records * rsize` words starting at
/// `start_word` must fit in `usize` and end no later than `end_word`.
pub open spec fn data_window_spec(
    start_word: usize,
    end_word: usize,
    n_records: usize,
    rsize: usize,
) -> Result<usize, SegmentLayoutError> {
    let total = n_records * rsize;
    if total > usize::MAX {
        Err(SegmentLayoutError::RecordCountOverflow { n_records, rsize })
    } else if start_word + total - 1 > end_word {
        Err(
            SegmentLayoutError::WindowOutsideSummary {
                start_word,
                total: total as usize,
                end_word,
            },
        )
    } else {
        Ok(total as usize)
    }
}

/// Check that the record data fits the summary and give its word count.
pub fn data_window(start_word: usize, end_word: usize, n_records: usize, rsize: usize) -> (r:
    Result<usize, SegmentLayoutError>)
    ensures
        r == data_window_spec(start_word, end_word, n_records, rsize),
{
    let total = match n_records.checked_mul(rsize) {
        Some(t) => t,
        None => {
            return Err(SegmentLayoutError::RecordCountOverflow { n_records, rsize });
        },
    };
    if (start_word as u128) + (total as u128) > (end_word as u128) + 1 {
        return Err(SegmentLayoutError::WindowOutsideSummary { start_word, total, end_word });
    }
    Ok(total)
}

/// The record covering an epoch: the floor of `(et - init) / intlen`,
/// clamped into `[0, n_records - 1]`, and the word offset of that record
/// in the record data.
pub fn record_index(floor_index: i64, n_records: usize, rsize: usize) -> (r: (usize, usize))
    requires
        n_records > 0,
        n_records * rsize <= usize::MAX,
    ensures
        r.0 == (if floor_index < 0 {
            0
        } else if floor_index >= n_records {
            n_records - 1
        } else {
            floor_index as int
        }),
        r.1 == r.0 * rsize,
        r.1 + rsize <= n_records * rsize,
{
    let idx: usize = if floor_index < 0 {
        0
    } else if floor_index as u64 >= n_records as u64 {
        n_records - 1
    } else {
        floor_index as usize
    };
    proof {
        assert(idx * rsize + rsize <= n_records * rsize) by (nonlinear_arith)
            requires
                idx < n_records,
        ;
    }
    (idx, idx * rsize)
}

/// A segment that passes both checks has room for every record, and each
/// of its `3` or `6` series of `ncoeff` coefficients lies within the record
/// after `MID` and `RADIUS`.
pub proof fn accepted_layout_fits(
    start_word: usize,
    end_word: usize,
    n_records: usize,
    rsize: usize,
    components: u8,
)
    requires
        components > 0,
        record_layout_spec(rsize, n_records, components) is Ok,
        data_window_spec(start_word, end_word, n_records, rsize) is Ok,
    ensures
        ({
            let ncoeff = record_layout_spec(rsize, n_records, components)->Ok_0;
            &&& 2 + components * ncoeff == rsize
            &&& ncoeff >= 1
            &&& start_word + n_records * rsize <= end_word + 1
        }),
{
    let c = components as int;
    let k = (rsize - 2) / c;
    assert((rsize - 2) == c * k) by (nonlinear_arith)
        requires
            (rsize - 2) % c == 0,
            c > 0,
            k == (rsize - 2) / c,
    ;
    assert(k >= 1) by (nonlinear_arith)
        requires
            rsize - 2 == c * k,
            rsize >= 5,
            c > 0,
    ;
}

} // verus!
