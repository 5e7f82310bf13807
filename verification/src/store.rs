use vstd::prelude::*;

use crate::error::StoreError;

verus! {

/// The rows held by a data file of the given row width: the consecutive
/// whole chunks of `w` bytes, in ascending slot order. A trailing partial
/// chunk, left by a torn write, is dropped and never surfaces as a row.
pub open spec fn chunks(data: Seq<u8>, w: int) -> Seq<Seq<u8>>
    recommends
        w >= 1,
{
    Seq::new((data.len() as int / w) as nat, |i: int| data.subrange(i * w, i * w + w))
}

/// Scan/slot consistency: the row at slot `i` of the scan is exactly the
/// `w` bytes at offset `i * w`, which is what a positional read returns.
pub proof fn lemma_scan_slot_consistency(data: Seq<u8>, w: int, i: int)
    requires
        w >= 1,
        0 <= i < chunks(data, w).len(),
    ensures
        chunks(data, w)[i] == data.subrange(i * w, i * w + w),
{
}

/// Splits the whole data file into its rows, dropping a trailing partial
/// chunk.
pub fn scan(data: &Vec<u8>, row_byte_width: usize) -> (r: Vec<Vec<u8>>)
    requires
        row_byte_width >= 1,
    ensures
        r.deep_view() == chunks(data@, row_byte_width as int),
{
    let w = row_byte_width;
    let dlen = data.len();
    let n = dlen / w;
    let mut out: Vec<Vec<u8>> = Vec::new();
    let mut i: usize = 0;
    proof {
        assert(n * w <= data@.len()) by (nonlinear_arith)
            requires
                w >= 1,
                n == data@.len() as int / w as int,
                data@.len() >= 0,
        ;
    }
    while i < n
        invariant
            i <= n,
            w >= 1,
            dlen == data@.len(),
            n == data@.len() as int / w as int,
            n * w <= data@.len(),
            out.deep_view().len() == i as int,
            forall|t: int|
                0 <= t < i ==> out.deep_view()[t] == data@.subrange(t * w, t * w + w),
        decreases n - i,
    {
        proof {
            assert(i as int * w + w <= n * w && i as int * w >= 0) by (nonlinear_arith)
                requires
                    0 <= i as int && (i as int) < n,
                    w >= 1,
            ;
            assert(i as int * w + w <= dlen);
        }
        let start = i * w;
        let mut row: Vec<u8> = Vec::new();
        let mut k: usize = 0;
        proof {
            assert(row@ =~= data@.subrange(start as int, start as int));
        }
        while k < w
            invariant
                k <= w,
                dlen == data@.len(),
                start == i as int * w,
                start + w <= data@.len(),
                row@ == data@.subrange(start as int, start as int + k),
            decreases w - k,
        {
            row.push(data[start + k]);
            proof {
                assert(row@ =~= data@.subrange(start as int, start as int + k + 1));
            }
            k = k + 1;
        }
        let ghost prev = out.deep_view();
        out.push(row);
        proof {
            assert(out.deep_view() =~~= prev.push(data@.subrange(
                i as int * w,
                i as int * w + w,
            )));
        }
        i = i + 1;
    }
    proof {
        assert(out.deep_view() =~= chunks(data@, w as int));
    }
    out
}

/// Reads the row at one slot: exactly `row_byte_width` bytes at offset
/// `slot_number * row_byte_width`. Fails when that span lies beyond the end
/// of the data.
pub fn read_slot(data: &Vec<u8>, slot_number: usize, row_byte_width: usize) -> (r: Result<
    Vec<u8>,
    StoreError,
>)
    requires
        row_byte_width >= 1,
    ensures
        r is Ok <==> (slot_number + 1) * row_byte_width <= data@.len(),
        r matches Ok(b) ==> b@ == data@.subrange(
            slot_number as int * row_byte_width,
            slot_number as int * row_byte_width + row_byte_width,
        ),
        r matches Err(e) ==> e == StoreError::SlotOutOfRange,
{
    let w = row_byte_width;
    let dlen = data.len();
    let n = dlen / w;
    proof {
        assert(((slot_number as int) < n) == ((slot_number + 1) * w <= data@.len()))
            by (nonlinear_arith)
            requires
                w >= 1,
                n == data@.len() as int / w as int,
                data@.len() >= 0,
                slot_number as int >= 0,
        ;
    }
    if slot_number >= n {
        return Err(StoreError::SlotOutOfRange);
    }
    proof {
        assert(n * w <= data@.len()) by (nonlinear_arith)
            requires
                w >= 1,
                n == data@.len() as int / w as int,
                data@.len() >= 0,
        ;
        assert(slot_number as int * w + w <= n * w && slot_number as int * w >= 0)
            by (nonlinear_arith)
            requires
                0 <= slot_number as int && (slot_number as int) < n,
                w >= 1,
        ;
        assert(slot_number as int * w + w <= dlen);
    }
    let start = slot_number * w;
    let mut row: Vec<u8> = Vec::new();
    let mut k: usize = 0;
    proof {
        assert(row@ =~= data@.subrange(start as int, start as int));
    }
    while k < w
        invariant
            k <= w,
            dlen == data@.len(),
            start == slot_number as int * w,
            start + w <= data@.len(),
            row@ == data@.subrange(start as int, start as int + k),
        decreases w - k,
    {
        row.push(data[start + k]);
        proof {
            assert(row@ =~= data@.subrange(start as int, start as int + k + 1));
        }
        k = k + 1;
    }
    Ok(row)
}

/// Appends one encoded row to the in-memory image of a data file: the file
/// grows by exactly the row's bytes. The caller persists the grown image.
pub fn append(data: &mut Vec<u8>, row_bytes: &Vec<u8>)
    ensures
        final(data)@ == old(data)@ + row_bytes@,
{
    let mut k: usize = 0;
    proof {
        assert(data@ =~= old(data)@ + row_bytes@.subrange(0, 0));
    }
    while k < row_bytes.len()
        invariant
            k <= row_bytes@.len(),
            data@ == old(data)@ + row_bytes@.subrange(0, k as int),
        decreases row_bytes@.len() - k,
    {
        data.push(row_bytes[k]);
        proof {
            assert(data@ =~= old(data)@ + row_bytes@.subrange(0, k + 1));
        }
        k = k + 1;
    }
    proof {
        assert(row_bytes@.subrange(0, row_bytes@.len() as int) =~= row_bytes@);
    }
}

} // verus!
