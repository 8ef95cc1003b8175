//! The byte transpose of fixed-stride records and its inverse.
//!
//! A stream of `n` whole records of `stride` bytes is read as a grid with one
//! record per row; the transposed stream stores the grid column by column.
//! Bytes behind the last whole record keep their place.

use vstd::arithmetic::div_mod::{lemma_fundamental_div_mod, lemma_fundamental_div_mod_converse};
use vstd::prelude::*;

verus! {

/// The transposed form of `s`: byte `j` of record `i` stands at `j * n + i`.
pub open spec fn shuffled(s: Seq<u8>, stride: int) -> Seq<u8> {
    if s.len() == 0 || stride <= 1 {
        s
    } else {
        let n = s.len() as int / stride;
        Seq::new(
            s.len(),
            |k: int|
                if k < n * stride {
                    s[(k % n) * stride + k / n]
                } else {
                    s[k]
                },
        )
    }
}

/// The stream whose transposed form is `s`: byte `j` of record `i` is taken
/// from `j * n + i`.
pub open spec fn unshuffled(s: Seq<u8>, stride: int) -> Seq<u8> {
    if s.len() == 0 || stride <= 1 {
        s
    } else {
        let n = s.len() as int / stride;
        Seq::new(
            s.len(),
            |k: int|
                if k < n * stride {
                    s[(k % stride) * n + k / stride]
                } else {
                    s[k]
                },
        )
    }
}

/// Cell `r` of row `q` in a grid of `rows` rows of width `d`.
pub proof fn lemma_cell(q: int, r: int, d: int, rows: int)
    requires
        0 <= r < d,
        0 <= q < rows,
    ensures
        0 <= q * d + r < rows * d,
        (q * d + r) / d == q,
        (q * d + r) % d == r,
{
    assert(0 <= q * d && q * d + d <= rows * d) by (nonlinear_arith)
        requires
            0 <= q < rows,
            0 < d,
    ;
    lemma_fundamental_div_mod_converse(q * d + r, d, q, r);
}

/// Row and column of index `k` in a grid of `rows` rows of width `d`.
pub proof fn lemma_row_col(k: int, d: int, rows: int)
    requires
        0 < d,
        0 <= k < rows * d,
    ensures
        k == (k / d) * d + k % d,
        0 <= k % d < d,
        0 <= k / d < rows,
{
    lemma_fundamental_div_mod(k, d);
    assert(d * (k / d) == (k / d) * d) by (nonlinear_arith);
    assert(0 <= k / d < rows) by (nonlinear_arith)
        requires
            0 < d,
            0 <= k < rows * d,
            k == (k / d) * d + k % d,
            0 <= k % d < d,
    ;
}

/// The whole records of a stream fit in it.
pub proof fn lemma_whole_records(len: int, stride: int)
    requires
        0 <= len,
        0 < stride,
    ensures
        0 <= len / stride,
        (len / stride) * stride <= len,
        stride > len ==> len / stride == 0,
        len > 0 && stride <= len ==> len / stride > 0,
{
    lemma_fundamental_div_mod(len, stride);
    assert(stride * (len / stride) == (len / stride) * stride) by (nonlinear_arith);
    assert(0 <= len / stride && (stride > len ==> len / stride == 0) && (stride <= len ==> len
        / stride > 0)) by (nonlinear_arith)
        requires
            0 <= len,
            0 < stride,
            len == (len / stride) * stride + len % stride,
            0 <= len % stride < stride,
    ;
}

/// The inverse transpose undoes the transpose, for every stride and length.
pub proof fn lemma_unshuffle_shuffle(s: Seq<u8>, stride: int)
    ensures
        unshuffled(shuffled(s, stride), stride) == s,
        shuffled(s, stride).len() == s.len(),
{
    if s.len() == 0 || stride <= 1 {
    } else {
        let n = s.len() as int / stride;
        let t = shuffled(s, stride);
        lemma_whole_records(s.len() as int, stride);
        assert forall|k: int| 0 <= k < s.len() implies unshuffled(t, stride)[k] == s[k] by {
            if k < n * stride {
                lemma_row_col(k, stride, n);
                let i = k / stride;
                let j = k % stride;
                lemma_cell(j, i, n, stride);
                assert(j * n + i < n * stride) by (nonlinear_arith)
                    requires
                        0 <= j * n + i < stride * n,
                ;
            }
        }
        assert(unshuffled(t, stride) =~= s);
    }
}

/// The transpose undoes the inverse transpose, for every stride and length.
pub proof fn lemma_shuffle_unshuffle(s: Seq<u8>, stride: int)
    ensures
        shuffled(unshuffled(s, stride), stride) == s,
        unshuffled(s, stride).len() == s.len(),
{
    if s.len() == 0 || stride <= 1 {
    } else {
        let n = s.len() as int / stride;
        let t = unshuffled(s, stride);
        lemma_whole_records(s.len() as int, stride);
        assert forall|k: int| 0 <= k < s.len() implies shuffled(t, stride)[k] == s[k] by {
            if k < n * stride {
                assert(k < stride * n) by (nonlinear_arith)
                    requires
                        k < n * stride,
                ;
                lemma_row_col(k, n, stride);
                let j = k / n;
                let i = k % n;
                lemma_cell(i, j, stride, n);
            }
        }
        assert(shuffled(t, stride) =~= s);
    }
}

/// Transposes the whole records of `data`.
pub fn shuffle_bytes(data: &[u8], stride: usize) -> (out: Vec<u8>)
    ensures
        out@ == shuffled(data@, stride as int),
{
    let mut out = vstd::slice::slice_to_vec(data);
    if data.len() == 0 || stride <= 1 {
        return out;
    }
    let count = data.len() / stride;
    proof {
        lemma_whole_records(data.len() as int, stride as int);
    }
    if count == 0 {
        proof {
            assert(0 * (stride as int) == 0);
            assert(out@ =~= shuffled(data@, stride as int));
        }
        return out;
    }
    let mut i: usize = 0;
    proof {
        assert forall|k: int| 0 <= k < data.len() implies #[trigger] (k % (count as int)) >= 0 by {
            vstd::arithmetic::div_mod::lemma_mod_bound(k, count as int);
        }
    }
    while i < count
        invariant
            stride > 1,
            i <= count,
            count > 0,
            count == data.len() as int / (stride as int),
            count * stride <= data.len(),
            out.len() == data.len(),
            forall|k: int|
                0 <= k < data.len() ==> out@[k] == (if k < count * stride && k % (count as int)
                    < i {
                    data@[(k % (count as int)) * stride + k / (count as int)]
                } else {
                    data@[k]
                }),
        decreases count - i,
    {
        let mut j: usize = 0;
        while j < stride
            invariant
                stride > 1,
                i < count,
                j <= stride,
                count * stride <= data.len(),
                out.len() == data.len(),
                forall|k: int|
                    0 <= k < data.len() ==> out@[k] == (if k < count * stride && (k % (
                    count as int) < i || (k % (count as int) == i && k / (count as int) < j)) {
                        data@[(k % (count as int)) * stride + k / (count as int)]
                    } else {
                        data@[k]
                    }),
            decreases stride - j,
        {
            proof {
                lemma_cell(j as int, i as int, count as int, stride as int);
                lemma_cell(i as int, j as int, stride as int, count as int);
                assert(stride * count == count * stride) by (nonlinear_arith);
            }
            out[j * count + i] = data[i * stride + j];
            proof {
                let c = count as int;
                assert forall|k: int| 0 <= k < data.len() implies out@[k] == (if k < count
                    * stride && (k % c < i || (k % c == i && k / c < j + 1)) {
                    data@[(k % c) * stride + k / c]
                } else {
                    data@[k]
                }) by {
                    if k < count * stride {
                        assert(k < stride * c);
                        lemma_row_col(k, c, stride as int);
                    }
                }
            }
            j = j + 1;
        }
        proof {
            let c = count as int;
            assert forall|k: int| 0 <= k < data.len() implies out@[k] == (if k < count * stride
                && k % c < i + 1 {
                data@[(k % c) * stride + k / c]
            } else {
                data@[k]
            }) by {
                if k < count * stride {
                    assert(k < stride * c) by (nonlinear_arith)
                        requires
                            k < c * stride,
                    ;
                    lemma_row_col(k, c, stride as int);
                }
            }
        }
        i = i + 1;
    }
    proof {
        let c = count as int;
        assert forall|k: int| 0 <= k < data.len() implies out@[k] == shuffled(
            data@,
            stride as int,
        )[k] by {
            if k < count * stride {
                assert(k < stride * c) by (nonlinear_arith)
                    requires
                        k < c * stride,
                ;
                lemma_row_col(k, c, stride as int);
            }
        }
        assert(out@ =~= shuffled(data@, stride as int));
    }
    out
}

/// Restores the record order that `shuffle_bytes` transposed.
pub fn unshuffle_bytes(data: &[u8], stride: usize) -> (out: Vec<u8>)
    ensures
        out@ == unshuffled(data@, stride as int),
{
    let mut out = vstd::slice::slice_to_vec(data);
    if data.len() == 0 || stride <= 1 {
        return out;
    }
    let count = data.len() / stride;
    proof {
        lemma_whole_records(data.len() as int, stride as int);
    }
    let mut i: usize = 0;
    while i < count
        invariant
            stride > 1,
            i <= count,
            count == data.len() as int / (stride as int),
            count * stride <= data.len(),
            out.len() == data.len(),
            forall|k: int|
                0 <= k < data.len() ==> out@[k] == (if k < i * stride {
                    data@[(k % (stride as int)) * count + k / (stride as int)]
                } else {
                    data@[k]
                }),
        decreases count - i,
    {
        let mut j: usize = 0;
        proof {
            assert(i * stride + stride <= count * stride) by (nonlinear_arith)
                requires
                    i < count,
            ;
        }
        while j < stride
            invariant
                stride > 1,
                i < count,
                j <= stride,
                count * stride <= data.len(),
                i * stride + stride <= count * stride,
                out.len() == data.len(),
                forall|k: int|
                    0 <= k < data.len() ==> out@[k] == (if k < i * stride + j {
                        data@[(k % (stride as int)) * count + k / (stride as int)]
                    } else {
                        data@[k]
                    }),
            decreases stride - j,
        {
            proof {
                lemma_cell(j as int, i as int, count as int, stride as int);
                lemma_cell(i as int, j as int, stride as int, count as int);
                assert(stride * count == count * stride) by (nonlinear_arith);
            }
            out[i * stride + j] = data[j * count + i];
            j = j + 1;
        }
        proof {
            assert((i + 1) * stride == i * stride + stride) by (nonlinear_arith);
        }
        i = i + 1;
    }
    proof {
        assert(out@ =~= unshuffled(data@, stride as int));
    }
    out
}

} // verus!
