use vstd::prelude::*;

verus! {

/// The complementary base: `A`/`T` and `C`/`G` swap (either case); `-`,
/// `*` and `N`/`n` stay; any other byte becomes 0.
pub open spec fn complement(b: u8) -> u8 {
    if b == 65u8 {
        84u8
    } else if b == 84u8 {
        65u8
    } else if b == 67u8 {
        71u8
    } else if b == 71u8 {
        67u8
    } else if b == 97u8 {
        116u8
    } else if b == 116u8 {
        97u8
    } else if b == 99u8 {
        103u8
    } else if b == 103u8 {
        99u8
    } else if b == 45u8 || b == 42u8 || b == 78u8 || b == 110u8 {
        b
    } else {
        0u8
    }
}

fn complement_base(b: u8) -> (r: u8)
    ensures
        r == complement(b),
{
    if b == 65u8 {
        84u8
    } else if b == 84u8 {
        65u8
    } else if b == 67u8 {
        71u8
    } else if b == 71u8 {
        67u8
    } else if b == 97u8 {
        116u8
    } else if b == 116u8 {
        97u8
    } else if b == 99u8 {
        103u8
    } else if b == 103u8 {
        99u8
    } else if b == 45u8 || b == 42u8 || b == 78u8 || b == 110u8 {
        b
    } else {
        0u8
    }
}

/// The reverse complement of a DNA sequence: `ACGTAA` gives `TTACGT`.
pub fn reverse_complement(dna: &[u8]) -> (r: Vec<u8>)
    ensures
        r@.len() == dna@.len(),
        forall|i: int| 0 <= i < dna@.len() ==> #[trigger] r@[i] == complement(dna@[dna@.len() - 1 - i]),
{
    let n = dna.len();
    let mut out: Vec<u8> = Vec::new();
    let mut i: usize = 0;
    while i < n
        invariant
            n == dna@.len(),
            0 <= i <= n,
            out@.len() == i,
            forall|k: int| 0 <= k < i ==> #[trigger] out@[k] == complement(dna@[n - 1 - k]),
        decreases n - i,
    {
        out.push(complement_base(dna[n - 1 - i]));
        i = i + 1;
    }
    out
}

/// Matrix `m` of `dim0` rows and `dim1` columns, stored row by row, as its
/// transpose: `dim1` rows of `dim0` columns.
pub fn transpose<T: Copy>(matrix: &Vec<T>, dim0: usize, dim1: usize) -> (r: Vec<T>)
    requires
        matrix@.len() == dim0 * dim1,
    ensures
        r@.len() == dim0 * dim1,
        forall|i: int, j: int|
            0 <= i < dim0 && 0 <= j < dim1 ==> #[trigger] r@[j * dim0 + i] == matrix@[i * dim1 + j],
{
    let len = matrix.len();
    let mut out: Vec<T> = Vec::new();
    let mut j: usize = 0;
    while j < dim1
        invariant
            len == matrix@.len(),
            matrix@.len() == dim0 * dim1,
            0 <= j <= dim1,
            out@.len() == j * dim0,
            forall|a: int, b: int|
                0 <= a < dim0 && 0 <= b < j ==> #[trigger] out@[b * dim0 + a] == matrix@[a * dim1 + b],
        decreases dim1 - j,
    {
        let mut i: usize = 0;
        while i < dim0
            invariant
                len == matrix@.len(),
                matrix@.len() == dim0 * dim1,
                0 <= j < dim1,
                0 <= i <= dim0,
                out@.len() == j * dim0 + i,
                forall|a: int, b: int|
                    0 <= a < dim0 && 0 <= b < j ==> #[trigger] out@[b * dim0 + a] == matrix@[a * dim1 + b],
                forall|a: int| 0 <= a < i ==> #[trigger] out@[j * dim0 + a] == matrix@[a * dim1 + j],
            decreases dim0 - i,
        {
            proof {
                assert(i * dim1 + j < dim0 * dim1) by (nonlinear_arith)
                    requires
                        i < dim0,
                        j < dim1,
                ;
                assert(0 <= i * dim1) by (nonlinear_arith);
                assert(i * dim1 + j < len);
            }
            let idx = i * dim1 + j;
            let ghost before = out@;
            out.push(matrix[idx]);
            proof {
                assert forall|a: int, b: int|
                    0 <= a < dim0 && 0 <= b < j implies #[trigger] out@[b * dim0 + a] == matrix@[a * dim1 + b] by {
                    assert(b * dim0 + a < j * dim0) by (nonlinear_arith)
                        requires
                            0 <= a < dim0,
                            0 <= b < j,
                    ;
                    assert(out@[b * dim0 + a] == before[b * dim0 + a]);
                }
            }
            i = i + 1;
        }
        proof {
            assert forall|a: int, b: int|
                0 <= a < dim0 && 0 <= b < j + 1 implies #[trigger] out@[b * dim0 + a] == matrix@[a * dim1 + b] by {
                if b == j {
                } else {
                    assert(b * dim0 + a < j * dim0) by (nonlinear_arith)
                        requires
                            0 <= a < dim0,
                            0 <= b < j,
                    ;
                }
            }
            assert((j + 1) * dim0 == j * dim0 + dim0) by (nonlinear_arith);
        }
        j = j + 1;
    }
    proof {
        assert(dim1 * dim0 == dim0 * dim1) by (nonlinear_arith);
    }
    out
}

} // verus!
