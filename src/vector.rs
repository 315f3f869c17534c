use vstd::prelude::*;

use crate::error::MatrixError;

verus! {

/// Sum of `u[i] * v[i]` over the first `n` positions.
pub open spec fn dot_prefix(u: Seq<i64>, v: Seq<i64>, n: nat) -> int
    decreases n,
{
    if n == 0 {
        0
    } else {
        dot_prefix(u, v, (n - 1) as nat) + u[n - 1] as int * v[n - 1] as int
    }
}

/// The mathematical dot product of two sequences of equal length.
pub open spec fn dot(u: Seq<i64>, v: Seq<i64>) -> int {
    dot_prefix(u, v, u.len())
}

/// Whether `x` is representable as an `i64`.
pub open spec fn in_i64(x: int) -> bool {
    i64::MIN <= x <= i64::MAX
}

/// Computing the dot product left to right never leaves the range of `i64`:
/// every product and every running sum fits.
pub open spec fn dot_fits(u: Seq<i64>, v: Seq<i64>) -> bool {
    forall|k: int|
        0 < k <= u.len() ==> #[trigger] in_i64(dot_prefix(u, v, k as nat)) && in_i64(
            u[k - 1] as int * v[k - 1] as int,
        )
}

/// An owned, immutable sequence of integers.
pub struct Vector {
    data: Vec<i64>,
}

impl View for Vector {
    type V = Seq<i64>;

    closed spec fn view(&self) -> Seq<i64> {
        self.data@
    }
}

impl Vector {
    /// Wraps `data` without changing it.
    pub fn new(data: Vec<i64>) -> (r: Self)
        ensures
            r@ == data@,
    {
        Vector { data }
    }

    pub fn len(&self) -> (r: usize)
        ensures
            r == self@.len(),
    {
        self.data.len()
    }

    /// The element at position `i`.
    pub fn get(&self, i: usize) -> (r: i64)
        requires
            i < self@.len(),
        ensures
            r == self@[i as int],
    {
        self.data[i]
    }

    /// Whether the dot product with `other` can be computed in `i64`
    /// without overflow.
    pub fn dot_in_range(&self, other: &Vector) -> (r: bool)
        requires
            self@.len() == other@.len(),
        ensures
            r == dot_fits(self@, other@),
    {
        let n = self.data.len();
        let mut sum: i64 = 0;
        let mut i: usize = 0;
        while i < n
            invariant
                n == self@.len(),
                n == other@.len(),
                i <= n,
                sum == dot_prefix(self@, other@, i as nat),
                forall|k: int|
                    0 < k <= i ==> #[trigger] in_i64(dot_prefix(self@, other@, k as nat)) && in_i64(
                        self@[k - 1] as int * other@[k - 1] as int,
                    ),
            decreases n - i,
        {
            let p = match self.data[i].checked_mul(other.data[i]) {
                Some(p) => p,
                None => {
                    assert(!in_i64(self@[i as int] as int * other@[i as int] as int));
                    proof {
                        if dot_fits(self@, other@) {
                            let k: int = i + 1;
                            assert(in_i64(dot_prefix(self@, other@, k as nat)));
                        }
                    }
                    return false;
                },
            };
            sum = match sum.checked_add(p) {
                Some(s) => s,
                None => {
                    assert(!in_i64(dot_prefix(self@, other@, (i + 1) as nat)));
                    return false;
                },
            };
            i = i + 1;
        }
        true
    }

    /// `Σ self[i] * other[i]`, starting from zero; an error when the lengths
    /// differ. Two empty vectors give zero.
    pub fn dot_product(&self, other: &Vector) -> (r: Result<i64, MatrixError>)
        requires
            self@.len() == other@.len() ==> dot_fits(self@, other@),
        ensures
            r is Err <==> self@.len() != other@.len(),
            r matches Err(e) ==> e == MatrixError::DimensionMismatch,
            r matches Ok(x) ==> x == dot(self@, other@),
    {
        if self.data.len() != other.data.len() {
            return Err(MatrixError::DimensionMismatch);
        }
        let n = self.data.len();
        let mut sum: i64 = 0;
        let mut i: usize = 0;
        while i < n
            invariant
                n == self@.len(),
                n == other@.len(),
                i <= n,
                dot_fits(self@, other@),
                sum == dot_prefix(self@, other@, i as nat),
            decreases n - i,
        {
            assert(in_i64(dot_prefix(self@, other@, (i + 1) as nat)));
            let p = self.data[i] * other.data[i];
            sum = sum + p;
            i = i + 1;
        }
        Ok(sum)
    }
}

} // verus!
