//! Locating a named column among the header fields of a tabular source.

use vstd::prelude::*;

verus! {

/// Whether two byte strings hold the same bytes.
fn bytes_eq(a: &Vec<u8>, b: &Vec<u8>) -> (r: bool)
    ensures
        r == (a@ == b@),
{
    if a.len() != b.len() {
        proof {
            assert(a@ != b@);
        }
        return false;
    }
    let n: usize = a.len();
    let mut i: usize = 0;
    while i < n
        invariant
            i <= n,
            n == a@.len(),
            n == b@.len(),
            forall|j: int| 0 <= j < i ==> a@[j] == b@[j],
        decreases n - i,
    {
        if a[i] != b[i] {
            proof {
                assert(a@[i as int] != b@[i as int]);
            }
            return false;
        }
        i = i + 1;
    }
    proof {
        assert(a@ =~= b@);
    }
    true
}

/// Finds the first header field that equals the wanted column name, if any.
pub fn find_column(headers: &Vec<Vec<u8>>, column: &Vec<u8>) -> (r: Option<usize>)
    ensures
        match r {
            Some(i) => 0 <= i < headers@.len() && headers@[i as int]@ == column@ && forall|j: int|
                0 <= j < i ==> headers@[j]@ != column@,
            None => forall|j: int| 0 <= j < headers@.len() ==> headers@[j]@ != column@,
        },
{
    let n: usize = headers.len();
    let mut i: usize = 0;
    while i < n
        invariant
            i <= n,
            n == headers@.len(),
            forall|j: int| 0 <= j < i ==> headers@[j]@ != column@,
        decreases n - i,
    {
        if bytes_eq(&headers[i], column) {
            return Some(i);
        }
        i = i + 1;
    }
    None
}

} // verus!
