//! The distance kernel as the index sees it.
//!
//! The index never looks inside a vector: it asks a caller-supplied kernel for
//! a distance key between two vectors and compares keys. A key is any
//! order-preserving integer image of the distance (for a non-negative IEEE
//! float distance, its bit pattern). Smaller keys mean closer vectors.
use vstd::prelude::*;

verus! {

/// The kernel accepts every pair of vectors and its key depends only on the
/// contents of the two vectors.
pub open spec fn kernel_is_pure<T, F: Fn(&Vec<T>, &Vec<T>) -> u32>(f: &F) -> bool {
    &&& forall|a: &Vec<T>, b: &Vec<T>| #[trigger] f.requires((a, b))
    &&& forall|a1: &Vec<T>, b1: &Vec<T>, a2: &Vec<T>, b2: &Vec<T>, r1: u32, r2: u32|
        a1@ == a2@ && b1@ == b2@ && #[trigger] f.ensures((a1, b1), r1) && #[trigger] f.ensures(
            (a2, b2),
            r2,
        ) ==> r1 == r2
}

/// `r` is a key that the kernel reports for vectors with contents `a` and `b`.
pub open spec fn kernel_yields<T, F: Fn(&Vec<T>, &Vec<T>) -> u32>(
    f: &F,
    a: Seq<T>,
    b: Seq<T>,
    r: u32,
) -> bool {
    exists|x: &Vec<T>, y: &Vec<T>| x@ == a && y@ == b && #[trigger] f.ensures((x, y), r)
}

/// The key that a pure kernel reports for vectors with contents `a` and `b`.
pub open spec fn kernel_key<T, F: Fn(&Vec<T>, &Vec<T>) -> u32>(f: &F, a: Seq<T>, b: Seq<T>) -> u32 {
    choose|r: u32| #[trigger] kernel_yields(f, a, b, r)
}

/// Every key that a pure kernel returns is the one that `kernel_key` names.
pub proof fn lemma_kernel_key<T, F: Fn(&Vec<T>, &Vec<T>) -> u32>(
    f: &F,
    x: &Vec<T>,
    y: &Vec<T>,
    r: u32,
)
    requires
        kernel_is_pure(f),
        f.ensures((x, y), r),
    ensures
        r == kernel_key(f, x@, y@),
{
    assert(kernel_yields(f, x@, y@, r));
    let k = kernel_key(f, x@, y@);
    assert(kernel_yields(f, x@, y@, k));
}

/// Calls the kernel and names its result.
pub fn distance_key<T, F: Fn(&Vec<T>, &Vec<T>) -> u32>(f: &F, a: &Vec<T>, b: &Vec<T>) -> (r: u32)
    requires
        kernel_is_pure(f),
    ensures
        r == kernel_key(f, a@, b@),
{
    let r = f(a, b);
    proof {
        lemma_kernel_key(f, a, b, r);
    }
    r
}

} // verus!
