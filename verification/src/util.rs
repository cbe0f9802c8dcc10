use vstd::prelude::*;
use vstd::string::StrSliceExecFns;
use rand::Rng;

verus! {

/// compares two strings character by character
pub fn str_equal(a: &str, b: &str) -> (equal: bool)
    ensures
        equal == (a@ == b@),
{
    let n = a.unicode_len();
    if n != b.unicode_len() {
        return false;
    }
    let mut i: usize = 0;
    while i < n
        invariant
            n == a@.len(),
            n == b@.len(),
            i <= n,
            forall|j: int| 0 <= j < i ==> a@[j] == b@[j],
        decreases n - i,
    {
        if a.get_char(i) != b.get_char(i) {
            return false;
        }
        i = i + 1;
    }
    assert(a@ =~= b@);
    true
}

/// a random number below `n`, drawn from the thread's generator with rand's
/// `thread_rng().gen_range(0..n)`, which yields a value of the half-open range
/// it is given and panics on an empty one
#[verifier::external_body]
pub fn random_below(n: usize) -> (r: usize)
    requires
        n > 0,
    ensures
        r < n,
{
    rand::thread_rng().gen_range(0..n)
}

/// `true` with probability `numerator / denominator`, drawn from the thread's
/// generator with rand's `thread_rng().gen_ratio`, which panics when the
/// denominator is 0 or below the numerator; which way a draw falls is left
/// unsaid, as it rests on chance
#[verifier::external_body]
pub fn random_ratio(numerator: u32, denominator: u32) -> (hit: bool)
    requires
        0 < denominator,
        numerator <= denominator,
{
    rand::thread_rng().gen_ratio(numerator, denominator)
}

} // verus!
