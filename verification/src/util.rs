use vstd::prelude::*;

verus! {

/// The least of three integers.
pub open spec fn min3_spec(a: int, b: int, c: int) -> int {
    if a <= b && a <= c {
        a
    } else if b <= c {
        b
    } else {
        c
    }
}

/// `Ok(())` where the condition holds, the given error where it does not.
pub fn assert_error<E>(r: bool, e: E) -> (res: Result<(), E>)
    ensures
        r ==> res is Ok,
        !r ==> res == Err::<(), E>(e),
{
    if r {
        return Ok(());
    }
    Err(e)
}

/// The least of three numbers.
pub fn min3(a: usize, b: usize, c: usize) -> (r: usize)
    ensures
        r == min3_spec(a as int, b as int, c as int),
{
    let mut r: usize = a;
    if b < r {
        r = b;
    }
    if c < r {
        r = c;
    }
    return r;
}

} // verus!
