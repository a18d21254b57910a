//! The inputs that sorting by insertion is measured on: random values, and
//! values that are sorted already, upwards or downwards.

use rand::rngs::ThreadRng;
use rand::Rng;
use vstd::prelude::*;

verus! {

/// The random number generator of the current thread, as `rand` hands it
/// out. Nothing inside it is visible to the verifier.
#[verifier::external_type_specification]
#[verifier::external_body]
pub struct ExThreadRng(ThreadRng);

/// `rand::thread_rng`: hands out the generator of the current thread, which
/// its first call on a thread seeds from the operating system. It panics if
/// that seeding fails, or if the handler that watches for forks cannot be
/// registered. Nothing is claimed of the generator.
pub assume_specification[ rand::thread_rng ]() -> (rng: ThreadRng)
;

/// `rand::Rng::gen` for `usize`: the next value of the generator. Any value
/// may come back, so nothing is claimed of it. The generator seeds itself
/// anew from the operating system after every 64 KiB it has given out, and
/// after a fork; the call panics if that fails.
#[verifier::external_body]
fn next_value(rng: &mut ThreadRng) -> (value: usize) {
    rng.gen()
}

/// 9999 values drawn from the thread's random number generator. Like the
/// generator, it panics where the operating system gives no entropy.
pub fn init() -> (values: Vec<usize>)
    ensures
        values.len() == 9999,
{
    let mut rng = rand::thread_rng();
    let mut values: Vec<usize> = Vec::new();
    for k in 1..10000usize
        invariant
            values.len() == k - 1,
    {
        values.push(next_value(&mut rng));
    }
    values
}

/// The values 1 to 9999 in increasing order.
pub fn init_sorted() -> (values: Vec<usize>)
    ensures
        values@ == Seq::new(9999, |i: int| (i + 1) as usize),
{
    let mut values: Vec<usize> = Vec::new();
    for k in 1..10000usize
        invariant
            values@ == Seq::new((k - 1) as nat, |i: int| (i + 1) as usize),
    {
        values.push(k);
    }
    values
}

/// The values 99999 down to 90001 in decreasing order.
pub fn init_reverse_sorted() -> (values: Vec<usize>)
    ensures
        values@ == Seq::new(9999, |i: int| (99999 - i) as usize),
{
    let mut values: Vec<usize> = Vec::new();
    for k in 1..10000usize
        invariant
            values@ == Seq::new((k - 1) as nat, |i: int| (99999 - i) as usize),
    {
        values.push(100000 - k);
    }
    values
}

} // verus!
