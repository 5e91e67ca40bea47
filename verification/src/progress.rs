//! The work item of the progress-reporting exercise, and the data of the
//! lazy-initialisation exercise.
use vstd::prelude::*;

verus! {

/// `0 + 1 + ... + (m - 1)`.
pub open spec fn sum_below(m: nat) -> nat
    decreases m,
{
    if m == 0 {
        0
    } else {
        sum_below((m - 1) as nat) + (m - 1) as nat
    }
}

pub proof fn lemma_sum_below_monotone(a: nat, b: nat)
    requires
        a <= b,
    ensures
        sum_below(a) <= sum_below(b),
    decreases b - a,
{
    if a < b {
        lemma_sum_below_monotone(a, (b - 1) as nat);
    }
}

/// The sum of the numbers below `m` is `m * (m - 1) / 2`.
pub proof fn lemma_sum_below_closed_form(m: nat)
    ensures
        2 * sum_below(m) == m as int * (m as int - 1),
    decreases m,
{
    if m > 0 {
        let p = (m - 1) as nat;
        lemma_sum_below_closed_form(p);
        let s = sum_below(p) as int;
        let mi = m as int;
        assert(2 * s == (mi - 1) * (mi - 2));
        assert(sum_below(m) == s + (mi - 1));
        assert(2 * (s + (mi - 1)) == mi * (mi - 1)) by (nonlinear_arith)
            requires
                2 * s == (mi - 1) * (mi - 2),
        ;
        assert(2 * sum_below(m) == mi * (mi - 1));
    } else {
        assert(m * (m - 1) == 0) by (nonlinear_arith)
            requires
                m == 0,
        ;
    }
}

/// Busy work for item `i`: the sum of all numbers below `i * 1000000`.
pub fn process_item(i: usize) -> (sum: usize)
    requires
        i * 1000000 <= usize::MAX,
        sum_below((i * 1000000) as nat) <= usize::MAX,
    ensures
        sum == sum_below((i * 1000000) as nat),
{
    let i = i * 1000000;
    let mut sum: usize = 0;
    let mut n: usize = 0;
    while n < i
        invariant
            n <= i,
            sum == sum_below(n as nat),
            sum_below(i as nat) <= usize::MAX,
        decreases i - n,
    {
        proof {
            lemma_sum_below_monotone((n + 1) as nat, i as nat);
        }
        sum += n;
        n += 1;
    }
    sum
}

/// The data that the lazy-initialisation exercise sets up once.
#[derive(Debug)]
pub struct Data {
    pub data1: u64,
    pub data2: u32,
    pub data3: String,
}

/// The one value of `Data` the exercise uses.
pub fn generate_data() -> (d: Data)
    ensures
        d.data1 == 23,
        d.data2 == 76,
        d.data3@ == "stuff"@,
{
    let s = "stuff".to_string();
    proof {
        broadcast use vstd::string::group_string_axioms;
    }
    Data { data1: 23, data2: 76, data3: s }
}

/// The update that `futex_wake_op` applies to its atomic word: one more.
pub fn stuff(n: u32) -> (r: Option<u32>)
    requires
        n < u32::MAX,
    ensures
        r == Some((n + 1) as u32),
{
    Some(n + 1)
}

} // verus!
