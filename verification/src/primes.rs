//! Trial-division primality and the share of a range that one worker of a
//! parallel prime search examines.
use vstd::arithmetic::div_mod::{
    lemma_fundamental_div_mod,
    lemma_fundamental_div_mod_converse,
    lemma_mod_multiples_basic,
    lemma_mod_sub_multiples_vanish,
    lemma_small_mod,
};
use vstd::prelude::*;

verus! {

/// `n` is a prime number.
pub open spec fn spec_is_prime(n: int) -> bool {
    n >= 2 && forall|d: int| 2 <= d < n ==> #[trigger] (n % d) != 0
}

/// The square of the largest odd trial divisor whose square fits in a `u32`
/// (65535 * 65535).
pub open spec fn last_safe_square() -> int {
    4294836225
}

/// Trial division on `n` squares the divisor 65537 in 32-bit arithmetic,
/// which overflows: this happens exactly for the primes from 65535 * 65535 on.
pub open spec fn prime_check_overflows(n: int) -> bool {
    n >= last_safe_square() && spec_is_prime(n)
}

/// A divisor-free `n` below `i * i` with no divisor below `i` is prime.
proof fn lemma_no_small_divisor_prime(n: int, i: int)
    requires
        n >= 2,
        i >= 2,
        n < i * i,
        forall|d: int| 2 <= d < i ==> #[trigger] (n % d) != 0,
    ensures
        spec_is_prime(n),
{
    assert forall|d: int| 2 <= d < n implies #[trigger] (n % d) != 0 by {
        if d >= i && n % d == 0 {
            let q = n / d;
            assert(n == d * q) by (nonlinear_arith)
                requires
                    n % d == 0,
                    d > 0,
                    q == n / d,
            ;
            assert(q >= 2 && q < i) by (nonlinear_arith)
                requires
                    n == d * q,
                    d >= i,
                    i >= 2,
                    d < n,
                    n < i * i,
            ;
            assert(n % q == 0) by (nonlinear_arith)
                requires
                    n == d * q,
                    q >= 2,
            ;
            assert((n % q) != 0);
        }
    }
}

/// An odd number has no even divisor.
proof fn lemma_odd_no_even_divisor(n: int, d: int)
    requires
        n % 2 == 1,
        d >= 2,
        d % 2 == 0,
    ensures
        n % d != 0,
{
    if n % d == 0 {
        let q = n / d;
        let h = d / 2;
        lemma_fundamental_div_mod(n, d);
        lemma_fundamental_div_mod(d, 2);
        assert(n == (h * q) * 2) by (nonlinear_arith)
            requires
                n == d * q,
                d == 2 * h,
        ;
        lemma_mod_multiples_basic(h * q, 2);
    }
}

/// Whether `num` is prime, by trial division with odd divisors; `None` where
/// 32-bit trial division overflows (see `prime_check_overflows`).
pub fn is_prime_checked(num: u32) -> (r: Option<bool>)
    ensures
        r == (if prime_check_overflows(num as int) {
            None::<bool>
        } else {
            Some(spec_is_prime(num as int))
        }),
{
    if num == 2 {
        assert(spec_is_prime(2));
        return Some(true);
    }
    if num % 2 == 0 || num <= 1 {
        assert(!spec_is_prime(num as int)) by {
            if num >= 2 {
                assert((num as int) % 2 == 0);
            }
        }
        return Some(false);
    }
    let mut i: u64 = 3;
    loop
        invariant
            3 <= i <= 65537,
            i % 2 == 1,
            num % 2 == 1,
            num >= 3,
            i > 3 ==> (i - 2) * (i - 2) <= num,
            forall|d: int| 2 <= d < i ==> #[trigger] ((num as int) % d) != 0,
        decreases 65537 - i,
    {
        assert(i * i <= 65537 * 65537) by (nonlinear_arith)
            requires
                i <= 65537,
        ;
        let sq = i * i;
        if sq > 4294967295 {
            assert(i >= 65537) by (nonlinear_arith)
                requires
                    i * i > 4294967295,
                    i % 2 == 1,
                    i <= 65537,
            ;
            assert(i == 65537);
            assert((i - 2) * (i - 2) == 4294836225) by (nonlinear_arith)
                requires
                    i == 65537,
            ;
            proof {
                lemma_no_small_divisor_prime(num as int, i as int);
            }
            return None;
        }
        if sq > num as u64 {
            proof {
                lemma_no_small_divisor_prime(num as int, i as int);
            }
            assert(i * i <= 4294836225) by (nonlinear_arith)
                requires
                    i * i <= 4294967295,
                    i % 2 == 1,
                    i >= 3,
            ;
            return Some(true);
        }
        if num as u64 % i == 0 {
            assert(i < num) by (nonlinear_arith)
                requires
                    i * i <= num,
                    i >= 3,
            ;
            assert(((num as int) % (i as int)) == 0);
            return Some(false);
        }
        proof {
            assert forall|d: int| 2 <= d < i + 2 implies #[trigger] ((num as int) % d) != 0 by {
                if d == i + 1 {
                    lemma_odd_no_even_divisor(num as int, d);
                }
            }
        }
        assert(i < 65537) by (nonlinear_arith)
            requires
                i * i <= 4294967295,
        ;
        i = i + 2;
    }
}

/// Whether `num` is prime. Trial division in 32-bit arithmetic would
/// overflow on the primes from 65535 * 65535 on; those are not admitted.
pub fn is_prime(num: u32) -> (r: bool)
    requires
        !prime_check_overflows(num as int),
    ensures
        r == spec_is_prime(num as int),
{
    match is_prime_checked(num) {
        Some(b) => b,
        None => {
            assert(false);
            false
        },
    }
}

/// The primes among `first`, `first + step`, `first + 2 * step`, ... below
/// `stop`, in increasing order.
pub open spec fn stride_primes(first: int, stop: int, step: int) -> Seq<int>
    decreases (if first < stop {
        stop - first
    } else {
        0
    }),
{
    if step <= 0 || first >= stop {
        seq![]
    } else if spec_is_prime(first) {
        seq![first] + stride_primes(first + step, stop, step)
    } else {
        stride_primes(first + step, stop, step)
    }
}

/// Some number among `first`, `first + step`, ... below `stop` makes the
/// 32-bit primality check overflow.
pub open spec fn stride_overflows(first: int, stop: int, step: int) -> bool
    decreases (if first < stop {
        stop - first
    } else {
        0
    }),
{
    if step <= 0 || first >= stop {
        false
    } else {
        prime_check_overflows(first) || stride_overflows(first + step, stop, step)
    }
}

/// The primes that worker `offset` of `step` workers finds in
/// `start..stop`: it checks `start + offset`, then every `step`-th number
/// after it. `None` where the search aborts: `start + offset` overflows a
/// `u32`, or a checked number makes the primality check overflow.
pub fn primes_in_stride(start: u32, stop: u32, offset: u32, step: u32) -> (r: Option<Vec<u32>>)
    requires
        step > 0,
    ensures
        r is None <==> (start + offset > u32::MAX || stride_overflows(
            start + offset,
            stop as int,
            step as int,
        )),
        r matches Some(v) ==> v@.map_values(|x: u32| x as int) == stride_primes(
            start + offset,
            stop as int,
            step as int,
        ),
{
    if offset > u32::MAX - start {
        return None;
    }
    let first = start + offset;
    let mut found: Vec<u32> = Vec::new();
    if first >= stop {
        assert(found@.map_values(|x: u32| x as int) == Seq::<int>::empty());
        return Some(found);
    }
    let mut j: u64 = first as u64;
    while j < stop as u64
        invariant
            step > 0,
            first == start + offset,
            first <= j,
            j < stop + step,
            j < stop ==> j <= u32::MAX,
            stride_overflows(first as int, stop as int, step as int) == stride_overflows(
                j as int,
                stop as int,
                step as int,
            ),
            stride_primes(first as int, stop as int, step as int) == found@.map_values(
                |x: u32| x as int,
            ) + stride_primes(j as int, stop as int, step as int),
        decreases stop + step - j,
    {
        let n = j as u32;
        match is_prime_checked(n) {
            None => {
                assert(stride_overflows(j as int, stop as int, step as int));
                return None;
            },
            Some(p) => {
                let ghost before = found@;
                if p {
                    found.push(n);
                    assert(found@.map_values(|x: u32| x as int) == before.map_values(
                        |x: u32| x as int,
                    ) + seq![j as int]);
                }
            },
        }
        j = j + step as u64;
    }
    assert(stride_primes(j as int, stop as int, step as int) == Seq::<int>::empty());
    Some(found)
}

/// A number is among the primes of a stride exactly when it is a prime in
/// the stride.
pub proof fn lemma_stride_primes_members(first: int, stop: int, step: int, x: int)
    requires
        step > 0,
    ensures
        stride_primes(first, stop, step).contains(x) <==> (first <= x < stop && (x - first) % step
            == 0 && spec_is_prime(x)),
    decreases stop - first,
{
    if first >= stop {
    } else {
        if first + step < stop {
            lemma_stride_primes_members(first + step, stop, step, x);
        }
        let rest = stride_primes(first + step, stop, step);
        if spec_is_prime(first) {
            assert(stride_primes(first, stop, step) == seq![first] + rest);
            assert((seq![first] + rest).contains(x) <==> (x == first || rest.contains(x))) by {
                if rest.contains(x) {
                    let k = choose|k: int| 0 <= k < rest.len() && rest[k] == x;
                    assert((seq![first] + rest)[k + 1] == x);
                }
                if (seq![first] + rest).contains(x) && x != first {
                    let k = choose|k: int|
                        0 <= k < (seq![first] + rest).len() && (seq![first] + rest)[k] == x;
                    assert(rest[k - 1] == x);
                }
                if x == first {
                    assert((seq![first] + rest)[0] == x);
                }
            }
        }
        lemma_mod_sub_multiples_vanish(x - first, step);
        assert(-step + (x - first) == x - (first + step));
        if first < x < first + step {
            lemma_small_mod((x - first) as nat, step as nat);
        }
        if x == first {
            lemma_small_mod(0, step as nat);
        }
    }
}

/// Splitting a range among `workers` workers, worker `i` taking
/// `start + i`, `start + i + workers`, ..., finds every prime of the range
/// exactly in the list of worker `(x - start) % workers` and in no other.
pub proof fn lemma_workers_partition_primes(start: int, stop: int, workers: int, x: int)
    requires
        workers >= 1,
        start <= x < stop,
    ensures
        spec_is_prime(x) <==> stride_primes(start + (x - start) % workers, stop, workers).contains(
            x,
        ),
        forall|i: int|
            0 <= i < workers && i != (x - start) % workers ==> !#[trigger] stride_primes(
                start + i,
                stop,
                workers,
            ).contains(x),
{
    let own = (x - start) % workers;
    lemma_stride_primes_members(start + own, stop, workers, x);
    lemma_fundamental_div_mod(x - start, workers);
    let q = (x - start) / workers;
    assert(x - (start + own) == q * workers) by (nonlinear_arith)
        requires
            x - start == workers * q + own,
    ;
    lemma_mod_multiples_basic(q, workers);
    assert forall|i: int| 0 <= i < workers && i != own implies !#[trigger] stride_primes(
        start + i,
        stop,
        workers,
    ).contains(x) by {
        lemma_stride_primes_members(start + i, stop, workers, x);
        if start + i <= x && (x - (start + i)) % workers == 0 {
            lemma_fundamental_div_mod(x - (start + i), workers);
            let k = (x - (start + i)) / workers;
            assert(x - start == k * workers + i) by (nonlinear_arith)
                requires
                    x - (start + i) == workers * k + 0,
            ;
            lemma_fundamental_div_mod_converse(x - start, workers, k, i);
        }
    }
}

} // verus!
