//! Powers of two and rounding.

use vstd::arithmetic::div_mod::*;
use vstd::arithmetic::power::*;
use vstd::arithmetic::power2::*;
use vstd::bits::*;
use vstd::prelude::*;

verus! {

/// Whether `n` is a power of two.
pub open spec fn power_of_two(n: int) -> bool {
    exists|k: nat| n == #[trigger] pow2(k)
}

/// Whether `p` is the smallest power of two that is not below `n`.
pub open spec fn rounds_up_to(n: int, p: int) -> bool {
    &&& power_of_two(p)
    &&& n <= p
    &&& forall|q: int| power_of_two(q) && n <= q ==> p <= q
}

/// The smallest power of two that is not below `n`.
pub open spec fn next_power(n: int) -> int {
    choose|p: int| rounds_up_to(n, p)
}

/// Only one power of two is the smallest one that is not below `n`.
pub proof fn lemma_next_power_unique(n: int, p: int)
    requires
        rounds_up_to(n, p),
    ensures
        next_power(n) == p,
{
    assert(rounds_up_to(n, next_power(n)));
}

/// Some power of two is the smallest one that is not below `n`, if one that is
/// not below `n` is known.
proof fn lemma_rounds_up(n: int, k: nat)
    requires
        n <= pow2(k),
    ensures
        exists|p: int| rounds_up_to(n, p),
    decreases k,
{
    if k > 0 && n <= pow2((k - 1) as nat) {
        lemma_rounds_up(n, (k - 1) as nat);
    } else {
        let p = pow2(k) as int;
        assert forall|q: int| power_of_two(q) && n <= q implies p <= q by {
            let j = choose|j: nat| q == #[trigger] pow2(j);
            lemma2_to64();
            if j < k {
                if j + 1 < k {
                    lemma_pow2_strictly_increases(j, (k - 1) as nat);
                }
                assert(false);
            } else if k < j {
                lemma_pow2_strictly_increases(k, j);
            }
        }
        assert(rounds_up_to(n, p));
    }
}

/// The next power of two is a power of two, is not below the number, and is the
/// smallest one of this kind; so it is less than twice a number from one on.
pub proof fn next_power_is_the_least(n: int)
    ensures
        power_of_two(next_power(n)),
        n <= next_power(n),
        forall|q: int| power_of_two(q) && n <= q ==> next_power(n) <= q,
        n >= 1 ==> next_power(n) < 2 * n,
{
    let k = if n <= 0 {
        0
    } else {
        n as nat
    };
    lemma_exceeds(k);
    lemma_rounds_up(n, k);
    let p = next_power(n);
    assert(rounds_up_to(n, p));
    if n >= 1 && p >= 2 * n {
        let j = choose|j: nat| p == #[trigger] pow2(j);
        lemma2_to64();
        if j > 0 {
            lemma_pow2_unfold(j);
            assert(power_of_two(pow2((j - 1) as nat) as int));
        }
    }
}

/// The power of a number is above the number.
proof fn lemma_exceeds(k: nat)
    ensures
        k <= pow2(k),
    decreases k,
{
    lemma2_to64();
    if k > 0 {
        lemma_exceeds((k - 1) as nat);
        lemma_pow2_unfold(k);
        lemma_pow2_pos((k - 1) as nat);
    }
}

/// The standard library's notion of a power of two is this one.
pub proof fn lemma_library_power(n: int)
    requires
        is_pow2(n),
    ensures
        power_of_two(n),
{
    is_pow2_equiv(n);
    let i = choose|i: nat| pow(2, i) == n;
    lemma_pow2(i);
    assert(n == pow2(i));
}

/// The number of words of the machine's word size.
pub open spec fn word_count() -> int {
    usize::MAX + 1
}

/// The largest power of two that a word holds.
pub open spec fn largest_power() -> int {
    word_count() / 2
}

/// `x` reduced to a machine word.
pub open spec fn wrap(x: int) -> usize {
    (x % word_count()) as usize
}

/// What reducing to a word does to a number within one range of the words.
pub proof fn lemma_wrap(x: int)
    ensures
        0 <= x < word_count() ==> wrap(x) == x,
        word_count() <= x < 2 * word_count() ==> wrap(x) == x - word_count(),
        -word_count() <= x < 0 ==> wrap(x) == x + word_count(),
        wrap(x) == x % word_count(),
{
    let m = word_count();
    lemma_mod_bound(x, m);
    if 0 <= x < m {
        lemma_small_mod(x as nat, m as nat);
    } else if m <= x < 2 * m {
        lemma_mod_sub_multiples_vanish(x, m);
        lemma_small_mod((x - m) as nat, m as nat);
    } else if -m <= x < 0 {
        lemma_mod_add_multiples_vanish(x, m);
        lemma_small_mod((x + m) as nat, m as nat);
    }
}

/// Wrapping before or after an addition makes no difference.
pub proof fn lemma_wrap_add(x: int, y: int)
    ensures
        wrap(wrap(x) + y) == wrap(x + y),
{
    let m = word_count();
    lemma_wrap(x);
    lemma_add_mod_noop(x, y, m);
    lemma_add_mod_noop(x % m, y, m);
    lemma_mod_twice(x, m);
}

/// A smaller power of two goes at least twice into a larger one.
pub proof fn lemma_next_power(a: int, b: int)
    requires
        power_of_two(a),
        power_of_two(b),
        a < b,
    ensures
        2 * a <= b,
{
    let i = choose|k: nat| a == #[trigger] pow2(k);
    let j = choose|k: nat| b == #[trigger] pow2(k);
    if j <= i {
        if j < i {
            lemma_pow2_strictly_increases(j, i);
        }
    }
    lemma_pow2_unfold(i + 1);
    if i + 1 < j {
        lemma_pow2_strictly_increases(i + 1, j);
    }
}

/// Twice a power of two is a power of two.
pub proof fn lemma_doubled_power(a: int)
    requires
        power_of_two(a),
    ensures
        power_of_two(2 * a),
        a > 0,
{
    let i = choose|k: nat| a == #[trigger] pow2(k);
    lemma_pow2_unfold(i + 1);
    lemma_pow2_pos(i);
    assert(2 * a == pow2(i + 1));
}

/// One and two are powers of two, and no power of two is smaller than one.
pub proof fn lemma_small_powers()
    ensures
        power_of_two(1),
        power_of_two(2),
        forall|q: int| power_of_two(q) ==> 1 <= q,
{
    lemma2_to64();
    assert(1 == pow2(0));
    assert(2 == pow2(1));
    assert forall|q: int| power_of_two(q) implies 1 <= q by {
        let k = choose|k: nat| q == #[trigger] pow2(k);
        lemma_pow2_pos(k);
    }
}

/// The number of words is a power of two, and so is half of it.
pub proof fn lemma_word_count()
    ensures
        power_of_two(word_count()),
        power_of_two(largest_power()),
        word_count() == 2 * largest_power(),
        largest_power() >= 0x8000_0000,
        isize::MAX == largest_power() - 1,
        word_count() == pow2(usize::BITS as nat),
{
    lemma2_to64();
    lemma_pow2_unfold(64);
    lemma_pow2_unfold(32);
    assert(usize::BITS == 32 || usize::BITS == 64);
    assert(word_count() == pow2(usize::BITS as nat));
    assert(largest_power() == pow2((usize::BITS - 1) as nat));
}

/// A power of two that fits into a word divides the number of words.
pub proof fn lemma_power_divides_word_count(n: int)
    requires
        power_of_two(n),
        n <= word_count(),
    ensures
        n > 0,
        word_count() % n == 0,
        exists|q: int| word_count() == #[trigger] (q * n),
{
    lemma_word_count();
    let i = choose|k: nat| n == #[trigger] pow2(k);
    let b = usize::BITS as nat;
    if i > b {
        lemma_pow2_strictly_increases(b, i);
    }
    let d = (b - i) as nat;
    lemma_pow2_adds(d, i);
    lemma_pow2_pos(i);
    assert(word_count() == pow2(d) * n);
    assert((pow2(d) * n) % n == 0) by {
        lemma_mod_multiples_basic(pow2(d) as int, n);
    }
}

/// A smaller power of two divides a larger one.
pub proof fn lemma_power_divides(a: int, b: int)
    requires
        power_of_two(a),
        power_of_two(b),
        a <= b,
    ensures
        a > 0,
        b % a == 0,
{
    let i = choose|k: nat| a == #[trigger] pow2(k);
    let j = choose|k: nat| b == #[trigger] pow2(k);
    if i > j {
        lemma_pow2_strictly_increases(j, i);
    }
    let d = (j - i) as nat;
    lemma_pow2_adds(d, i);
    lemma_pow2_pos(i);
    assert(b == pow2(d) * a);
    lemma_mod_multiples_basic(pow2(d) as int, a);
}

/// A multiple less or more of `d` is a multiple of `d` again.
pub proof fn lemma_multiples(m: int, d: int)
    requires
        d > 0,
        m % d == 0,
    ensures
        (m - d) % d == 0,
        (m + d) % d == 0,
{
    lemma_mod_sub_multiples_vanish(m, d);
    lemma_mod_add_multiples_vanish(m, d);
}

/// Two different multiples of `d` are at least `d` apart.
pub proof fn lemma_multiples_apart(a: int, b: int, d: int)
    requires
        d > 0,
        a % d == 0,
        b % d == 0,
        a < b,
    ensures
        a + d <= b,
{
    lemma_fundamental_div_mod(a, d);
    lemma_fundamental_div_mod(b, d);
    let x = a / d;
    let y = b / d;
    assert(x < y) by (nonlinear_arith)
        requires
            d * x < d * y,
            d > 0,
    ;
    assert(d * x + d <= d * y) by (nonlinear_arith)
        requires
            x + 1 <= y,
            d > 0,
    ;
}

/// Rounding up adds what the remainder leaves open.
pub proof fn lemma_padding(n: int, d: int)
    requires
        d > 0,
    ensures
        round_up(n, d) == if n % d == 0 {
            n
        } else {
            n + d - n % d
        },
{
    lemma_round_up(n, d);
    lemma_fundamental_div_mod(n, d);
    let m = if n % d == 0 {
        n
    } else {
        n + d - n % d
    };
    let e = if n % d == 0 {
        n / d
    } else {
        n / d + 1
    };
    assert(d * (n / d + 1) == d * (n / d) + d) by (nonlinear_arith);
    assert(m == e * d) by {
        assert(e * d == d * e) by (nonlinear_arith);
    }
    lemma_mod_multiples_basic(e, d);
    lemma_round_up_least(n, d, m);
    if round_up(n, d) < m {
        lemma_multiples_apart(round_up(n, d), m, d);
    }
}

/// Reducing modulo the number of words does not change the remainder by a
/// power of two that fits into a word.
pub proof fn lemma_wrapped_remainder(x: int, n: int)
    requires
        power_of_two(n),
        n <= word_count(),
    ensures
        (x % word_count()) % n == x % n,
{
    lemma_power_divides_word_count(n);
    let q = choose|q: int| word_count() == #[trigger] (q * n);
    assert(q > 0) by (nonlinear_arith)
        requires
            q * n == word_count(),
            word_count() > 0,
            n > 0,
    ;
    assert(q * n == n * q) by (nonlinear_arith);
    lemma_mod_mod(x, n, q);
}

/// Masking with one less than a power of two is the remainder by it.
pub proof fn lemma_mask_is_remainder(x: usize, n: usize)
    requires
        power_of_two(n as int),
    ensures
        x & ((n - 1) as usize) == x as int % n as int,
{
    lemma_word_count();
    let i = choose|k: nat| n == #[trigger] pow2(k);
    if i >= usize::BITS {
        if i > usize::BITS as nat {
            lemma_pow2_strictly_increases(usize::BITS as nat, i);
        }
    }
    lemma_usize_low_bits_mask_is_mod(x, i);
    lemma_pow2_pos(i);
    assert(low_bits_mask(i) as usize == (n - 1) as usize);
    assert(pow2(i) as usize == n);
}

/// Whether `n` is a power of two.
pub fn is_power_of_two(n: u64) -> (b: bool)
    ensures
        b == power_of_two(n as int),
{
    proof {
        lemma_word_count();
        lemma_small_powers();
    }
    let mut p: u64 = 1;
    while p < n
        invariant
            power_of_two(p as int),
            power_of_two(n as int) && n > 0 ==> p <= n,
        decreases n - p,
    {
        proof {
            lemma_doubled_power(p as int);
            if power_of_two(n as int) {
                lemma_next_power(p as int, n as int);
            }
        }
        if p > n / 2 {
            return false;
        }
        p = p * 2;
    }
    proof {
        lemma_small_powers();
    }
    p == n
}

/// The smallest power of two that is not below `n`.
pub fn next_power_of_two(n: usize) -> (p: usize)
    requires
        n <= largest_power(),
    ensures
        rounds_up_to(n as int, p as int),
        power_of_two(p as int),
        n <= p,
        n >= 1 ==> p < 2 * n,
{
    proof {
        lemma_word_count();
        lemma_small_powers();
    }
    let mut p: usize = 1;
    while p < n
        invariant
            n <= largest_power(),
            power_of_two(p as int),
            p <= largest_power(),
            forall|q: int| power_of_two(q) && n <= q ==> p <= q,
        decreases word_count() - p,
    {
        proof {
            lemma_word_count();
            lemma_doubled_power(p as int);
            lemma_next_power(p as int, largest_power());
            assert forall|q: int| power_of_two(q) && n <= q implies 2 * p <= q by {
                lemma_next_power(p as int, q);
            }
        }
        p = p * 2;
    }
    proof {
        lemma_next_power_unique(n as int, p as int);
        next_power_is_the_least(n as int);
    }
    p
}

/// How many groups of `d` it takes to hold `n`.
pub open spec fn ceil_div(n: int, d: int) -> int {
    (n + d - 1) / d
}

/// `n` rounded up to a multiple of `d`.
pub open spec fn round_up(n: int, d: int) -> int {
    ceil_div(n, d) * d
}

/// So many groups hold the number, and one group less does not.
pub proof fn groups_are_just_enough(n: int, d: int)
    requires
        d > 0,
    ensures
        (ceil_div(n, d) - 1) * d < n <= ceil_div(n, d) * d,
{
    let q = ceil_div(n, d);
    lemma_fundamental_div_mod(n + d - 1, d);
    assert(q * d == d * q) by (nonlinear_arith);
    assert((q - 1) * d == q * d - d) by (nonlinear_arith);
}

/// Rounding up gives the smallest multiple that is not below the number.
pub proof fn lemma_round_up(n: int, d: int)
    requires
        d > 0,
    ensures
        n <= round_up(n, d) < n + d,
        round_up(n, d) % d == 0,
{
    let q = ceil_div(n, d);
    lemma_fundamental_div_mod(n + d - 1, d);
    assert(q * d == d * q) by (nonlinear_arith);
    lemma_mod_multiples_basic(q, d);
}

/// A multiple of `d` that is not below `n` is not below `n` rounded up either.
pub proof fn lemma_round_up_least(n: int, d: int, m: int)
    requires
        d > 0,
        m % d == 0,
        n <= m,
    ensures
        round_up(n, d) <= m,
{
    lemma_round_up(n, d);
    lemma_fundamental_div_mod(m, d);
    let a = ceil_div(n, d);
    let b = m / d;
    assert(a * d <= b * d) by {
        if a > b {
            assert(a * d >= (b + 1) * d) by (nonlinear_arith)
                requires
                    a >= b + 1,
                    d > 0,
            ;
            assert((b + 1) * d == b * d + d) by (nonlinear_arith);
            assert(b * d == d * b) by (nonlinear_arith);
        } else {
            assert(a * d <= b * d) by (nonlinear_arith)
                requires
                    a <= b,
                    d > 0,
            ;
        }
    }
    assert(b * d == d * b) by (nonlinear_arith);
}

/// Rounding up keeps the order.
pub proof fn lemma_round_up_ordered(a: int, b: int, d: int)
    requires
        d > 0,
        a <= b,
    ensures
        round_up(a, d) <= round_up(b, d),
{
    lemma_round_up(b, d);
    lemma_round_up_least(a, d, round_up(b, d));
}

} // verus!
