//! Bit-level helpers on machine words, with their meaning in specifications.
use vstd::prelude::*;

verus! {

/// Bit `i` of a 64-bit word is set.
pub open spec fn bit64(x: u64, i: int) -> bool {
    x & (1u64 << (i as u64)) != 0
}

/// Bit `i` of a 32-bit word is set.
pub open spec fn bit32(x: u32, i: int) -> bool {
    x & (1u32 << (i as u32)) != 0
}

/// Setting bit `i` sets exactly that bit.
pub proof fn lemma_bit64_set(x: u64, i: u64)
    requires
        i < 64,
    ensures
        forall|j: u64| j < 64 ==> #[trigger] bit64(x | (1u64 << i), j as int) == (j == i || bit64(x, j as int)),
{
    assert forall|j: u64| j < 64 implies #[trigger] bit64(x | (1u64 << i), j as int) == (j == i || bit64(
        x,
        j as int,
    )) by {
        assert(((x | (1u64 << i)) & (1u64 << j) != 0) == (j == i || x & (1u64 << j) != 0))
            by (bit_vector)
            requires
                i < 64,
                j < 64,
        ;
    }
}

/// Clearing bit `i` clears exactly that bit.
pub proof fn lemma_bit64_clear(x: u64, i: u64)
    requires
        i < 64,
    ensures
        forall|j: u64| j < 64 ==> #[trigger] bit64(x & !(1u64 << i), j as int) == (j != i && bit64(x, j as int)),
{
    assert forall|j: u64| j < 64 implies #[trigger] bit64(x & !(1u64 << i), j as int) == (j != i
        && bit64(x, j as int)) by {
        assert(((x & !(1u64 << i)) & (1u64 << j) != 0) == (j != i && x & (1u64 << j) != 0))
            by (bit_vector)
            requires
                i < 64,
                j < 64,
        ;
    }
}

/// The bits of a conjunction of words.
pub proof fn lemma_bit64_and(x: u64, y: u64)
    ensures
        forall|j: u64| j < 64 ==> #[trigger] bit64(x & y, j as int) == (bit64(x, j as int) && bit64(y, j as int)),
{
    assert forall|j: u64| j < 64 implies #[trigger] bit64(x & y, j as int) == (bit64(x, j as int)
        && bit64(y, j as int)) by {
        assert(((x & y) & (1u64 << j) != 0) == (x & (1u64 << j) != 0 && y & (1u64 << j) != 0))
            by (bit_vector)
            requires
                j < 64,
        ;
    }
}

/// Setting bit `i` of a 32-bit word sets exactly that bit.
pub proof fn lemma_bit32_set(x: u32, i: u32)
    requires
        i < 32,
    ensures
        forall|j: u32| j < 32 ==> #[trigger] bit32(x | (1u32 << i), j as int) == (j == i || bit32(x, j as int)),
{
    assert forall|j: u32| j < 32 implies #[trigger] bit32(x | (1u32 << i), j as int) == (j == i || bit32(
        x,
        j as int,
    )) by {
        assert(((x | (1u32 << i)) & (1u32 << j) != 0) == (j == i || x & (1u32 << j) != 0))
            by (bit_vector)
            requires
                i < 32,
                j < 32,
        ;
    }
}

/// Clearing bit `i` of a 32-bit word clears exactly that bit.
pub proof fn lemma_bit32_clear(x: u32, i: u32)
    requires
        i < 32,
    ensures
        forall|j: u32| j < 32 ==> #[trigger] bit32(x & !(1u32 << i), j as int) == (j != i && bit32(x, j as int)),
{
    assert forall|j: u32| j < 32 implies #[trigger] bit32(x & !(1u32 << i), j as int) == (j != i
        && bit32(x, j as int)) by {
        assert(((x & !(1u32 << i)) & (1u32 << j) != 0) == (j != i && x & (1u32 << j) != 0))
            by (bit_vector)
            requires
                i < 32,
                j < 32,
        ;
    }
}

/// Number of set bits among the lowest `n` bits of a 64-bit word.
pub open spec fn ones64(x: u64, n: nat) -> nat
    decreases n,
{
    if n == 0 {
        0
    } else {
        ones64(x, (n - 1) as nat) + if bit64(x, n - 1) {
            1nat
        } else {
            0nat
        }
    }
}

/// The positions of the set bits among the lowest `n` bits of a 64-bit word.
pub open spec fn bits64_below(x: u64, n: int) -> Set<int> {
    Set::new(|i: int| 0 <= i < n && bit64(x, i))
}

/// The set bits counted by `ones64` are as many as their positions.
pub proof fn lemma_ones64_len(x: u64, n: nat)
    ensures
        bits64_below(x, n as int).finite(),
        bits64_below(x, n as int).len() == ones64(x, n),
    decreases n,
{
    if n == 0 {
        assert(bits64_below(x, 0) =~= Set::<int>::empty());
    } else {
        let m = (n - 1) as nat;
        lemma_ones64_len(x, m);
        if bit64(x, m as int) {
            assert(bits64_below(x, n as int) =~= bits64_below(x, m as int).insert(m as int));
        } else {
            assert(bits64_below(x, n as int) =~= bits64_below(x, m as int));
        }
    }
}

/// Number of set bits among the lowest `n` bits of a 32-bit word.
pub open spec fn ones32(x: u32, n: nat) -> nat
    decreases n,
{
    if n == 0 {
        0
    } else {
        ones32(x, (n - 1) as nat) + if bit32(x, n - 1) {
            1nat
        } else {
            0nat
        }
    }
}

/// The positions of the set bits among the lowest `n` bits of a 32-bit word.
pub open spec fn bits32_below(x: u32, n: int) -> Set<int> {
    Set::new(|i: int| 0 <= i < n && bit32(x, i))
}

/// The set bits counted by `ones32` are as many as their positions.
pub proof fn lemma_ones32_len(x: u32, n: nat)
    ensures
        bits32_below(x, n as int).finite(),
        bits32_below(x, n as int).len() == ones32(x, n),
    decreases n,
{
    if n == 0 {
        assert(bits32_below(x, 0) =~= Set::<int>::empty());
    } else {
        let m = (n - 1) as nat;
        lemma_ones32_len(x, m);
        if bit32(x, m as int) {
            assert(bits32_below(x, n as int) =~= bits32_below(x, m as int).insert(m as int));
        } else {
            assert(bits32_below(x, n as int) =~= bits32_below(x, m as int));
        }
    }
}

/// Setting a clear bit of a 32-bit word adds one set bit.
pub proof fn lemma_ones32_set(x: u32, i: u32)
    requires
        i < 32,
        !bit32(x, i as int),
    ensures
        ones32(x | (1u32 << i), 32) == ones32(x, 32) + 1,
{
    let y = x | (1u32 << i);
    lemma_bit32_set(x, i);
    lemma_ones32_len(x, 32);
    lemma_ones32_len(y, 32);
    assert forall|j: int| #[trigger] bits32_below(y, 32).contains(j) == bits32_below(x, 32).insert(i as int).contains(j) by {
        if 0 <= j < 32 {
            assert(bit32(y, (j as u32) as int) == (j as u32 == i || bit32(x, (j as u32) as int)));
        }
    }
    assert(bits32_below(y, 32) =~= bits32_below(x, 32).insert(i as int));
}

/// Flipping a set bit of a 32-bit word clears exactly that bit, and leaves
/// one set bit less.
pub proof fn lemma_ones32_flip_set(x: u32, i: u32)
    requires
        i < 32,
        bit32(x, i as int),
    ensures
        forall|j: u32| j < 32 ==> #[trigger] bit32(x ^ (1u32 << i), j as int) == (j != i && bit32(x, j as int)),
        ones32(x ^ (1u32 << i), 32) + 1 == ones32(x, 32),
{
    let y = x ^ (1u32 << i);
    assert(y == x & !(1u32 << i)) by (bit_vector)
        requires
            i < 32,
            x & (1u32 << i) != 0,
            y == x ^ (1u32 << i),
    ;
    lemma_bit32_clear(x, i);
    lemma_ones32_len(x, 32);
    lemma_ones32_len(y, 32);
    assert forall|j: int| #[trigger] bits32_below(y, 32).contains(j) == bits32_below(x, 32).remove(i as int).contains(j) by {
        if 0 <= j < 32 {
            assert(bit32(y, (j as u32) as int) == (j as u32 != i && bit32(x, (j as u32) as int)));
        }
    }
    assert(bits32_below(y, 32) =~= bits32_below(x, 32).remove(i as int));
}

/// The bits of a conjunction of 32-bit words.
pub proof fn lemma_bit32_and(x: u32, y: u32)
    ensures
        forall|j: u32| j < 32 ==> #[trigger] bit32(x & y, j as int) == (bit32(x, j as int) && bit32(y, j as int)),
{
    assert forall|j: u32| j < 32 implies #[trigger] bit32(x & y, j as int) == (bit32(x, j as int)
        && bit32(y, j as int)) by {
        assert(((x & y) & (1u32 << j) != 0) == (x & (1u32 << j) != 0 && y & (1u32 << j) != 0))
            by (bit_vector)
            requires
                j < 32,
        ;
    }
}

/// The set bits of `x` among the multiples of `level` count as many as the
/// multiples only when every multiple is set, and never more.
pub proof fn lemma_ones32_multiples(x: u32, m: u32, level: int, n: nat)
    requires
        n <= 32,
        level >= 1,
        forall|j: int| 0 <= j < 32 ==> #[trigger] bit32(m, j) == (j % level == 0),
    ensures
        ones32(x & m, n) <= multiples(level, n),
        (ones32(x & m, n) == multiples(level, n)) <==> (forall|k: int|
            0 <= k < n && k % level == 0 ==> #[trigger] bit32(x, k)),
    decreases n,
{
    lemma_bit32_and(x, m);
    if n > 0 {
        lemma_ones32_multiples(x, m, level, (n - 1) as nat);
        let k = n - 1;
        assert(bit32(x & m, k) == (bit32(x, k) && bit32(m, k))) by {
            assert(bit32(x & m, (k as u32) as int) == (bit32(x, (k as u32) as int) && bit32(
                m,
                (k as u32) as int,
            )));
        }
        if (ones32(x & m, n) == multiples(level, n)) {
            assert forall|k2: int| 0 <= k2 < n && k2 % level == 0 implies #[trigger] bit32(x, k2) by {
                if k2 < k {
                } else {
                }
            }
        }
    }
}

/// Number of the multiples of `level` below `n`.
pub open spec fn multiples(level: int, n: nat) -> nat
    decreases n,
{
    if n == 0 {
        0
    } else {
        multiples(level, (n - 1) as nat) + if (n - 1) % level == 0 {
            1nat
        } else {
            0nat
        }
    }
}

/// The number of set bits of a 64-bit word, `x.count_ones()`.
pub fn count_ones64(x: u64) -> (r: u32)
    ensures
        r == ones64(x, 64),
{
    let mut i: u64 = 0;
    let mut c: u32 = 0;
    while i < 64
        invariant
            i <= 64,
            c == ones64(x, i as nat),
            c <= i,
        decreases 64 - i,
    {
        if x & (1u64 << i) != 0 {
            c = c + 1;
        }
        i = i + 1;
    }
    c
}

/// The number of set bits of a 32-bit word, `x.count_ones()`.
pub fn count_ones32(x: u32) -> (r: u32)
    ensures
        r == ones32(x, 32),
{
    let mut i: u32 = 0;
    let mut c: u32 = 0;
    while i < 32
        invariant
            i <= 32,
            c == ones32(x, i as nat),
            c <= i,
        decreases 32 - i,
    {
        if x & (1u32 << i) != 0 {
            c = c + 1;
        }
        i = i + 1;
    }
    c
}

/// A 64-bit word whose set bits are the multiples of `level` below 64.
pub fn mask_multiples64(level: u64) -> (m: u64)
    requires
        1 <= level <= 0x8000_0000_0000_0000,
    ensures
        forall|j: int| 0 <= j < 64 ==> #[trigger] bit64(m, j) == (j % (level as int) == 0),
{
    let mut i: u64 = 0;
    let mut m: u64 = 0;
    assert forall|j: int| 0 <= j < 64 implies !#[trigger] bit64(0u64, j) by {
        let k = j as u64;
        assert(0u64 & (1u64 << k) == 0) by (bit_vector);
    }
    while i < 64
        invariant
            1 <= level <= 0x8000_0000_0000_0000,
            i % level == 0,
            i < 64 + level,
            forall|j: int| 0 <= j < 64 ==> #[trigger] bit64(m, j) == (j < i && j % (level as int) == 0),
        decreases (if i < 64 {
            64 - i
        } else {
            0
        }),
    {
        proof {
            lemma_bit64_set(m, i);
        }
        let ghost old_m = m;
        m = m | (1u64 << i);
        proof {
            assert forall|j: int| 0 <= j < 64 implies #[trigger] bit64(m, j) == (j < i + level && j
                % (level as int) == 0) by {
                assert(bit64(m, (j as u64) as int) == (j as u64 == i || bit64(old_m, (j as u64) as int)));
                if i < j < i + level {
                    vstd::arithmetic::div_mod::lemma_fundamental_div_mod(i as int, level as int);
                    vstd::arithmetic::div_mod::lemma_fundamental_div_mod(j, level as int);
                    let qi = (i as int) / (level as int);
                    let qj = j / (level as int);
                    if j % (level as int) == 0 {
                        assert(false) by (nonlinear_arith)
                            requires
                                i as int == level * qi,
                                j == level * qj,
                                (i as int) < j < i + level,
                                level >= 1,
                        ;
                    }
                }
            }
        }
        proof {
            vstd::arithmetic::div_mod::lemma_mod_add_multiples_vanish(i as int, level as int);
        }
        i = i + level;
    }
    m
}

/// The set bits of `x` among the multiples of `level` count as many as the
/// multiples only when every multiple is set, and never more.
pub proof fn lemma_ones_multiples(x: u64, m: u64, level: int, n: nat)
    requires
        n <= 64,
        level >= 1,
        forall|j: int| 0 <= j < 64 ==> #[trigger] bit64(m, j) == (j % level == 0),
    ensures
        ones64(x & m, n) <= multiples(level, n),
        (ones64(x & m, n) == multiples(level, n)) <==> (forall|k: int|
            0 <= k < n && k % level == 0 ==> #[trigger] bit64(x, k)),
    decreases n,
{
    lemma_bit64_and(x, m);
    if n > 0 {
        lemma_ones_multiples(x, m, level, (n - 1) as nat);
        let k = n - 1;
        assert(bit64(x & m, k) == (bit64(x, k) && bit64(m, k))) by {
            assert(bit64(x & m, (k as u64) as int) == (bit64(x, (k as u64) as int) && bit64(
                m,
                (k as u64) as int,
            )));
        }
        if (ones64(x & m, n) == multiples(level, n)) {
            assert forall|k2: int| 0 <= k2 < n && k2 % level == 0 implies #[trigger] bit64(x, k2) by {
                if k2 < k {
                } else {
                }
            }
        }
    }
}

/// Is `n` a power of two, as an integer.
pub open spec fn is_pow2(n: int) -> bool
    decreases n,
{
    if n <= 0 {
        false
    } else if n == 1 {
        true
    } else {
        n % 2 == 0 && is_pow2(n / 2)
    }
}

/// `n.is_power_of_two()`.
pub fn is_power_of_two(n: usize) -> (r: bool)
    ensures
        r == is_pow2(n as int),
{
    let mut k = n;
    while k > 1 && k % 2 == 0
        invariant
            is_pow2(n as int) == is_pow2(k as int),
            k <= n,
        decreases k,
    {
        k = k / 2;
    }
    k == 1
}

/// The least power of two that is at least `l` (one for zero).
pub open spec fn next_pow2(l: int) -> int {
    next_pow2_from(1, l)
}

/// The least power of two at least `l` among `p, 2p, 4p, ...`.
pub open spec fn next_pow2_from(p: int, l: int) -> int
    decreases (if l > p {
        l - p
    } else {
        0
    }),
{
    if p <= 0 || p >= l {
        p
    } else {
        next_pow2_from(2 * p, l)
    }
}

/// Doubling a power of two gives a power of two.
pub proof fn lemma_pow2_double(p: int)
    requires
        is_pow2(p),
    ensures
        is_pow2(2 * p),
{
    assert((2 * p) % 2 == 0);
    assert((2 * p) / 2 == p);
}

/// The least power of two from `p` on that reaches `l` is a power of two, at
/// least `l`, and below `2 * l` when `p` is below `l`.
pub proof fn lemma_next_pow2_from(p: int, l: int)
    requires
        is_pow2(p),
    ensures
        is_pow2(next_pow2_from(p, l)),
        next_pow2_from(p, l) >= l,
        next_pow2_from(p, l) >= p,
        p < l ==> next_pow2_from(p, l) < 2 * l,
        p >= l ==> next_pow2_from(p, l) == p,
    decreases (if l > p {
        l - p
    } else {
        0
    }),
{
    if p < l {
        lemma_pow2_double(p);
        lemma_next_pow2_from(2 * p, l);
    }
}

/// `l.next_power_of_two()`.
pub fn next_power_of_two(l: usize) -> (r: usize)
    requires
        l <= usize::MAX / 2 + 1,
    ensures
        r == next_pow2(l as int),
        is_pow2(r as int),
        r >= l,
        r >= 1,
        l > 1 ==> r < 2 * l,
{
    let mut p: usize = 1;
    proof {
        lemma_next_pow2_from(1, l as int);
    }
    while p < l
        invariant
            is_pow2(p as int),
            next_pow2_from(p as int, l as int) == next_pow2(l as int),
            1 <= p,
            p < 2 * l || p == 1,
            l <= usize::MAX / 2 + 1,
        decreases (if l > p {
            l - p
        } else {
            0
        }),
    {
        proof {
            lemma_pow2_double(p as int);
        }
        p = p * 2;
    }
    proof {
        lemma_next_pow2_from(1, l as int);
    }
    p
}

/// `l.next_power_of_two()`, for a `u64`.
pub fn next_power_of_two_u64(l: u64) -> (r: u64)
    requires
        l <= 0x8000_0000_0000_0000,
    ensures
        r == next_pow2(l as int),
        is_pow2(r as int),
        r >= l,
        r >= 1,
        l > 1 ==> r < 2 * l,
{
    let mut p: u64 = 1;
    proof {
        lemma_next_pow2_from(1, l as int);
    }
    while p < l
        invariant
            is_pow2(p as int),
            next_pow2_from(p as int, l as int) == next_pow2(l as int),
            1 <= p,
            p < 2 * l || p == 1,
            l <= 0x8000_0000_0000_0000,
        decreases (if l > p {
            l - p
        } else {
            0
        }),
    {
        proof {
            lemma_pow2_double(p as int);
        }
        p = p * 2;
    }
    proof {
        lemma_next_pow2_from(1, l as int);
    }
    p
}

/// A power of two divided by a smaller power of two is a power of two, and
/// the division is exact.
pub proof fn lemma_pow2_div(a: int, b: int)
    requires
        is_pow2(a),
        is_pow2(b),
        a >= b,
    ensures
        is_pow2(a / b),
        a % b == 0,
        (a / b) * b == a,
    decreases b,
{
    if b == 1 {
    } else {
        assert(b % 2 == 0 && is_pow2(b / 2));
        assert(a >= 2);
        assert(a % 2 == 0 && is_pow2(a / 2));
        lemma_pow2_div(a / 2, b / 2);
        let q = (a / 2) / (b / 2);
        assert(q * (b / 2) == a / 2);
        assert(q * b == a) by (nonlinear_arith)
            requires
                q * (b / 2) == a / 2,
                b == 2 * (b / 2),
                a == 2 * (a / 2),
        ;
        vstd::arithmetic::div_mod::lemma_fundamental_div_mod_converse(a, b, q, 0);
    }
}

/// A power of two of at most 64 is one of the seven of them.
pub proof fn lemma_pow2_small(n: int)
    requires
        is_pow2(n),
        n <= 64,
    ensures
        n == 1 || n == 2 || n == 4 || n == 8 || n == 16 || n == 32 || n == 64,
    decreases n,
{
    if n > 1 {
        lemma_pow2_small(n / 2);
    }
}

/// Adding one to a number steps its quotient exactly when it reaches a
/// multiple.
proof fn lemma_div_succ(a: int, level: int)
    requires
        level >= 1,
        a >= 0,
    ensures
        (a + 1) / level == a / level + if (a + 1) % level == 0 {
            1int
        } else {
            0int
        },
{
    vstd::arithmetic::div_mod::lemma_fundamental_div_mod(a, level);
    let q = a / level;
    let r = a % level;
    assert(0 <= r < level);
    if r + 1 == level {
        assert(a + 1 == (q + 1) * level + 0) by (nonlinear_arith)
            requires
                a == level * q + r,
                r + 1 == level,
        ;
        vstd::arithmetic::div_mod::lemma_fundamental_div_mod_converse(a + 1, level, q + 1, 0);
    } else {
        assert(a + 1 == q * level + (r + 1)) by (nonlinear_arith)
            requires
                a == level * q + r,
        ;
        vstd::arithmetic::div_mod::lemma_fundamental_div_mod_converse(a + 1, level, q, r + 1);
    }
}

/// The multiples of `level` below `n`, in closed form.
pub proof fn lemma_multiples_closed(level: int, n: nat)
    requires
        level >= 1,
    ensures
        multiples(level, n) == (n + level - 1) / level,
    decreases n,
{
    if n == 0 {
        vstd::arithmetic::div_mod::lemma_fundamental_div_mod_converse(level - 1, level, 0, level - 1);
    } else {
        lemma_multiples_closed(level, (n - 1) as nat);
        lemma_div_succ(n + level - 2, level);
        vstd::arithmetic::div_mod::lemma_mod_add_multiples_vanish(n - 1, level);
    }
}

/// The multiples of a power of two `level` of at most 64 below 64.
pub proof fn lemma_multiples_64(level: int)
    requires
        is_pow2(level),
        level <= 64,
    ensures
        multiples(level, 64) == 64int / level,
{
    lemma_pow2_small(level);
    lemma_multiples_closed(level, 64);
}

/// Some multiple of `level` below 64 is clear in `used`.
pub open spec fn free_multiple64(used: u64, level: int) -> bool {
    exists|k: int| 0 <= k < 64 && k % level == 0 && !#[trigger] bit64(used, k)
}

/// Whether not every multiple of `level` below 64 is set in `used`, counted
/// with a mask of the multiples: the set bits under the mask are compared to
/// `64 / level`.
pub fn have_free_multiple64(used: u64, level: u64) -> (r: bool)
    requires
        1 <= level <= 0x8000_0000_0000_0000,
        is_pow2(level as int),
    ensures
        level <= 64 ==> r == free_multiple64(used, level as int),
        level > 64 ==> r == bit64(used, 0),
{
    let m = mask_multiples64(level);
    let ones = 64 / level;
    let c = count_ones64(used & m);
    proof {
        lemma_ones_multiples(used, m, level as int, 64);
        if level <= 64 {
            lemma_multiples_64(level as int);
        } else {
            lemma_multiples_closed(level as int, 64);
            assert((64 + level - 1) / (level as int) == 1) by (nonlinear_arith)
                requires
                    level > 64,
            {
                vstd::arithmetic::div_mod::lemma_fundamental_div_mod_converse(
                    64 + level - 1,
                    level as int,
                    1,
                    63,
                );
            }
            assert forall|k: int| 0 <= k < 64 && k % (level as int) == 0 implies #[trigger] bit64(
                used,
                k,
            ) == bit64(used, 0) by {
                vstd::arithmetic::div_mod::lemma_fundamental_div_mod_converse(k, level as int, 0, k);
            }
            assert(0int % (level as int) == 0);
            assert((forall|k: int| 0 <= k < 64 && k % (level as int) == 0 ==> #[trigger] bit64(used, k))
                == bit64(used, 0));
            vstd::arithmetic::div_mod::lemma_fundamental_div_mod_converse(64, level as int, 0, 64);
            assert(ones == 0);
        }
    }
    !(c == ones as u32)
}

/// A power of two below `2^(k+1)` is at most `2^k`.
pub proof fn lemma_pow2_le(n: int, k: nat)
    requires
        is_pow2(n),
        n < vstd::arithmetic::power2::pow2(k + 1),
    ensures
        n <= vstd::arithmetic::power2::pow2(k),
    decreases k,
{
    vstd::arithmetic::power2::lemma_pow2_unfold(k + 1);
    vstd::arithmetic::power2::lemma_pow2_pos(k);
    vstd::arithmetic::power2::lemma2_to64();
    if n > 1 && k > 0 {
        vstd::arithmetic::power2::lemma_pow2_unfold(k);
        assert(n % 2 == 0 && is_pow2(n / 2));
        assert(n == 2 * (n / 2));
        assert(((k - 1) as nat) + 1 == k);
        lemma_pow2_le(n / 2, (k - 1) as nat);
    }
}

/// A power of two held in a machine word of at most 64 bits is at most
/// `2^63`.
pub proof fn lemma_pow2_word(n: int)
    requires
        is_pow2(n),
        n <= 0xFFFF_FFFF_FFFF_FFFF,
    ensures
        n <= 0x8000_0000_0000_0000,
{
    vstd::arithmetic::power2::lemma2_to64();
    vstd::arithmetic::power2::lemma2_to64_rest();
    lemma_pow2_le(n, 63);
}

} // verus!
