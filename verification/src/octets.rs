//! Byte strings: fixed-width integers, lexicographic order and comparison.
use vstd::arithmetic::power;
use vstd::prelude::*;

verus! {

/// The number of values that `n` bytes can hold.
pub open spec fn pow256(n: nat) -> nat
    decreases n,
{
    if n == 0 {
        1
    } else {
        256 * pow256((n - 1) as nat)
    }
}

/// The low `n` bytes of `x`, least significant first.
pub open spec fn le_bytes(x: nat, n: nat) -> Seq<u8>
    decreases n,
{
    if n == 0 {
        Seq::empty()
    } else {
        seq![(x % 256) as u8] + le_bytes(x / 256, (n - 1) as nat)
    }
}

/// The number that `s` spells, least significant byte first.
pub open spec fn le_value(s: Seq<u8>) -> nat
    decreases s.len(),
{
    if s.len() == 0 {
        0
    } else {
        s[0] as nat + 256 * le_value(s.skip(1))
    }
}

/// The low `n` bytes of `x`, most significant first.
pub open spec fn be_bytes(x: nat, n: nat) -> Seq<u8>
    decreases n,
{
    if n == 0 {
        Seq::empty()
    } else {
        be_bytes(x / 256, (n - 1) as nat).push((x % 256) as u8)
    }
}

/// The number that `s` spells, most significant byte first.
pub open spec fn be_value(s: Seq<u8>) -> nat
    decreases s.len(),
{
    if s.len() == 0 {
        0
    } else {
        256 * be_value(s.drop_last()) + s.last() as nat
    }
}

pub proof fn lemma_pow256_values()
    ensures
        pow256(4) == 0x1_0000_0000,
        pow256(8) == 0x1_0000_0000_0000_0000,
{
    reveal_with_fuel(pow256, 9);
}

pub proof fn lemma_le_bytes_len(x: nat, n: nat)
    ensures
        le_bytes(x, n).len() == n,
    decreases n,
{
    if n > 0 {
        lemma_le_bytes_len(x / 256, (n - 1) as nat);
    }
}

/// `n` bytes hold every number below `pow256(n)`: writing one and reading it
/// back gives the number.
pub proof fn lemma_le_value_of_bytes(x: nat, n: nat)
    requires
        x < pow256(n),
    ensures
        le_value(le_bytes(x, n)) == x,
    decreases n,
{
    if n > 0 {
        let rest = le_bytes(x / 256, (n - 1) as nat);
        lemma_le_value_of_bytes(x / 256, (n - 1) as nat);
        assert(le_bytes(x, n).skip(1) =~= rest);
    }
}

/// Reading `n` bytes and writing the number back gives the bytes.
pub proof fn lemma_le_bytes_of_value(s: Seq<u8>)
    ensures
        le_bytes(le_value(s), s.len()) == s,
        le_value(s) < pow256(s.len()),
    decreases s.len(),
{
    if s.len() > 0 {
        let rest = s.skip(1);
        lemma_le_bytes_of_value(rest);
        assert(seq![s[0]] + rest =~= s);
    }
}

pub proof fn lemma_be_bytes_len(x: nat, n: nat)
    ensures
        be_bytes(x, n).len() == n,
    decreases n,
{
    if n > 0 {
        lemma_be_bytes_len(x / 256, (n - 1) as nat);
    }
}

pub proof fn lemma_be_value_of_bytes(x: nat, n: nat)
    requires
        x < pow256(n),
    ensures
        be_value(be_bytes(x, n)) == x,
    decreases n,
{
    if n > 0 {
        lemma_be_value_of_bytes(x / 256, (n - 1) as nat);
        assert(be_bytes(x, n).drop_last() =~= be_bytes(x / 256, (n - 1) as nat));
    }
}

/// The low `n` bytes of a number are those of its remainder modulo `pow256(n)`.
pub proof fn lemma_be_bytes_low(x: nat, n: nat)
    ensures
        be_bytes(x % pow256(n), n) == be_bytes(x, n),
    decreases n,
{
    if n > 0 {
        let p = pow256((n - 1) as nat);
        lemma_pow256_positive((n - 1) as nat);
        lemma_be_bytes_low(x / 256, (n - 1) as nat);
        let r = x % (256 * p);
        let q = x / (256 * p);
        vstd::arithmetic::div_mod::lemma_fundamental_div_mod(x as int, (256 * p) as int);
        assert(256 * p * q == 256 * (p * q)) by (nonlinear_arith);
        assert(x == 256 * (p * q) + r);
        assert(x / 256 == p * q + r / 256);
        assert(r / 256 < p);
        vstd::arithmetic::div_mod::lemma_mod_multiples_vanish(
            q as int,
            (r / 256) as int,
            p as int,
        );
        assert(p * q + r / 256 == p as int * q as int + (r / 256) as int);
        vstd::arithmetic::div_mod::lemma_small_mod(r / 256, p);
        assert((x / 256) % p == r / 256);
    }
}

proof fn lemma_pow256_positive(n: nat)
    ensures
        pow256(n) > 0,
    decreases n,
{
    if n > 0 {
        lemma_pow256_positive((n - 1) as nat);
    }
}

/// `n` bytes hold as many values as the `n`-th power of 256 says.
pub proof fn law_pow256_is_the_power(n: nat)
    ensures
        pow256(n) == power::pow(256, n),
    decreases n,
{
    reveal(power::pow);
    if n > 0 {
        law_pow256_is_the_power((n - 1) as nat);
    }
}

/// The bytes of a number are its digits to the base 256, all of them: the byte at
/// a place counts that power of 256. Written with the most significant byte
/// first, the same bytes stand the other way round.
pub proof fn law_bytes_are_digits(x: nat, n: nat, i: nat)
    requires
        i < n,
    ensures
        le_bytes(x, n).len() == n,
        be_bytes(x, n).len() == n,
        le_bytes(x, n)[i as int] as nat == (x as int / power::pow(256, i)) % 256,
        be_bytes(x, n)[n - 1 - i] == le_bytes(x, n)[i as int],
    decreases n,
{
    reveal(power::pow);
    lemma_le_bytes_len(x, n);
    lemma_be_bytes_len(x, n);
    lemma_le_bytes_len(x / 256, (n - 1) as nat);
    lemma_be_bytes_len(x / 256, (n - 1) as nat);
    if i > 0 {
        law_bytes_are_digits(x / 256, (n - 1) as nat, (i - 1) as nat);
        power::lemma_pow_positive(256, (i - 1) as nat);
        vstd::arithmetic::div_mod::lemma_div_denominator(
            x as int,
            256,
            power::pow(256, (i - 1) as nat),
        );
    }
}

/// A byte in front of a number's bytes, or behind them where the most significant
/// comes first, is its lowest digit to the base 256.
pub proof fn law_value_counts_every_byte(s: Seq<u8>, b: u8)
    ensures
        le_value(Seq::empty()) == 0,
        be_value(Seq::empty()) == 0,
        le_value(seq![b] + s) == b + 256 * le_value(s),
        be_value(s.push(b)) == 256 * be_value(s) + b,
{
    assert((seq![b] + s).skip(1) =~= s);
    assert(s.push(b).drop_last() =~= s);
}

/// Appends the low `n` bytes of `x`, least significant first.
pub fn put_le(out: &mut Vec<u8>, x: u64, n: usize)
    ensures
        final(out)@ == old(out)@ + le_bytes(x as nat, n as nat),
{
    let mut rem: u64 = x;
    let mut i: usize = 0;
    while i < n
        invariant
            i <= n,
            out@ + le_bytes(rem as nat, (n - i) as nat) == old(out)@ + le_bytes(x as nat, n as nat),
        decreases n - i,
    {
        let ghost before = out@;
        let ghost whole = rem as nat;
        let low: u64 = rem % 256;
        out.push(low as u8);
        rem = rem / 256;
        i = i + 1;
        assert(out@ + le_bytes(rem as nat, (n - i) as nat) =~= before + le_bytes(
            whole,
            (n - i + 1) as nat,
        ));
    }
    assert(out@ + le_bytes(rem as nat, 0) =~= out@);
}

/// The number that the `n` bytes of `data` from `at` on spell, least
/// significant byte first.
pub fn get_le(data: &[u8], at: usize, n: usize) -> (x: u64)
    requires
        n <= 8,
        at + n <= data@.len(),
    ensures
        x == le_value(data@.subrange(at as int, at + n)),
{
    let total: usize = data.len();
    let mut x: u64 = 0;
    let mut i: usize = n;
    assert(data@.subrange(at + i, at + n) =~= Seq::empty());
    while i > 0
        invariant
            i <= n <= 8,
            at + n <= data@.len() == total,
            x == le_value(data@.subrange(at + i, at + n)),
        decreases i,
    {
        let ghost high = data@.subrange(at + i, at + n);
        let ghost all = data@.subrange(at + i - 1, at + n);
        proof {
            assert(all.skip(1) =~= high);
            lemma_le_bytes_of_value(all);
            reveal_with_fuel(pow256, 9);
        }
        i = i - 1;
        let low: u8 = data[at + i];
        x = low as u64 + 256 * x;
    }
    x
}

/// Whether two byte strings are the same.
pub fn same_bytes(a: &[u8], b: &[u8]) -> (same: bool)
    ensures
        same == (a@ == b@),
{
    if a.len() != b.len() {
        return false;
    }
    let mut i: usize = 0;
    while i < a.len()
        invariant
            i <= a@.len() == b@.len(),
            forall|j: int| 0 <= j < i ==> a@[j] == b@[j],
        decreases a@.len() - i,
    {
        if a[i] != b[i] {
            return false;
        }
        i = i + 1;
    }
    assert(a@ =~= b@);
    true
}

/// A copy of a byte string.
pub fn copy_bytes(data: &[u8]) -> (copy: Vec<u8>)
    ensures
        copy@ == data@,
{
    vstd::slice::slice_to_vec(data)
}

} // verus!
