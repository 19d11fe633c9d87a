//! Base-58 decoding of program identifiers.
//!
//! A program identifier is declared as base-58 text over the alphabet
//! `123456789ABCDEFGHJKLMNPQRSTUVWXYZabcdefghijkmnopqrstuvwxyz` and
//! names a 32-byte key: each leading `1` stands for one zero byte, and
//! the remaining digits spell the key's value in base 58, most
//! significant digit first. Text is well formed exactly when the zero
//! bytes and the value's minimal big-endian form fill 32 bytes.

use vstd::prelude::*;

verus! {

use vstd::arithmetic::div_mod::{lemma_fundamental_div_mod, lemma_mod_division_less_than_divisor};
use vstd::arithmetic::mul::lemma_mul_inequality;

/// The digit value of one character of base-58 text, `None` for a
/// character outside the alphabet (`0`, `I`, `O` and `l` are absent).
pub open spec fn digit(c: char) -> Option<u8> {
    let n = c as u32;
    if 49 <= n && n <= 57 {
        // '1' ..= '9'
        Some((n - 49) as u8)
    } else if 65 <= n && n <= 72 {
        // 'A' ..= 'H'
        Some((n - 56) as u8)
    } else if 74 <= n && n <= 78 {
        // 'J' ..= 'N'
        Some((n - 57) as u8)
    } else if 80 <= n && n <= 90 {
        // 'P' ..= 'Z'
        Some((n - 58) as u8)
    } else if 97 <= n && n <= 107 {
        // 'a' ..= 'k'
        Some((n - 64) as u8)
    } else if 109 <= n && n <= 122 {
        // 'm' ..= 'z'
        Some((n - 65) as u8)
    } else {
        None
    }
}

/// The digit value again, defaulting to zero off the alphabet.
pub open spec fn digit_val(c: char) -> nat {
    match digit(c) {
        Some(d) => d as nat,
        None => 0,
    }
}

/// Whether every character of `s` belongs to the base-58 alphabet.
pub open spec fn is_base58(s: Seq<char>) -> bool {
    forall|i: int| 0 <= i < s.len() ==> #[trigger] digit(s[i]) is Some
}

/// The number named by base-58 text, most significant digit first.
pub open spec fn base58_val(s: Seq<char>) -> nat
    decreases s.len(),
{
    if s.len() == 0 {
        0
    } else {
        base58_val(s.drop_last()) * 58 + digit_val(s.last())
    }
}

/// How many `1` characters `s` begins with.
pub open spec fn leading_ones(s: Seq<char>) -> nat
    decreases s.len(),
{
    if s.len() > 0 && s[0] == '1' {
        1 + leading_ones(s.drop_first())
    } else {
        0
    }
}

/// 256 to the power `k`.
pub open spec fn pow256(k: nat) -> nat
    decreases k,
{
    if k == 0 {
        1
    } else {
        256 * pow256((k - 1) as nat)
    }
}

/// The number named by bytes read big-endian.
pub open spec fn be_val(b: Seq<u8>) -> nat
    decreases b.len(),
{
    if b.len() == 0 {
        0
    } else {
        (b[0] as nat) * pow256((b.len() - 1) as nat) + be_val(b.drop_first())
    }
}

/// How many bytes the minimal big-endian form of `n` takes.
pub open spec fn min_be_len(n: nat) -> nat
    decreases n,
{
    if n == 0 {
        0
    } else {
        1 + min_be_len(n / 256)
    }
}

/// Whether base-58 text names a 32-byte key: all characters are digits,
/// and the leading zero bytes plus the value's minimal form fill
/// exactly 32 bytes.
pub open spec fn names_key(s: Seq<char>) -> bool {
    is_base58(s) && leading_ones(s) + min_be_len(base58_val(s)) == 32
}

proof fn lemma_base58_val_snoc(s: Seq<char>, c: char)
    ensures
        base58_val(s.push(c)) == base58_val(s) * 58 + digit_val(c),
{
    assert(s.push(c).drop_last() =~= s);
    assert(s.push(c).last() == c);
}

proof fn lemma_base58_val_take_le(s: Seq<char>, i: int)
    requires
        0 <= i <= s.len(),
    ensures
        base58_val(s.take(i)) <= base58_val(s),
    decreases s.len() - i,
{
    if i < s.len() {
        assert(s.take(i + 1) =~= s.take(i).push(s[i]));
        lemma_base58_val_snoc(s.take(i), s[i]);
        lemma_base58_val_take_le(s, i + 1);
    } else {
        assert(s.take(i) =~= s);
    }
}

proof fn lemma_pow256_pos(k: nat)
    ensures
        pow256(k) >= 1,
    decreases k,
{
    if k > 0 {
        lemma_pow256_pos((k - 1) as nat);
    }
}

proof fn lemma_min_be_len_le(n: nat, k: nat)
    ensures
        min_be_len(n) <= k <==> n < pow256(k),
    decreases k,
{
    lemma_fundamental_div_mod(n as int, 256);
    lemma_mod_division_less_than_divisor(n as int, 256);
    if k == 0 {
        lemma_pow256_pos(k);
    } else if n > 0 {
        let q: nat = n / 256;
        let m: nat = pow256((k - 1) as nat);
        lemma_min_be_len_le(q, (k - 1) as nat);
        lemma_pow256_pos((k - 1) as nat);
        assert(min_be_len(n) == 1 + min_be_len(q));
        assert(n as int == 256 * (q as int) + (n as int) % 256);
        assert(0 <= (n as int) % 256 < 256);
        assert(pow256(k) == 256 * m);
        assert(q < m ==> 256 * (q as int) <= 256 * (m - 1));
        assert(q >= m ==> 256 * (q as int) >= 256 * (m as int));
    } else {
        lemma_pow256_pos(k);
    }
}

proof fn lemma_be_val_skip_split(b: Seq<u8>, i: int)
    requires
        0 <= i < b.len(),
    ensures
        be_val(b.skip(i)) == (b[i] as nat) * pow256((b.len() - i - 1) as nat) + be_val(
            b.skip(i + 1),
        ),
{
    let t = b.skip(i);
    assert(t[0] == b[i]);
    assert(t.drop_first() =~= b.skip(i + 1));
}

proof fn lemma_be_val_bound(b: Seq<u8>)
    ensures
        be_val(b) < pow256(b.len()),
    decreases b.len(),
{
    if b.len() == 0 {
    } else {
        let p: nat = pow256((b.len() - 1) as nat);
        lemma_be_val_bound(b.drop_first());
        lemma_pow256_pos((b.len() - 1) as nat);
        lemma_mul_inequality(b[0] as int, 255, p as int);
    }
}

proof fn lemma_be_val_zero_prefix(b: Seq<u8>, i: int)
    requires
        0 <= i <= b.len(),
        forall|k: int| 0 <= k < i ==> b[k] == 0,
    ensures
        be_val(b) == be_val(b.skip(i)),
    decreases i,
{
    if i == 0 {
        assert(b.skip(0) =~= b);
    } else {
        lemma_be_val_zero_prefix(b, i - 1);
        lemma_be_val_skip_split(b, i - 1);
    }
}

proof fn lemma_min_be_len_at_leading_zeros(b: Seq<u8>, z: int)
    requires
        b.len() == 32,
        0 <= z <= 32,
        forall|k: int| 0 <= k < z ==> b[k] == 0,
        z < 32 ==> b[z] != 0,
    ensures
        min_be_len(be_val(b)) == 32 - z,
{
    lemma_be_val_zero_prefix(b, z);
    if z == 32 {
        assert(b.skip(32) =~= Seq::<u8>::empty());
    } else {
        let t = b.skip(z);
        let p: nat = pow256((31 - z) as nat);
        lemma_be_val_bound(t);
        lemma_min_be_len_le(be_val(t), (32 - z) as nat);
        lemma_be_val_skip_split(b, z);
        lemma_pow256_pos((31 - z) as nat);
        lemma_mul_inequality(1, b[z] as int, p as int);
        lemma_min_be_len_le(be_val(t), (31 - z) as nat);
    }
}

proof fn lemma_leading_ones_count(s: Seq<char>, i: int)
    requires
        0 <= i <= s.len(),
        forall|k: int| 0 <= k < i ==> s[k] == '1',
        i == s.len() || s[i] != '1',
    ensures
        leading_ones(s) == i,
    decreases i,
{
    if i == 0 {
    } else {
        let t = s.drop_first();
        assert(forall|k: int| 0 <= k < i - 1 ==> t[k] == s[k + 1]);
        lemma_leading_ones_count(t, i - 1);
    }
}

/// Bytes of equal length that read as the same number are the same
/// bytes: together with its length, `be_val` pins a key byte for byte.
pub proof fn lemma_be_val_injective(a: Seq<u8>, b: Seq<u8>)
    requires
        a.len() == b.len(),
        be_val(a) == be_val(b),
    ensures
        a == b,
    decreases a.len(),
{
    if a.len() == 0 {
        assert(a =~= b);
    } else {
        let p: nat = pow256((a.len() - 1) as nat);
        let ra: nat = be_val(a.drop_first());
        let rb: nat = be_val(b.drop_first());
        lemma_be_val_bound(a.drop_first());
        lemma_be_val_bound(b.drop_first());
        assert(a[0] == b[0]) by (nonlinear_arith)
            requires
                (a[0] as nat) * p + ra == (b[0] as nat) * p + rb,
                ra < p,
                rb < p,
        ;
        lemma_be_val_injective(a.drop_first(), b.drop_first());
        assert(a =~= b) by {
            assert(forall|i: int|
                1 <= i < a.len() ==> a[i] == a.drop_first()[i - 1] && b[i] == b.drop_first()[i
                    - 1]);
        }
    }
}

/// The digit value of one character, `None` outside the alphabet.
pub fn decode_digit(c: char) -> (r: Option<u8>)
    ensures
        r == digit(c),
{
    let n = c as u32;
    if 49 <= n && n <= 57 {
        Some((n - 49) as u8)
    } else if 65 <= n && n <= 72 {
        Some((n - 56) as u8)
    } else if 74 <= n && n <= 78 {
        Some((n - 57) as u8)
    } else if 80 <= n && n <= 90 {
        Some((n - 58) as u8)
    } else if 97 <= n && n <= 107 {
        Some((n - 64) as u8)
    } else if 109 <= n && n <= 122 {
        Some((n - 65) as u8)
    } else {
        None
    }
}

/// Multiply a 32-byte big-endian accumulator by 58 and add one digit
/// in place, returning the carry out of the top byte.
fn mul58_add(acc: &mut Vec<u8>, d: u8) -> (carry: u8)
    requires
        old(acc)@.len() == 32,
        d < 58,
    ensures
        final(acc)@.len() == 32,
        (carry as nat) * pow256(32) + be_val(final(acc)@) == 58 * be_val(old(acc)@) + d as nat,
{
    let ghost a0 = acc@;
    let mut carry: u16 = d as u16;
    let mut i: usize = 32;
    proof {
        assert(a0.skip(32) =~= Seq::<u8>::empty());
        assert(acc@.skip(32) =~= Seq::<u8>::empty());
        assert(be_val(Seq::<u8>::empty()) == 0);
        assert(pow256(0) == 1);
        assert(58 * be_val(a0.skip(32)) + (d as nat) == (carry as nat) * pow256(0) + be_val(
            acc@.skip(32),
        ));
    }
    while i > 0
        invariant
            acc@.len() == 32,
            a0.len() == 32,
            i <= 32,
            carry <= 255,
            forall|k: int| 0 <= k < i ==> acc@[k] == a0[k],
            58 * be_val(a0.skip(i as int)) + (d as nat) == (carry as nat) * pow256(
                (32 - i) as nat,
            ) + be_val(acc@.skip(i as int)),
        decreases i,
    {
        i = i - 1;
        let x: u8 = acc[i];
        proof {
            assert(x == a0[i as int]);
        }
        let t: u16 = (x as u16) * 58 + carry;
        let ghost c_in: nat = carry as nat;
        let ghost acc_pre = acc@;
        acc.set(i, (t % 256) as u8);
        carry = t / 256;
        proof {
            let p: nat = pow256((31 - i) as nat);
            let q: nat = carry as nat;
            let r: nat = acc@[i as int] as nat;
            lemma_pow256_pos((31 - i) as nat);
            assert(pow256((32 - i) as nat) == 256 * p);
            assert(acc@.skip(i + 1) =~= acc_pre.skip(i + 1));
            lemma_be_val_skip_split(a0, i as int);
            lemma_be_val_skip_split(acc@, i as int);
            lemma_fundamental_div_mod(t as int, 256);
            assert(t as nat == 58 * (x as nat) + c_in);
            assert(t as nat == 256 * q + r);
            assert(58 * ((x as nat) * p) + c_in * p == q * (256 * p) + r * p)
                by (nonlinear_arith)
                requires
                    58 * (x as nat) + c_in == 256 * q + r,
            ;
        }
    }
    proof {
        assert(acc@.skip(0) =~= acc@);
        assert(a0.skip(0) =~= a0);
    }
    carry as u8
}

/// Decode base-58 text into the 32-byte key it names, or `None` when
/// the text names no such key.
///
/// By `lemma_be_val_injective`, the clauses on a returned key pin it
/// byte for byte.
pub fn decode_key(s: &str) -> (r: Option<Vec<u8>>)
    ensures
        r is Some <==> names_key(s@),
        r matches Some(b) ==> b@.len() == 32 && be_val(b@) == base58_val(s@),
{
    let n: usize = s.unicode_len();
    let mut acc: Vec<u8> = Vec::new();
    while acc.len() < 32
        invariant
            acc@.len() <= 32,
            forall|k: int| 0 <= k < acc@.len() ==> acc@[k] == 0,
        decreases 32 - acc@.len(),
    {
        acc.push(0);
    }
    proof {
        lemma_be_val_zero_prefix(acc@, 32);
        assert(acc@.skip(32) =~= Seq::<u8>::empty());
        assert(be_val(Seq::<u8>::empty()) == 0);
        assert(s@.take(0) =~= Seq::<char>::empty());
        assert(base58_val(Seq::<char>::empty()) == 0);
    }
    let mut i: usize = 0;
    while i < n
        invariant
            n as nat == s@.len(),
            i <= n,
            acc@.len() == 32,
            is_base58(s@.take(i as int)),
            be_val(acc@) == base58_val(s@.take(i as int)),
        decreases n - i,
    {
        let c: char = s.get_char(i);
        let d: u8 = match decode_digit(c) {
            Some(d) => d,
            None => {
                proof {
                    assert(digit(s@[i as int]) is None);
                }
                return None;
            },
        };
        let carry: u8 = mul58_add(&mut acc, d);
        proof {
            assert(s@.take(i + 1) =~= s@.take(i as int).push(s@[i as int]));
            lemma_base58_val_snoc(s@.take(i as int), s@[i as int]);
            assert(base58_val(s@.take(i + 1)) == (carry as nat) * pow256(32) + be_val(acc@));
        }
        if carry != 0 {
            proof {
                lemma_pow256_pos(32);
                lemma_mul_inequality(1, carry as int, pow256(32) as int);
                lemma_base58_val_take_le(s@, i + 1);
                lemma_min_be_len_le(base58_val(s@), 32);
            }
            return None;
        }
        i = i + 1;
    }
    proof {
        assert(s@.take(n as int) =~= s@);
    }
    let mut ones: usize = 0;
    while ones < n && s.get_char(ones) == '1'
        invariant
            n as nat == s@.len(),
            ones <= n,
            forall|k: int| 0 <= k < ones ==> s@[k] == '1',
        decreases n - ones,
    {
        ones = ones + 1;
    }
    proof {
        lemma_leading_ones_count(s@, ones as int);
    }
    let mut z: usize = 0;
    while z < 32 && acc[z] == 0
        invariant
            acc@.len() == 32,
            z <= 32,
            forall|k: int| 0 <= k < z ==> acc@[k] == 0,
        decreases 32 - z,
    {
        z = z + 1;
    }
    proof {
        lemma_min_be_len_at_leading_zeros(acc@, z as int);
    }
    // the zero bytes for the leading ones and the value's minimal form
    // fill the key exactly when `ones + (32 - z) == 32`
    if ones == z {
        Some(acc)
    } else {
        None
    }
}

} // verus!
