//! Helpers for layout tooling built on the engine: the power-of-two check
//! used to size an enumeration's storage, and snake-case rendering of
//! identifier names.

use vstd::prelude::*;
use vstd::arithmetic::power2::{
    pow2,
    lemma_pow2_unfold,
    lemma_pow2_pos,
    lemma_pow2_strictly_increases,
    lemma2_to64,
    lemma2_to64_rest,
};
use vstd::arithmetic::div_mod::lemma_fundamental_div_mod;

verus! {

/// An odd number that reaches a power of two by multiplication with a power
/// of two must be one.
proof fn lemma_odd_times_pow2(v: nat, t: nat, k: nat)
    requires
        v % 2 == 1,
        v * pow2(t) == pow2(k),
    ensures
        v == 1,
    decreases t,
{
    lemma_pow2_pos(t);
    lemma_pow2_pos(k);
    if t == 0 {
        lemma2_to64();
        if k > 0 {
            lemma_pow2_unfold(k);
            let m = pow2((k - 1) as nat);
            assert(v == 2 * m);
            assert((2 * m) % 2 == 0) by (nonlinear_arith);
        }
    } else {
        lemma_pow2_unfold(t);
        let p = pow2((t - 1) as nat) as int;
        lemma_pow2_pos((t - 1) as nat);
        assert(v * (2 * p) == 2 * (v * p)) by (nonlinear_arith);
        if k == 0 {
            lemma2_to64();
            assert(2 * (v * p) >= 2) by (nonlinear_arith)
                requires
                    v >= 1,
                    p >= 1,
            ;
        } else {
            lemma_pow2_unfold(k);
            lemma_odd_times_pow2(v, (t - 1) as nat, (k - 1) as nat);
        }
    }
}

/// Finds the exponent of a power of two: `Some(k)` exactly when
/// `value == 2^k`, and `None` when `value` is no power of two at all.
pub fn calculate_2_power(value: usize) -> (r: Option<u32>)
    ensures
        r matches Some(k) ==> value == pow2(k as nat),
        r is None ==> forall|k: nat| value != pow2(k),
{
    if value == 0 {
        proof {
            assert forall|k: nat| value != pow2(k) by {
                lemma_pow2_pos(k);
            }
        }
        return None;
    }
    let big: u64 = value as u64;
    let mut v: u64 = big;
    let mut times: u32 = 0;
    proof {
        lemma2_to64();
    }
    while v > 1
        invariant
            1 <= v,
            big == value,
            (v as nat) * pow2(times as nat) == big as nat,
            times <= 64,
        decreases v,
    {
        if v % 2 == 1 {
            proof {
                assert forall|k: nat| value != pow2(k) by {
                    if value == pow2(k) {
                        lemma_odd_times_pow2(v as nat, times as nat, k);
                    }
                }
            }
            return None;
        }
        proof {
            lemma2_to64();
            lemma2_to64_rest();
            lemma_pow2_pos(times as nat);
            assert(2 * pow2(times as nat) <= (v as nat) * pow2(times as nat)) by (nonlinear_arith)
                requires
                    2 <= v as nat,
                    0 < pow2(times as nat),
            ;
            lemma_pow2_unfold((times + 1) as nat);
            if times + 1 > 64 {
                lemma_pow2_strictly_increases(64, (times + 1) as nat);
            }
            lemma_fundamental_div_mod(v as int, 2);
            let half = (v as nat) / 2;
            let p = pow2(times as nat);
            assert(half * (2 * p) == (2 * half) * p) by (nonlinear_arith);
        }
        v = v / 2;
        times = times + 1;
    }
    Some(times)
}

/// Whether `char::is_uppercase` holds of `c`; a function of the character
/// alone.
pub uninterp spec fn upper_of(c: char) -> bool;

/// The first character `char::to_lowercase` yields for `c`; a function of the
/// character alone.
pub uninterp spec fn lower_first_of(c: char) -> char;

/// Relies on char::is_uppercase: the Unicode uppercase test, which depends on
/// the character alone.
#[verifier::external_body]
fn char_is_uppercase(c: char) -> (r: bool)
    ensures
        r == upper_of(c),
{
    c.is_uppercase()
}

/// Relies on char::to_lowercase: its iterator yields at least one character,
/// and the mapping depends on the character alone.
#[verifier::external_body]
fn char_lower_first(c: char) -> (r: char)
    ensures
        r == lower_first_of(c),
{
    match c.to_lowercase().next() {
        Some(l) => l,
        None => c,
    }
}

/// Relies on str::chars: yields exactly the string's characters, in order.
#[verifier::external_body]
fn string_chars(s: &String) -> (r: Vec<char>)
    ensures
        r@ == s@,
{
    s.chars().collect()
}

/// Relies on String's FromIterator over characters: the result holds exactly
/// the given characters, in order.
#[verifier::external_body]
fn chars_to_string(v: Vec<char>) -> (r: String)
    ensures
        r@ == v@,
{
    v.into_iter().collect()
}

/// How one character renders in snake case: an uppercase character becomes
/// its lowercase mapping, preceded by an underscore unless it opens the
/// string; every other character stands as itself.
pub open spec fn snake_piece(c: char, first: bool) -> Seq<char> {
    if upper_of(c) {
        if first {
            seq![lower_first_of(c)]
        } else {
            seq!['_', lower_first_of(c)]
        }
    } else {
        seq![c]
    }
}

/// Snake-case rendering of the first `n` characters of `s`.
pub open spec fn snake_spec(s: Seq<char>, n: int) -> Seq<char>
    recommends
        0 <= n <= s.len(),
    decreases n,
{
    if n <= 0 {
        Seq::empty()
    } else {
        snake_spec(s, n - 1) + snake_piece(s[n - 1], n == 1)
    }
}

/// Snake-case rendering of a whole string: uppercase characters are
/// lowercased and, past the first position, prefixed with an underscore.
pub fn to_snake_case(s: String) -> (ret: String)
    ensures
        ret@ == snake_spec(s@, s@.len() as int),
{
    let cs = string_chars(&s);
    let mut out: Vec<char> = Vec::new();
    let mut i: usize = 0;
    while i < cs.len()
        invariant
            cs@ == s@,
            i <= cs@.len(),
            out@ == snake_spec(s@, i as int),
        decreases cs@.len() - i,
    {
        let c = cs[i];
        if char_is_uppercase(c) {
            if i > 0 {
                out.push('_');
            }
            out.push(char_lower_first(c));
        } else {
            out.push(c);
        }
        i = i + 1;
        proof {
            assert(out@ =~= snake_spec(s@, i as int));
        }
    }
    chars_to_string(out)
}

} // verus!
