//! Random names made of the look-alike characters `I`, `l` and `1`.
//!
//! A number `n >= 1` is written in base 3 without leading zeros, and its
//! digits 0, 1, 2 are then written `1`, `I`, `l`.
use vstd::prelude::*;
use rand::rngs::ThreadRng;
use rand::Rng;

verus! {

#[verifier::external_type_specification]
#[verifier::external_body]
pub struct ExThreadRng(ThreadRng);

/// The character that stands for base-3 digit `d`.
pub open spec fn digit_char(d: int) -> char {
    if d == 0 {
        '1'
    } else if d == 1 {
        'I'
    } else {
        'l'
    }
}

/// The name of `n`: its base-3 digits, most significant first, as `digit_char`s.
pub open spec fn name_of(n: nat) -> Seq<char>
    decreases n,
{
    if n < 3 {
        seq![digit_char(n as int)]
    } else {
        name_of(n / 3) + seq![digit_char((n % 3) as int)]
    }
}

/// `s` is the name of a number that a `u32` other than 0 can hold.
pub open spec fn is_name(s: Seq<char>) -> bool {
    exists|n: nat| 1 <= n <= u32::MAX && s == name_of(n)
}

/// A character that names use.
pub open spec fn is_name_char(c: char) -> bool {
    c == 'I' || c == 'l' || c == '1'
}

/// Law: every name is non-empty, made of `I`, `l` and `1` only, and (for a
/// number from 1 on) does not start with `1`, the digit 0.
pub proof fn law_name_shape(n: nat)
    ensures
        name_of(n).len() >= 1,
        forall|i: int| 0 <= i < name_of(n).len() ==> is_name_char(#[trigger] name_of(n)[i]),
        n >= 1 ==> name_of(n)[0] != '1',
    decreases n,
{
    if n >= 3 {
        law_name_shape(n / 3);
        assert(name_of(n)[0] == name_of(n / 3)[0]);
        let p = name_of(n / 3);
        assert forall|i: int| 0 <= i < name_of(n).len() implies is_name_char(#[trigger] name_of(n)[i]) by {
            if i < p.len() {
                assert(name_of(n)[i] == p[i]);
            }
        }
    }
}

/// Names of numbers 1, 2 have one character; all others have more.
proof fn lemma_name_len(n: nat)
    ensures
        n >= 3 ==> name_of(n).len() >= 2,
        n < 3 ==> name_of(n).len() == 1,
{
    if n >= 3 {
        law_name_shape(n / 3);
    }
}

/// Law: different numbers (from 1 on) have different names.
pub proof fn law_names_are_distinct(a: nat, b: nat)
    requires
        1 <= a,
        1 <= b,
        name_of(a) == name_of(b),
    ensures
        a == b,
    decreases a + b,
{
    lemma_name_len(a);
    lemma_name_len(b);
    if a >= 3 && b >= 3 {
        let pa = name_of(a / 3);
        let pb = name_of(b / 3);
        assert(name_of(a).last() == digit_char((a % 3) as int));
        assert(name_of(b).last() == digit_char((b % 3) as int));
        assert(a % 3 == b % 3);
        assert(name_of(a).drop_last() == pa);
        assert(name_of(b).drop_last() == pb);
        law_names_are_distinct(a / 3, b / 3);
        assert(a == 3 * (a / 3) + a % 3);
        assert(b == 3 * (b / 3) + b % 3);
        assert(a == b);
    } else if a < 3 && b < 3 {
        assert(name_of(a) == seq![digit_char(a as int)]);
        assert(name_of(b) == seq![digit_char(b as int)]);
        assert(digit_char(a as int) == name_of(a)[0]);
        assert(digit_char(b as int) == name_of(b)[0]);
    } else {
        assert(name_of(a).len() == name_of(b).len());
        assert(false);
    }
}

fn digit(d: u32) -> (c: char)
    requires
        d < 3,
    ensures
        c == digit_char(d as int),
{
    if d == 0 {
        '1'
    } else if d == 1 {
        'I'
    } else {
        'l'
    }
}

/// The name of `n`.
pub fn bin_name(n: u32) -> (r: Vec<char>)
    requires
        n >= 1,
    ensures
        r@ == name_of(n as nat),
{
    let mut re: Vec<char> = Vec::new();
    let mut tmp = n;
    while tmp >= 3
        invariant
            1 <= tmp,
            name_of(n as nat) == name_of(tmp as nat) + re@,
        decreases tmp,
    {
        let ghost old_re = re@;
        re.insert(0, digit(tmp % 3));
        assert(name_of(tmp as nat) == name_of((tmp / 3) as nat) + seq![digit_char((tmp % 3) as int)]);
        assert(name_of(n as nat) == name_of((tmp / 3) as nat) + re@);
        tmp = tmp / 3;
    }
    re.insert(0, digit(tmp));
    assert(name_of(n as nat) == re@);
    re
}

/// `Rng::gen_range(lo..=hi)` on the thread's generator: a random number from `lo` to `hi`.
#[verifier::external_body]
fn random_in(rng: &mut ThreadRng, lo: u32, hi: u32) -> (r: u32)
    requires
        lo <= hi,
    ensures
        lo <= r <= hi,
{
    rng.gen_range(lo..=hi)
}

/// A random name: that of a number drawn from 1 to `u32::MAX`.
pub fn get_bin(random: &mut ThreadRng) -> (r: String)
    ensures
        is_name(r@),
{
    let i = random_in(random, 1, u32::MAX);
    let cs = bin_name(i);
    let r = crate::text::from_chars(cs.as_slice());
    assert(r@ == name_of(i as nat));
    r
}

} // verus!
