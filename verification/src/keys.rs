//! Decimal rendering of sizes and the composite `name-size` key that the
//! result mapping is indexed by.

use vstd::prelude::*;

verus! {

/// The decimal digit `d` as a character, for `d < 10`.
pub open spec fn digit_char(d: nat) -> char {
    ((d + 48) as u8) as char
}

/// The usual decimal representation of `n`, most significant digit first,
/// without leading zeros (except for `n == 0` itself).
pub open spec fn dec_rep(n: nat) -> Seq<char>
    decreases n,
{
    if n < 10 {
        seq![digit_char(n)]
    } else {
        dec_rep(n / 10).push(digit_char(n % 10))
    }
}

/// The composite key under which a file with base name `name` and byte size
/// `size` is stored: the name, a separator, and the size in decimal.
pub open spec fn key_spec(name: Seq<char>, size: u64) -> Seq<char> {
    name + seq!['-'] + dec_rep(size as nat)
}

/// Decimal representations are nonempty and consist of decimal digits
/// only; in particular they never contain the separator `'-'`.
pub proof fn lemma_dec_rep_digits(n: nat)
    ensures
        dec_rep(n).len() >= 1,
        forall|i: int|
            0 <= i < dec_rep(n).len() ==> 48 <= (#[trigger] dec_rep(n)[i]) as int <= 57,
    decreases n,
{
    if n < 10 {
        assert(dec_rep(n)[0] == digit_char(n));
        assert(48 <= digit_char(n) as int <= 57);
    } else {
        lemma_dec_rep_digits(n / 10);
        assert forall|i: int|
            0 <= i < dec_rep(n).len() implies 48 <= (#[trigger] dec_rep(n)[i]) as int <= 57 by {
            if i < dec_rep(n / 10).len() {
                assert(dec_rep(n)[i] == dec_rep(n / 10)[i]);
            } else {
                assert(dec_rep(n)[i] == digit_char(n % 10));
            }
        }
    }
}

/// Distinct numbers have distinct decimal representations.
pub proof fn lemma_dec_rep_injective(a: nat, b: nat)
    requires
        dec_rep(a) == dec_rep(b),
    ensures
        a == b,
    decreases a,
{
    lemma_dec_rep_digits(a);
    lemma_dec_rep_digits(b);
    if a < 10 && b < 10 {
        assert(dec_rep(a)[0] == digit_char(a));
        assert(dec_rep(b)[0] == digit_char(b));
        assert(digit_char(a) as int == 48 + a);
        assert(digit_char(b) as int == 48 + b);
    } else if a < 10 {
        lemma_dec_rep_digits(b / 10);
        assert(dec_rep(b).len() >= 2);
        assert(false);
    } else if b < 10 {
        lemma_dec_rep_digits(a / 10);
        assert(dec_rep(a).len() >= 2);
        assert(false);
    } else {
        assert(dec_rep(a).last() == digit_char(a % 10));
        assert(dec_rep(b).last() == digit_char(b % 10));
        assert(digit_char(a % 10) as int == 48 + a % 10);
        assert(digit_char(b % 10) as int == 48 + b % 10);
        assert(a % 10 == b % 10);
        assert(dec_rep(a).drop_last() =~= dec_rep(a / 10));
        assert(dec_rep(b).drop_last() =~= dec_rep(b / 10));
        lemma_dec_rep_injective(a / 10, b / 10);
    }
}

/// The composite key determines both the name and the size: the size part
/// holds no separator, so the separator before it is the last one in the
/// key.
pub proof fn lemma_key_injective(n1: Seq<char>, s1: u64, n2: Seq<char>, s2: u64)
    requires
        key_spec(n1, s1) == key_spec(n2, s2),
    ensures
        n1 == n2,
        s1 == s2,
{
    let k = key_spec(n1, s1);
    let d1 = dec_rep(s1 as nat);
    let d2 = dec_rep(s2 as nat);
    let p1 = n1 + seq!['-'];
    let p2 = n2 + seq!['-'];
    lemma_dec_rep_digits(s1 as nat);
    lemma_dec_rep_digits(s2 as nat);
    assert(k == p1 + d1);
    assert(k == p2 + d2);
    assert((p1 + d1).len() == n1.len() + 1 + d1.len());
    assert((p2 + d2).len() == n2.len() + 1 + d2.len());
    assert(k[n1.len() as int] == p1[n1.len() as int]);
    assert(k[n1.len() as int] == '-');
    assert(k[n2.len() as int] == p2[n2.len() as int]);
    assert(k[n2.len() as int] == '-');
    if n1.len() < n2.len() {
        let j = n2.len() as int;
        assert(k[j] == (p1 + d1)[j]);
        assert(k[j] == d1[j - p1.len()]);
        assert(48 <= k[j] as int <= 57);
        assert('-' as int == 45);
        assert(false);
    }
    if n2.len() < n1.len() {
        let j = n1.len() as int;
        assert(k[j] == (p2 + d2)[j]);
        assert(k[j] == d2[j - p2.len()]);
        assert(48 <= k[j] as int <= 57);
        assert('-' as int == 45);
        assert(false);
    }
    assert(n1 =~= n2) by {
        assert forall|i: int| 0 <= i < n1.len() implies n1[i] == n2[i] by {
            assert(n1[i] == p1[i] && p1[i] == (p1 + d1)[i]);
            assert(n2[i] == p2[i] && p2[i] == (p2 + d2)[i]);
        }
    }
    assert(d1 =~= d2) by {
        assert forall|i: int| 0 <= i < d1.len() implies d1[i] == d2[i] by {
            assert(d1[i] == (p1 + d1)[p1.len() + i]);
            assert(d2[i] == (p2 + d2)[p2.len() + i]);
        }
    }
    lemma_dec_rep_injective(s1 as nat, s2 as nat);
}

/// A one-character string slice for the decimal digit `d`.
fn digit_str(d: u8) -> (r: &'static str)
    requires
        d < 10,
    ensures
        r@ =~= seq![digit_char(d as nat)],
{
    let r: &'static str = match d {
        0 => "0",
        1 => "1",
        2 => "2",
        3 => "3",
        4 => "4",
        5 => "5",
        6 => "6",
        7 => "7",
        8 => "8",
        _ => "9",
    };
    proof {
        reveal_strlit("0");
        reveal_strlit("1");
        reveal_strlit("2");
        reveal_strlit("3");
        reveal_strlit("4");
        reveal_strlit("5");
        reveal_strlit("6");
        reveal_strlit("7");
        reveal_strlit("8");
        reveal_strlit("9");
    }
    r
}

/// Renders `n` in decimal.
pub fn u64_to_dec(n: u64) -> (r: String)
    ensures
        r@ == dec_rep(n as nat),
    decreases n,
{
    if n < 10 {
        let r = digit_str(n as u8).to_owned();
        proof {
            assert(r@ =~= dec_rep(n as nat));
        }
        r
    } else {
        let mut r = u64_to_dec(n / 10);
        r.append(digit_str((n % 10) as u8));
        proof {
            assert(r@ =~= dec_rep(n as nat));
        }
        r
    }
}

/// The composite key for `name` and `size` as a fresh string.
pub fn composite_key(name: &String, size: u64) -> (r: String)
    ensures
        r@ == key_spec(name@, size),
{
    let mut r = name.clone();
    r.append("-");
    let dec = u64_to_dec(size);
    r.append(dec.as_str());
    proof {
        reveal_strlit("-");
        assert(r@ =~= key_spec(name@, size));
    }
    r
}

} // verus!
