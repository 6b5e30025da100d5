use vstd::arithmetic::power2::{pow2, lemma2_to64, lemma_pow2_strictly_increases, lemma_pow2_unfold};
use vstd::prelude::*;

verus! {

/// The numeric value of a binary digit character.
pub open spec fn digit_value(c: char) -> nat {
    if c == '1' { 1 } else { 0 }
}

/// The binary digit character for a bit.
pub open spec fn digit_char(bit: nat) -> char {
    if bit == 1 { '1' } else { '0' }
}

/// Every character of `s` is `'0'` or `'1'`.
pub open spec fn is_binary(s: Seq<char>) -> bool {
    forall|i: int| 0 <= i < s.len() ==> (s[i] == '0' || s[i] == '1')
}

/// The value of a string of binary digits, most significant digit first.
pub open spec fn binary_value(s: Seq<char>) -> nat
    decreases s.len(),
{
    if s.len() == 0 {
        0
    } else {
        2 * binary_value(s.drop_last()) + digit_value(s.last())
    }
}

/// The shortest binary encoding of `n`: no leading zero, and empty for zero.
pub open spec fn to_binary(n: nat) -> Seq<char>
    decreases n,
{
    if n == 0 {
        Seq::empty()
    } else {
        to_binary(n / 2).push(digit_char(n % 2))
    }
}

/// `s` with its leading `'0'` characters removed.
pub open spec fn strip_leading_zeros(s: Seq<char>) -> Seq<char>
    decreases s.len(),
{
    if s.len() > 0 && s[0] == '0' {
        strip_leading_zeros(s.drop_first())
    } else {
        s
    }
}

proof fn lemma_binary_value_bound(s: Seq<char>)
    ensures
        binary_value(s) < pow2(s.len()),
    decreases s.len(),
{
    if s.len() > 0 {
        lemma_binary_value_bound(s.drop_last());
        lemma_pow2_unfold(s.len());
    } else {
        lemma2_to64();
    }
}

proof fn lemma_strip_push(p: Seq<char>, c: char)
    ensures
        strip_leading_zeros(p.push(c)) == if strip_leading_zeros(p).len() == 0 {
            strip_leading_zeros(seq![c])
        } else {
            strip_leading_zeros(p).push(c)
        },
    decreases p.len(),
{
    if p.len() == 0 {
        assert(p.push(c) =~= seq![c]);
    } else if p[0] == '0' {
        assert(p.push(c).drop_first() =~= p.drop_first().push(c));
        lemma_strip_push(p.drop_first(), c);
    }
}

/// Decoding a binary string and encoding the value again gives back the
/// string without its leading zeros.
pub proof fn lemma_binary_round_trip(s: Seq<char>)
    requires
        is_binary(s),
    ensures
        to_binary(binary_value(s)) == strip_leading_zeros(s),
    decreases s.len(),
{
    if s.len() > 0 {
        let p = s.drop_last();
        let c = s.last();
        assert(is_binary(p));
        lemma_binary_round_trip(p);
        assert(p.push(c) =~= s);
        lemma_strip_push(p, c);
        let v = binary_value(p);
        let n = 2 * v + digit_value(c);
        assert(n / 2 == v && n % 2 == digit_value(c));
        assert(seq![c].drop_first() =~= Seq::<char>::empty());
        if n > 0 {
            assert(to_binary(n) == to_binary(v).push(digit_char(digit_value(c))));
            assert(digit_char(digit_value(c)) == c);
            if v == 0 {
                assert(to_binary(v).len() == 0);
                assert(strip_leading_zeros(seq![c]) == seq![c]);
                assert(to_binary(n) =~= seq![c]);
            } else {
                assert(to_binary(v).len() > 0);
            }
        } else {
            assert(c == '0');
            assert(strip_leading_zeros(Seq::<char>::empty()) == Seq::<char>::empty());
            assert(strip_leading_zeros(seq![c]) == strip_leading_zeros(Seq::<char>::empty()));
        }
    }
}

/// Whether every character of `text` is `'0'` or `'1'`.
pub fn is_binary_text(text: &str) -> (r: bool)
    ensures
        r == is_binary(text@),
{
    let n = text.unicode_len();
    let mut i: usize = 0;
    while i < n
        invariant
            n == text@.len(),
            i <= n,
            is_binary(text@.take(i as int)),
        decreases n - i,
    {
        let c = text.get_char(i);
        if c != '0' && c != '1' {
            assert(!(text@[i as int] == '0' || text@[i as int] == '1'));
            return false;
        }
        assert(text@.take(i as int + 1) =~= text@.take(i as int).push(c));
        i = i + 1;
    }
    assert(text@.take(n as int) =~= text@);
    true
}

/// The value of the binary number `bin`, most significant digit first.
/// An empty string has the value zero.
pub fn bin_to_dec(bin: &str) -> (dec: i32)
    requires
        is_binary(bin@),
        bin@.len() <= 31,
    ensures
        dec as int == binary_value(bin@),
{
    let n = bin.unicode_len();
    let mut dec: i32 = 0;
    let mut i: usize = 0;
    while i < n
        invariant
            n == bin@.len(),
            n <= 31,
            i <= n,
            is_binary(bin@),
            dec as int == binary_value(bin@.take(i as int)),
        decreases n - i,
    {
        let c = bin.get_char(i);
        let ghost prefix = bin@.take(i as int + 1);
        assert(prefix.drop_last() =~= bin@.take(i as int));
        assert(prefix.last() == c);
        proof {
            lemma_binary_value_bound(prefix);
            lemma2_to64();
            if prefix.len() < 31 {
                lemma_pow2_strictly_increases(prefix.len(), 31);
            }
        }
        let bit: i32 = if c == '1' { 1 } else { 0 };
        dec = 2 * dec + bit;
        i = i + 1;
    }
    assert(bin@.take(n as int) =~= bin@);
    dec
}

} // verus!
