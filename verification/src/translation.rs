//! Reading the value of a signal: from the bits that the simulation shows
//! to the number or truth value that the source type means.

use vstd::prelude::*;
use vstd::string::*;
use vstd::arithmetic::div_mod::{lemma_add_mod_noop, lemma_mul_mod_noop_right, lemma_small_mod};
use vstd::arithmetic::power2::{lemma2_to64_rest, lemma_pow2_adds, lemma_pow2_unfold, pow2};
use crate::text::{same_text, split, split_on, starts_with};

verus! {

/// A value with the source type that it was read under, if it names one.
#[derive(Debug)]
pub struct TranslationResult {
    pub tpe: Option<String>,
    pub value: String,
}

/// How the bits of a value are read.
#[derive(Clone, Copy, Debug)]
pub enum TranslationStrategy {
    /// By the source type: unsigned, signed or truth value.
    Auto,
    /// As an unsigned number, whatever the type.
    UInt,
    /// Not at all: the bits are the value.
    Raw,
}

/// The character of a decimal digit.
pub open spec fn digit_char(d: int) -> char {
    if d == 0 {
        '0'
    } else if d == 1 {
        '1'
    } else if d == 2 {
        '2'
    } else if d == 3 {
        '3'
    } else if d == 4 {
        '4'
    } else if d == 5 {
        '5'
    } else if d == 6 {
        '6'
    } else if d == 7 {
        '7'
    } else if d == 8 {
        '8'
    } else {
        '9'
    }
}

/// The decimal digits of a number, without leading zeros.
pub open spec fn decimal(n: nat) -> Seq<char>
    decreases n,
{
    if n < 10 {
        seq![digit_char(n as int)]
    } else {
        decimal(n / 10).push(digit_char((n % 10) as int))
    }
}

/// The decimal text of a number with its sign.
pub open spec fn signed_decimal(n: int) -> Seq<char> {
    if n < 0 {
        seq!['-'] + decimal((-n) as nat)
    } else {
        decimal(n as nat)
    }
}

/// Whether a text is made of the characters `0` and `1` alone.
pub open spec fn is_bits(s: Seq<char>) -> bool {
    forall|i: int| 0 <= i < s.len() ==> (#[trigger] s[i]) == '0' || s[i] == '1'
}

/// The number that a text of bits spells, first bit most significant.
pub open spec fn bits_number(s: Seq<char>) -> nat
    decreases s.len(),
{
    if s.len() == 0 {
        0
    } else {
        2 * bits_number(s.drop_last()) + (if s.last() == '1' {
            1nat
        } else {
            0nat
        })
    }
}

/// Two to the power 128.
pub open spec fn wide_modulus() -> int {
    0x1_0000_0000_0000_0000_0000_0000_0000_0000int
}

/// The text that stands for a value that cannot be read.
pub open spec fn undefined() -> Seq<char> {
    "UDF"@
}

/// The reading of bits as an unsigned number: its decimal text, the
/// number taken in its low 128 bits; undefined if a character is no bit.
pub open spec fn uint_reading(s: Seq<char>) -> Seq<char> {
    if is_bits(s) {
        decimal((bits_number(s) as int % wide_modulus()) as nat)
    } else {
        undefined()
    }
}

/// The longest text of bits that is read as a signed number.
pub open spec fn signed_limit() -> nat {
    127
}

/// The reading of bits as a signed number in two's complement: its
/// decimal text; undefined for no bits at all, for more than 127, and if
/// a character is no bit.
pub open spec fn sint_reading(s: Seq<char>) -> Seq<char> {
    if s.len() == 0 || s.len() > signed_limit() || !is_bits(s) {
        undefined()
    } else {
        signed_decimal(
            bits_number(s.drop_first()) - (if s[0] == '1' {
                pow2((s.len() - 1) as nat) as int
            } else {
                0
            }),
        )
    }
}

/// The reading of a single bit as a truth value; undefined for anything else.
pub open spec fn bool_reading(s: Seq<char>) -> Seq<char> {
    if s == "1"@ {
        "true"@
    } else if s == "0"@ {
        "false"@
    } else {
        undefined()
    }
}

/// Whether `pat` stands somewhere in `s`.
pub open spec fn holds_text(s: Seq<char>, pat: Seq<char>) -> bool {
    exists|i: int| 0 <= i <= s.len() - pat.len() && #[trigger] s.subrange(i, i + pat.len()) == pat
}

/// The reading of bits by the source type: unsigned for a type that
/// holds `UInt`, else signed for `SInt`, else a truth value for `Bool` or
/// `logic`; the bits themselves for any other type and for none.
pub open spec fn auto_reading(s: Seq<char>, tpe: Option<Seq<char>>) -> Seq<char> {
    match tpe {
        Some(t) => if holds_text(t, "UInt"@) {
            uint_reading(s)
        } else if holds_text(t, "SInt"@) {
            sint_reading(s)
        } else if holds_text(t, "Bool"@) || holds_text(t, "logic"@) {
            bool_reading(s)
        } else {
            s
        },
        None => s,
    }
}

/// The reading of bits under a strategy.
pub open spec fn reading(s: Seq<char>, tpe: Option<Seq<char>>, strategy: TranslationStrategy)
    -> Seq<char> {
    match strategy {
        TranslationStrategy::Auto => auto_reading(s, tpe),
        TranslationStrategy::UInt => uint_reading(s),
        TranslationStrategy::Raw => s,
    }
}

/// The type that a value names: its first word, if it has more than one.
pub open spec fn type_part(val: Seq<char>) -> Option<Seq<char>> {
    let parts = split_on(val, ' ');
    if parts.len() > 1 {
        Some(parts[0])
    } else {
        None
    }
}

/// The bits of a value: its second word if it names a type, else its only word.
pub open spec fn value_part(val: Seq<char>) -> Seq<char> {
    let parts = split_on(val, ' ');
    if parts.len() > 1 {
        parts[1]
    } else {
        parts[0]
    }
}

fn digit_text(d: u8) -> (s: &'static str)
    requires
        d < 10,
    ensures
        s@ == seq![digit_char(d as int)],
{
    proof {
        reveal_strlit("0");
        reveal_strlit("1");
        reveal_strlit("2");
        reveal_strlit("3");
        reveal_strlit("4");
        reveal_strlit("5");
        reveal_strlit("6");
        reveal_strlit("7");
        reveal_strlit("8");
        reveal_strlit("9");
    }
    let s = if d == 0 {
        "0"
    } else if d == 1 {
        "1"
    } else if d == 2 {
        "2"
    } else if d == 3 {
        "3"
    } else if d == 4 {
        "4"
    } else if d == 5 {
        "5"
    } else if d == 6 {
        "6"
    } else if d == 7 {
        "7"
    } else if d == 8 {
        "8"
    } else {
        "9"
    };
    assert(s@ =~= seq![digit_char(d as int)]);
    s
}

/// The decimal text of a number.
pub fn decimal_text(n: u128) -> (r: String)
    ensures
        r@ == decimal(n as nat),
{
    let mut r = digit_text((n % 10) as u8).to_owned();
    let mut rest = n / 10;
    proof {
        if rest != 0 {
            assert(decimal(rest as nat) + r@ =~= decimal(n as nat));
        }
    }
    while rest > 0
        invariant
            rest == 0 ==> r@ == decimal(n as nat),
            rest != 0 ==> decimal(rest as nat) + r@ == decimal(n as nat),
        decreases rest,
    {
        let d = digit_text((rest % 10) as u8);
        let ghost old_r = r@;
        r = d.to_owned().concat(r.as_str());
        proof {
            if rest < 10 {
                assert(r@ =~= decimal(rest as nat) + old_r);
            } else {
                assert(decimal((rest / 10) as nat) + r@ =~= decimal(rest as nat) + old_r);
            }
        }
        rest = rest / 10;
    }
    r
}

fn is_bit_text(s: &str) -> (r: bool)
    ensures
        r == is_bits(s@),
{
    let n = s.unicode_len();
    let mut i: usize = 0;
    while i < n
        invariant
            i <= n,
            n == s@.len(),
            forall|k: int| 0 <= k < i ==> (#[trigger] s@[k]) == '0' || s@[k] == '1',
        decreases n - i,
    {
        let ch = s.get_char(i);
        if ch != '0' && ch != '1' {
            return false;
        }
        i = i + 1;
    }
    true
}

/// The number that the characters `from ..` of a text of bits spell, in its low 128 bits.
fn bits_to_number(s: &str, from: usize) -> (val: u128)
    requires
        from <= s@.len(),
    ensures
        val as int == bits_number(s@.skip(from as int)) as int % wide_modulus(),
{
    let n = s.unicode_len();
    let ghost bits = s@.skip(from as int);
    let mut val: u128 = 0;
    let mut i: usize = from;
    proof {
        assert(bits.take(0) =~= Seq::<char>::empty());
        lemma_small_mod(0, wide_modulus() as nat);
    }
    while i < n
        invariant
            from <= i <= n,
            n == s@.len(),
            bits == s@.skip(from as int),
            val as int == bits_number(bits.take(i - from)) as int % wide_modulus(),
        decreases n - i,
    {
        let bit: u128 = if s.get_char(i) == '1' {
            1
        } else {
            0
        };
        let low: u128 = if val >= 0x8000_0000_0000_0000_0000_0000_0000_0000u128 {
            val - 0x8000_0000_0000_0000_0000_0000_0000_0000u128
        } else {
            val
        };
        let next: u128 = low * 2 + bit;
        proof {
            let prev = bits_number(bits.take(i - from)) as int;
            let m = wide_modulus();
            assert(bits.take(i - from + 1).drop_last() =~= bits.take(i - from));
            assert(bits.take(i - from + 1).last() == s@[i as int]);
            assert(bits_number(bits.take(i - from + 1)) as int == 2 * prev + bit);
            lemma_mul_mod_noop_right(2, prev, m);
            lemma_add_mod_noop(2 * prev, bit as int, m);
            lemma_add_mod_noop(2 * (prev % m), bit as int, m);
            assert((2 * val + bit) % (m as int) == next as int) by {
                if val >= 0x8000_0000_0000_0000_0000_0000_0000_0000u128 {
                    assert(2 * val + bit == next + m);
                    vstd::arithmetic::div_mod::lemma_mod_multiples_vanish(1, next as int, m);
                } else {
                    lemma_small_mod(next as nat, m as nat);
                }
            }
        }
        val = next;
        i = i + 1;
    }
    assert(bits.take(n - from) =~= bits);
    val
}

/// Reads bits as an unsigned number.
pub fn translate_as_uint(bitstring: &str) -> (r: String)
    ensures
        r@ == uint_reading(bitstring@),
{
    if !is_bit_text(bitstring) {
        return "UDF".to_owned();
    }
    let val = bits_to_number(bitstring, 0);
    assert(bitstring@.skip(0) =~= bitstring@);
    decimal_text(val)
}

/// The number of a text of bits is below two to the power of its length.
pub proof fn lemma_bits_number_bound(s: Seq<char>)
    ensures
        bits_number(s) < pow2(s.len()),
    decreases s.len(),
{
    if s.len() > 0 {
        lemma_bits_number_bound(s.drop_last());
        lemma_pow2_unfold(s.len());
    } else {
        vstd::arithmetic::power2::lemma2_to64();
    }
}

/// Powers of two grow with their exponents.
pub proof fn lemma_power_of_two_grows(a: nat, b: nat)
    requires
        a <= b,
    ensures
        pow2(a) <= pow2(b),
    decreases b,
{
    if a < b {
        lemma_power_of_two_grows(a, (b - 1) as nat);
        lemma_pow2_unfold(b);
    }
}

/// Two to the power `n`, for an `n` that leaves the result in reach.
fn two_to(n: usize) -> (p: u128)
    requires
        n <= 126,
    ensures
        p == pow2(n as nat),
        p <= 0x4000_0000_0000_0000_0000_0000_0000_0000u128,
{
    let mut p: u128 = 1;
    let mut k: usize = 0;
    proof {
        lemma_power_126();
        vstd::arithmetic::power2::lemma2_to64();
    }
    while k < n
        invariant
            k <= n <= 126,
            p == pow2(k as nat),
            pow2(126) == 0x4000_0000_0000_0000_0000_0000_0000_0000u128,
        decreases n - k,
    {
        proof {
            lemma_power_of_two_grows((k + 1) as nat, 126);
            lemma_pow2_unfold((k + 1) as nat);
        }
        p = p * 2;
        k = k + 1;
    }
    proof {
        lemma_power_of_two_grows(n as nat, 126);
    }
    p
}

proof fn lemma_power_126()
    ensures
        pow2(126) == 0x4000_0000_0000_0000_0000_0000_0000_0000u128,
{
    lemma2_to64_rest();
    lemma_pow2_adds(63, 63);
    assert(0x8000000000000000int * 0x8000000000000000int
        == 0x4000_0000_0000_0000_0000_0000_0000_0000int) by (nonlinear_arith);
}

/// Reads bits as a signed number in two's complement.
pub fn translate_as_sint(bitstring: &str) -> (r: String)
    ensures
        r@ == sint_reading(bitstring@),
{
    let n = bitstring.unicode_len();
    if n == 0 || n > 127 || !is_bit_text(bitstring) {
        return "UDF".to_owned();
    }
    let low = bits_to_number(bitstring, 1);
    let ghost tail = bitstring@.skip(1);
    proof {
        assert(tail =~= bitstring@.drop_first());
        lemma_bits_number_bound(tail);
        lemma_power_126();
        lemma_power_of_two_grows(tail.len(), 126);
        lemma_small_mod(bits_number(tail), wide_modulus() as nat);
    }
    if bitstring.get_char(0) == '1' {
        let weight = two_to(n - 1);
        if low >= weight {
            decimal_text(low - weight)
        } else {
            let magnitude = decimal_text(weight - low);
            proof {
                reveal_strlit("-");
            }
            let r = "-".to_owned().concat(magnitude.as_str());
            assert(r@ =~= seq!['-'] + magnitude@);
            r
        }
    } else {
        decimal_text(low)
    }
}

/// Reads a single bit as a truth value.
pub fn translate_as_bool(bitstring: &str) -> (r: String)
    ensures
        r@ == bool_reading(bitstring@),
{
    if same_text(bitstring, "1") {
        "true".to_owned()
    } else if same_text(bitstring, "0") {
        "false".to_owned()
    } else {
        "UDF".to_owned()
    }
}

/// Tests whether `pat` stands somewhere in `s`.
pub fn contains_text(s: &str, pat: &str) -> (r: bool)
    ensures
        r == holds_text(s@, pat@),
{
    let n = s.unicode_len();
    let m = pat.unicode_len();
    if m > n {
        return false;
    }
    let last = n - m;
    let mut i: usize = 0;
    loop
        invariant
            i <= last,
            last == n - m,
            m <= n,
            n == s@.len(),
            m == pat@.len(),
            forall|k: int| 0 <= k < i ==> #[trigger] s@.subrange(k, k + m) != pat@,
        decreases last - i,
    {
        let rest = s.substring_char(i, n);
        assert(rest@.subrange(0, m as int) =~= s@.subrange(i as int, i + m));
        if starts_with(rest, pat) {
            return true;
        }
        if i == last {
            return false;
        }
        i = i + 1;
    }
}

/// Reads bits by the source type.
pub fn auto_translate(bitstring: String, tpe: &Option<String>) -> (r: String)
    ensures
        r@ == auto_reading(bitstring@, tpe.deep_view()),
{
    match tpe {
        Some(t) => {
            if contains_text(t.as_str(), "UInt") {
                translate_as_uint(bitstring.as_str())
            } else if contains_text(t.as_str(), "SInt") {
                translate_as_sint(bitstring.as_str())
            } else if contains_text(t.as_str(), "Bool") {
                translate_as_bool(bitstring.as_str())
            } else if contains_text(t.as_str(), "logic") {
                translate_as_bool(bitstring.as_str())
            } else {
                bitstring
            }
        },
        None => bitstring,
    }
}

/// Reads the value of a signal as the simulation gives it: an optional
/// type, a blank, and the bits. The type is handed on, the bits are read
/// under the strategy.
pub fn interpret_tywaves_value(val: &String, stategy: TranslationStrategy) -> (r: TranslationResult)
    ensures
        r.tpe.deep_view() == type_part(val@),
        r.value@ == reading(value_part(val@), type_part(val@), stategy),
{
    let mut parts = split(val.as_str(), ' ');
    proof {
        lemma_split_some(val@, ' ');
    }
    let ghost all = parts.deep_view();
    let has_type = parts.len() > 1;
    let value_part = if has_type {
        assert(all[1] == parts[1]@);
        parts.swap_remove(1)
    } else {
        assert(all[0] == parts[0]@);
        parts.swap_remove(0)
    };
    let tpe = if has_type {
        Some(parts.swap_remove(0))
    } else {
        None
    };
    let value = match stategy {
        TranslationStrategy::Auto => auto_translate(value_part, &tpe),
        TranslationStrategy::UInt => translate_as_uint(value_part.as_str()),
        TranslationStrategy::Raw => value_part,
    };
    TranslationResult { tpe, value }
}

/// Splitting gives at least one piece.
pub proof fn lemma_split_some(s: Seq<char>, c: char)
    ensures
        split_on(s, c).len() >= 1,
    decreases s.len(),
{
    let i = crate::text::index_of(s, c, 0);
    if 0 <= i < s.len() {
        lemma_split_some(s.subrange(i + 1, s.len() as int), c);
    }
}

} // verus!
