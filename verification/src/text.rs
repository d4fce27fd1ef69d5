//! Human-readable message texts: decimal and hexadecimal numbers as `format!`
//! writes them, joined with fixed words.
use vstd::prelude::*;
use crate::devcore::{decimal, decimal_string};

verus! {

/// A hexadecimal digit of `d < 16` (upper or lower case).
pub open spec fn hex_digit(d: int, upper: bool) -> char {
    if d < 10 {
        (0x30 + d) as char
    } else if upper {
        (0x41 + d - 10) as char
    } else {
        (0x61 + d - 10) as char
    }
}

/// The hexadecimal text of `v`, zero-padded to at least `width` digits (as
/// `{:0width$X}` / `{:x}` format it).
pub open spec fn hex_pad(v: nat, width: nat, upper: bool) -> Seq<char>
    decreases v, width,
{
    if v < 16 && width <= 1 {
        seq![hex_digit(v as int, upper)]
    } else {
        hex_pad(v / 16, if width > 0 { (width - 1) as nat } else { 0 }, upper) + seq![hex_digit((v % 16) as int, upper)]
    }
}

/// See [`hex_pad`].
pub fn hex_string(v: u64, width: u32, upper: bool) -> (s: String)
    ensures
        s@ == hex_pad(v as nat, width as nat, upper),
    decreases v, width,
{
    let digits = if upper { "0123456789ABCDEF" } else { "0123456789abcdef" };
    proof {
        reveal_strlit("0123456789ABCDEF");
        reveal_strlit("0123456789abcdef");
    }
    let d = (v % 16) as usize;
    let t = digits.substring_char(d, d + 1);
    assert(t@ =~= seq![hex_digit((v % 16) as int, upper)]);
    if v < 16 && width <= 1 {
        String::from_str(t)
    } else {
        let mut s = hex_string(v / 16, if width > 0 { width - 1 } else { 0 }, upper);
        s.append(t);
        s
    }
}

/// The decimal text of an integer, with a minus sign when negative.
pub open spec fn signed_decimal(v: int) -> Seq<char> {
    if v < 0 { "-"@ + decimal((-v) as nat) } else { decimal(v as nat) }
}

/// `prefix`, `value` as `0x` and lower-case hex (`{:#x}`), `suffix`.
pub(crate) fn msg_hex_usize(prefix: &str, value: usize, suffix: &str) -> (r: String)
    ensures
        r@ == prefix@ + "0x"@ + hex_pad(value as nat, 0, false) + suffix@,
{
    let h = hex_string(value as u64, 0, false);
    msg_join3(msg_join(prefix, "0x").as_str(), h.as_str(), suffix)
}

/// `prefix`, a byte as two upper-case hex digits, `suffix`.
pub(crate) fn msg_hex2(prefix: &str, value: u8, suffix: &str) -> (r: String)
    ensures
        r@ == prefix@ + hex_pad(value as nat, 2, true) + suffix@,
{
    let h = hex_string(value as u64, 2, true);
    msg_join3(prefix, h.as_str(), suffix)
}

/// `prefix`, a `u32` as eight upper-case hex digits, `suffix`.
pub(crate) fn msg_hex8(prefix: &str, value: u32, suffix: &str) -> (r: String)
    ensures
        r@ == prefix@ + hex_pad(value as nat, 8, true) + suffix@,
{
    let h = hex_string(value as u64, 8, true);
    msg_join3(prefix, h.as_str(), suffix)
}

/// `prefix`, a decimal `usize`, `suffix`.
pub(crate) fn msg_usize(prefix: &str, value: usize, suffix: &str) -> (r: String)
    ensures
        r@ == prefix@ + decimal(value as nat) + suffix@,
{
    let d = decimal_string(value as u64);
    msg_join3(prefix, d.as_str(), suffix)
}

/// The empty-overlap message of two voltage ranges.
pub(crate) fn msg_vcc_empty(el: u32, eh: u32, dl: u32, dh: u32) -> (r: String)
    ensures
        r@ == "VCC control range intersection is empty: effective "@ + decimal(el as nat) + "-"@ + decimal(eh as nat)
            + " mV vs declared "@ + decimal(dl as nat) + "-"@ + decimal(dh as nat) + " mV"@,
{
    let a = msg_join3(msg_usize("VCC control range intersection is empty: effective ", el as usize, "-").as_str(),
        decimal_string(eh as u64).as_str(), " mV vs declared ");
    let b = msg_join3(msg_usize("", dl as usize, "-").as_str(), decimal_string(dh as u64).as_str(), " mV");
    proof {
        reveal_strlit("");
    }
    let r = msg_join(a.as_str(), b.as_str());
    assert(r@ =~= "VCC control range intersection is empty: effective "@ + decimal(el as nat) + "-"@ + decimal(eh as nat)
        + " mV vs declared "@ + decimal(dl as nat) + "-"@ + decimal(dh as nat) + " mV"@);
    r
}

/// `prefix`, `a`, `middle`, `b`, `suffix` with `a` and `b` in decimal.
pub(crate) fn msg_usize2(prefix: &str, a: usize, middle: &str, b: usize, suffix: &str) -> (r: String)
    ensures
        r@ == prefix@ + decimal(a as nat) + middle@ + decimal(b as nat) + suffix@,
{
    let x = msg_usize(prefix, a, middle);
    let r = msg_usize(x.as_str(), b, suffix);
    assert(r@ =~= prefix@ + decimal(a as nat) + middle@ + decimal(b as nat) + suffix@);
    r
}

/// `prefix`, a decimal `u64`, `suffix`.
pub(crate) fn msg_u64(prefix: &str, value: u64, suffix: &str) -> (r: String)
    ensures
        r@ == prefix@ + decimal(value as nat) + suffix@,
{
    let d = decimal_string(value);
    msg_join3(prefix, d.as_str(), suffix)
}

/// The verify-mismatch message: the address (at least 8 hex digits), the
/// expected and the actual byte.
pub open spec fn mismatch_text(addr: u64, expected: u8, actual: u8) -> Seq<char> {
    "校验失败 @ 0x"@ + hex_pad(addr as nat, 8, true) + ": 期望 0x"@ + hex_pad(expected as nat, 2, true) + ", 读到 0x"@
        + hex_pad(actual as nat, 2, true)
}

/// See [`mismatch_text`].
pub(crate) fn msg_mismatch(addr: u64, expected: u8, actual: u8) -> (r: String)
    ensures
        r@ == mismatch_text(addr, expected, actual),
{
    let a = msg_join3("校验失败 @ 0x", hex_string(addr, 8, true).as_str(), ": 期望 0x");
    let b = msg_join3(a.as_str(), hex_string(expected as u64, 2, true).as_str(), ", 读到 0x");
    let r = msg_join(b.as_str(), hex_string(actual as u64, 2, true).as_str());
    assert(r@ =~= mismatch_text(addr, expected, actual));
    r
}

/// A sidecar error with an unrecognised code.
pub(crate) fn msg_rpc_error(code: i64, message: &str) -> (r: String)
    ensures
        r@ == "sidecar error "@ + signed_decimal(code as int) + ": "@ + message@,
{
    let digits = if code < 0 {
        let m: u64 = (0i128 - code as i128) as u64;
        msg_join("-", decimal_string(m).as_str())
    } else {
        decimal_string(code as u64)
    };
    let r = msg_join3("sidecar error ", digits.as_str(), msg_join(": ", message).as_str());
    assert(r@ =~= "sidecar error "@ + signed_decimal(code as int) + ": "@ + message@);
    r
}

/// `开` for on, `关` for off.
pub open spec fn on_off(on: bool) -> Seq<char> {
    if on { "开"@ } else { "关"@ }
}

/// The SR1 transition report of a write-protect change.
pub open spec fn wp_change_text(before: u8, after: u8, was_on: bool, is_on: bool) -> Seq<char> {
    "NOR 写保护已处理：SR1 0x"@ + hex_pad(before as nat, 2, true) + " -> 0x"@ + hex_pad(after as nat, 2, true)
        + "（保护位 "@ + on_off(was_on) + " -> "@ + on_off(is_on) + "）"@
}

/// See [`wp_change_text`].
pub(crate) fn msg_wp_change(before: u8, after: u8, was_on: bool, is_on: bool) -> (r: String)
    ensures
        r@ == wp_change_text(before, after, was_on, is_on),
{
    let a = msg_hex2("NOR 写保护已处理：SR1 0x", before, " -> 0x");
    let b = msg_hex2(a.as_str(), after, "（保护位 ");
    let w = if was_on { "开" } else { "关" };
    let i = if is_on { "开" } else { "关" };
    let r = msg_join3(msg_join3(b.as_str(), w, " -> ").as_str(), i, "）");
    assert(r@ =~= wp_change_text(before, after, was_on, is_on));
    r
}

/// The report that write protection was already off.
pub(crate) fn msg_wp_untouched(sr1: u8) -> (r: String)
    ensures
        r@ == "NOR 写保护未开启（SR1=0x"@ + hex_pad(sr1 as nat, 2, true) + "），无需解除"@,
{
    msg_hex2("NOR 写保护未开启（SR1=0x", sr1, "），无需解除")
}

/// `prefix`, ` @ 0x`, an address (at least 8 hex digits), `: `, a cause.
pub open spec fn at_text(prefix: Seq<char>, addr: u64, cause: Seq<char>) -> Seq<char> {
    prefix + " @ 0x"@ + hex_pad(addr as nat, 8, true) + ": "@ + cause
}

/// See [`at_text`].
pub(crate) fn msg_at(prefix: &str, addr: u64, cause: &str) -> (r: String)
    ensures
        r@ == at_text(prefix@, addr, cause@),
{
    let r = msg_join3(msg_join(prefix, " @ 0x").as_str(), hex_string(addr, 8, true).as_str(), msg_join(": ", cause).as_str());
    assert(r@ =~= at_text(prefix@, addr, cause@));
    r
}

/// A length mismatch at an address.
pub(crate) fn msg_len_at(prefix: &str, addr: u64, expected: usize, actual: usize) -> (r: String)
    ensures
        r@ == prefix@ + " @ 0x"@ + hex_pad(addr as nat, 8, true) + ": 预期 "@ + decimal(expected as nat) + " 实际 "@
            + decimal(actual as nat),
{
    let a = msg_join3(msg_join(prefix, " @ 0x").as_str(), hex_string(addr, 8, true).as_str(), ": 预期 ");
    let r = msg_usize2(a.as_str(), expected, " 实际 ", actual, "");
    proof {
        reveal_strlit("");
    }
    assert(r@ =~= prefix@ + " @ 0x"@ + hex_pad(addr as nat, 8, true) + ": 预期 "@ + decimal(expected as nat) + " 实际 "@
        + decimal(actual as nat));
    r
}

/// `prefix`, `done/total`, `suffix`.
pub(crate) fn msg_fraction(prefix: &str, done: u64, total: u64, suffix: &str) -> (r: String)
    ensures
        r@ == prefix@ + decimal(done as nat) + "/"@ + decimal(total as nat) + suffix@,
{
    let a = msg_u64(prefix, done, "/");
    let r = msg_u64(a.as_str(), total, suffix);
    assert(r@ =~= prefix@ + decimal(done as nat) + "/"@ + decimal(total as nat) + suffix@);
    r
}

/// The elapsed-wait message of a long erase.
pub(crate) fn msg_wait(prefix: &str, seconds: u64) -> (r: String)
    ensures
        r@ == prefix@ + " · 最长等待 "@ + decimal(seconds as nat) + "s"@,
{
    let r = msg_u64(msg_join(prefix, " · 最长等待 ").as_str(), seconds, "s");
    assert(r@ =~= prefix@ + " · 最长等待 "@ + decimal(seconds as nat) + "s"@);
    r
}

/// `Iterator::collect` of characters into a `String`: the string of exactly
/// those characters.
#[verifier::external_body]
pub(crate) fn string_from_chars(cs: &[char]) -> (s: String)
    ensures
        s@ == cs@,
{
    cs.iter().collect()
}

/// `a` followed by `b`.
pub fn msg_join(a: &str, b: &str) -> (r: String)
    ensures
        r@ == a@ + b@,
{
    let mut s = String::from_str(a);
    s.append(b);
    s
}

/// `a`, `b`, `c` concatenated.
pub fn msg_join3(a: &str, b: &str, c: &str) -> (r: String)
    ensures
        r@ == a@ + b@ + c@,
{
    let mut s = String::from_str(a);
    s.append(b);
    s.append(c);
    s
}

/// Whether two strings are equal.
pub fn str_eq(a: &str, b: &str) -> (r: bool)
    ensures
        r == (a@ == b@),
{
    let x = a.to_owned();
    let y = b.to_owned();
    x == y
}

/// The characters of `s`.
pub fn chars_of(s: &str) -> (r: Vec<char>)
    ensures
        r@ == s@,
{
    broadcast use vstd::string::axiom_spec_iter;
    let mut r: Vec<char> = Vec::new();
    for c in it: s.chars()
        invariant
            r@ == it.seq().take(it.index() as int),
            it.seq() == s@,
    {
        r.push(c);
        assert(r@ =~= it.seq().take(it.index() + 1));
    }
    assert(r@ =~= s@);
    r
}

/// Whether `c` is an ASCII decimal digit.
pub open spec fn is_digit_char(c: char) -> bool {
    0x30 <= (c as u32) <= 0x39
}

/// Decimal value of a string of digits.
pub open spec fn digits_value(s: Seq<char>) -> int
    decreases s.len(),
{
    if s.len() == 0 {
        0
    } else {
        digits_value(s.drop_last()) * 10 + ((s.last() as u32) - 0x30)
    }
}

pub open spec fn all_digits(s: Seq<char>) -> bool {
    forall|i: int| 0 <= i < s.len() ==> #[trigger] is_digit_char(s[i])
}

/// What `str::parse` gives for an unsigned integer type whose largest value
/// is `max`: an optional `+` sign followed by one or more decimal digits,
/// whose value must not exceed `max`.
pub open spec fn spec_parse_unsigned(s: Seq<char>, max: int) -> Option<int> {
    let d = if s.len() > 0 && s[0] == '+' {
        s.skip(1)
    } else {
        s
    };
    if d.len() == 0 || !all_digits(d) || digits_value(d) > max {
        None
    } else {
        Some(digits_value(d))
    }
}

/// A digit string has a non-negative value.
pub proof fn lemma_digits_nonneg(s: Seq<char>)
    requires
        all_digits(s),
    ensures
        digits_value(s) >= 0,
    decreases s.len(),
{
    if s.len() > 0 {
        assert(all_digits(s.drop_last())) by {
            assert forall|i: int| 0 <= i < s.drop_last().len() implies #[trigger] is_digit_char(s.drop_last()[i]) by {
                assert(is_digit_char(s[i]));
            }
        }
        lemma_digits_nonneg(s.drop_last());
        assert(is_digit_char(s[s.len() - 1]));
    }
}

/// A longer digit string never has a smaller value than its prefixes.
pub proof fn lemma_digits_prefix(s: Seq<char>, k: int)
    requires
        0 <= k <= s.len(),
        all_digits(s),
    ensures
        digits_value(s.take(k)) <= digits_value(s),
    decreases s.len() - k,
{
    if k < s.len() {
        lemma_digits_prefix(s, k + 1);
        assert(s.take(k + 1).drop_last() =~= s.take(k));
        assert(s.take(k + 1).last() == s[k]);
        assert(is_digit_char(s[k]));
        assert(all_digits(s.take(k))) by {
            assert forall|i: int| 0 <= i < k implies #[trigger] is_digit_char(s.take(k)[i]) by {
                assert(is_digit_char(s[i]));
            }
        }
        lemma_digits_nonneg(s.take(k));
    } else {
        assert(s.take(k) =~= s);
    }
}

/// Parse `s` as an unsigned decimal number no larger than `max`, with the
/// syntax `str::parse` accepts for unsigned integers.
pub fn parse_unsigned(s: &[char], max: u64) -> (r: Option<u64>)
    ensures
        match r {
            Some(v) => spec_parse_unsigned(s@, max as int) == Some(v as int),
            None => spec_parse_unsigned(s@, max as int) is None,
        },
{
    let n = s.len();
    let start: usize = if n > 0 && s[0] == '+' {
        1
    } else {
        0
    };
    let ghost d = if s@.len() > 0 && s@[0] == '+' {
        s@.skip(1)
    } else {
        s@
    };
    assert(d =~= s@.skip(start as int));
    if start == n {
        return None;
    }
    let mut v: u128 = 0;
    let mut i: usize = start;
    while i < n
        invariant
            n == s@.len(),
            start <= i <= n,
            d =~= s@.skip(start as int),
            d == (if s@.len() > 0 && s@[0] == '+' {
                s@.skip(1)
            } else {
                s@
            }),
            all_digits(d.take(i - start)),
            v as int == digits_value(d.take(i - start)),
            v <= max,
        decreases n - i,
    {
        let cu = s[i] as u32;
        if !(0x30 <= cu && cu <= 0x39) {
            assert(!is_digit_char(d[i - start]));
            assert(!all_digits(d));
            assert(spec_parse_unsigned(s@, max as int) is None);
            return None;
        }
        let digit = (cu - 0x30) as u128;
        assert(d.take(i - start + 1).drop_last() =~= d.take(i - start));
        v = v * 10 + digit;
        i = i + 1;
        assert(all_digits(d.take(i - start))) by {
            assert forall|k: int| 0 <= k < i - start implies #[trigger] is_digit_char(d.take(i - start)[k]) by {
                if k < i - start - 1 {
                    assert(d.take(i - start)[k] == d.take(i - start - 1)[k]);
                }
            }
        }
        if v > max as u128 {
            proof {
                if all_digits(d) {
                    lemma_digits_prefix(d, i - start);
                    assert(digits_value(d) > max);
                }
            }
            assert(spec_parse_unsigned(s@, max as int) is None);
            return None;
        }
    }
    assert(d.take(n - start) =~= d);
    Some(v as u64)
}


/// Value of a hexadecimal text, most significant digit first.
pub open spec fn hex_text_value(s: Seq<char>) -> int
    decreases s.len(),
{
    if s.len() == 0 {
        0
    } else {
        hex_text_value(s.drop_last()) * 16 + crate::firmware::hex_val((s.last() as u32) as u8)
    }
}

proof fn lemma_hex_digit_value(d: int, upper: bool)
    requires
        0 <= d < 16,
    ensures
        crate::firmware::hex_val((hex_digit(d, upper) as u32) as u8) == d,
{
}

/// Decimal text reads back as the number it was made from: all digits, no
/// leading zero, value `n`.
pub proof fn law_decimal_reads_back(n: nat)
    ensures
        decimal(n).len() >= 1,
        all_digits(decimal(n)),
        digits_value(decimal(n)) == n,
        n > 0 ==> decimal(n)[0] != '0',
    decreases n,
{
    let s = decimal(n);
    if n < 10 {
        assert(s =~= seq![(0x30 + n) as char]);
        assert(s.drop_last() =~= Seq::<char>::empty());
        assert(((0x30 + n) as char) as u32 == 0x30 + n);
        assert(s.last() == (0x30 + n) as char);
        assert(digits_value(s) == digits_value(s.drop_last()) * 10 + ((s.last() as u32) - 0x30));
        assert(digits_value(Seq::<char>::empty()) == 0);
        assert(is_digit_char(s[0]));
    } else {
        law_decimal_reads_back(n / 10);
        let t = decimal(n / 10);
        assert(s == t + seq![(0x30 + n % 10) as char]);
        assert(s.drop_last() =~= t);
        assert(((0x30 + n % 10) as char) as u32 == 0x30 + n % 10);
        assert(s.last() == (0x30 + n % 10) as char);
        assert(digits_value(s) == digits_value(t) * 10 + ((s.last() as u32) - 0x30));
        assert((n / 10) * 10 + n % 10 == n);
        assert forall|i: int| 0 <= i < s.len() implies #[trigger] is_digit_char(s[i]) by {
            if i < t.len() {
                assert(s[i] == t[i]);
            }
        }
        assert(s[0] == t[0]);
    }
}

/// Hexadecimal text reads back as the number it was made from, with at
/// least `width` digits.
pub proof fn law_hex_pad_reads_back(v: nat, width: nat, upper: bool)
    ensures
        hex_pad(v, width, upper).len() >= width,
        hex_pad(v, width, upper).len() >= 1,
        hex_text_value(hex_pad(v, width, upper)) == v,
    decreases v, width,
{
    let s = hex_pad(v, width, upper);
    if v < 16 && width <= 1 {
        assert(s =~= seq![hex_digit(v as int, upper)]);
        assert(s.drop_last() =~= Seq::<char>::empty());
        lemma_hex_digit_value(v as int, upper);
        assert(s.last() == hex_digit(v as int, upper));
        assert(hex_text_value(s) == hex_text_value(s.drop_last()) * 16
            + crate::firmware::hex_val((s.last() as u32) as u8));
        assert(hex_text_value(Seq::<char>::empty()) == 0);
    } else {
        let w2: nat = if width > 0 { (width - 1) as nat } else { 0 };
        law_hex_pad_reads_back(v / 16, w2, upper);
        let t = hex_pad(v / 16, w2, upper);
        assert(s == t + seq![hex_digit((v % 16) as int, upper)]);
        assert(s.drop_last() =~= t);
        lemma_hex_digit_value((v % 16) as int, upper);
        assert(s.last() == hex_digit((v % 16) as int, upper));
        assert(hex_text_value(s) == hex_text_value(t) * 16 + crate::firmware::hex_val((s.last() as u32) as u8));
        assert((v / 16) * 16 + v % 16 == v);
    }
}

} // verus!
