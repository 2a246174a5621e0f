//! Text building: decimal, octal and hexadecimal digits, and the two lossy
//! renderings error messages use.
use vstd::prelude::*;

verus! {

/// The digits of `n` in `base`, most significant first, at least one.
pub open spec fn digits(n: nat, base: nat) -> Seq<nat>
    decreases n,
{
    if base < 2 || n < base {
        seq![n]
    } else {
        proof {
            assert(n / base < n) by (nonlinear_arith)
                requires
                    n >= base,
                    base >= 2,
            ;
        }
        digits(n / base, base).push(n % base)
    }
}

/// The character of one hexadecimal digit.
pub open spec fn digit_char(d: nat) -> char {
    if d < 10 {
        (48 + d) as char
    } else {
        (87 + d) as char
    }
}

/// The ASCII byte of one hexadecimal digit.
pub open spec fn digit_byte(d: nat) -> u8 {
    if d < 10 {
        (48 + d) as u8
    } else {
        (87 + d) as u8
    }
}

/// `n` in decimal.
pub open spec fn decimal(n: nat) -> Seq<char> {
    digits(n, 10).map_values(|d: nat| digit_char(d))
}

/// `n` in octal.
pub open spec fn octal(n: nat) -> Seq<char> {
    digits(n, 8).map_values(|d: nat| digit_char(d))
}

/// `n` in decimal, as ASCII bytes.
pub open spec fn decimal_bytes(n: nat) -> Seq<u8> {
    digits(n, 10).map_values(|d: nat| digit_byte(d))
}

proof fn lemma_digits(n: nat)
    ensures
        digits(n, 10).len() > 0,
        forall|i: int| 0 <= i < digits(n, 10).len() ==> #[trigger] digits(n, 10)[i] < 10,
    decreases n,
{
    if n >= 10 {
        lemma_digits(n / 10);
    }
}

proof fn lemma_digits_injective(a: nat, b: nat)
    requires
        digits(a, 10) == digits(b, 10),
    ensures
        a == b,
    decreases a,
{
    if a < 10 && b < 10 {
        assert(digits(a, 10)[0] == a && digits(b, 10)[0] == b);
    } else if a >= 10 && b >= 10 {
        assert(digits(a, 10).drop_last() =~= digits(a / 10, 10));
        assert(digits(b, 10).drop_last() =~= digits(b / 10, 10));
        lemma_digits_injective(a / 10, b / 10);
        assert(digits(a, 10).last() == a % 10 && digits(b, 10).last() == b % 10);
    } else {
        lemma_digits(a / 10);
        lemma_digits(b / 10);
    }
}

/// The number that digits stand for, most significant first.
pub open spec fn positional(ds: Seq<nat>, base: nat) -> nat
    decreases ds.len(),
{
    if ds.len() == 0 {
        0
    } else {
        positional(ds.drop_last(), base) * base + ds.last()
    }
}

/// The digits of a number stand for it: each is below the base, and the first
/// is no zero but for zero itself.
pub proof fn law_digits_stand_for_their_number(n: nat, base: nat)
    requires
        base >= 2,
    ensures
        positional(digits(n, base), base) == n,
        digits(n, base).len() > 0,
        forall|i: int| 0 <= i < digits(n, base).len() ==> #[trigger] digits(n, base)[i] < base,
        digits(n, base)[0] == 0 ==> n == 0,
    decreases n,
{
    let ds = digits(n, base);
    if n < base {
        assert(ds.drop_last() =~= Seq::<nat>::empty());
        assert(positional(ds.drop_last(), base) * base == 0) by (nonlinear_arith)
            requires
                positional(ds.drop_last(), base) == 0,
        ;
    } else {
        assert(n / base < n && n / base > 0 && n % base < base) by (nonlinear_arith)
            requires
                n >= base,
                base >= 2,
        ;
        law_digits_stand_for_their_number(n / base, base);
        assert(ds.drop_last() =~= digits(n / base, base));
        assert((n / base) * base + n % base == n) by (nonlinear_arith)
            requires
                base >= 2,
        ;
        assert(ds[0] == digits(n / base, base)[0]);
    }
}

/// The number that decimal digits in ASCII stand for.
pub open spec fn decimal_value(text: Seq<u8>) -> nat
    decreases text.len(),
{
    if text.len() == 0 {
        0
    } else {
        (decimal_value(text.drop_last()) * 10 + (text.last() - 48)) as nat
    }
}

/// A number's decimal bytes are ASCII digits and read back as the number.
pub proof fn law_decimal_bytes_read_back(n: nat)
    ensures
        decimal_value(decimal_bytes(n)) == n,
        decimal_bytes(n).len() > 0,
        forall|i: int|
            0 <= i < decimal_bytes(n).len() ==> 48 <= #[trigger] decimal_bytes(n)[i] <= 57,
    decreases n,
{
    let text = decimal_bytes(n);
    lemma_digits(n);
    assert forall|i: int| 0 <= i < text.len() implies 48 <= #[trigger] text[i] <= 57 by {
        assert(digits(n, 10)[i] < 10);
    }
    if n < 10 {
        assert(text.drop_last() =~= Seq::<u8>::empty());
        assert(text.last() == 48 + n);
        assert(decimal_value(text.drop_last()) == 0);
    } else {
        law_decimal_bytes_read_back(n / 10);
        assert(text.drop_last() =~= decimal_bytes(n / 10));
        assert(text.last() == 48 + n % 10);
    }
}

/// Different numbers read differently.
pub proof fn lemma_decimal_injective(a: nat, b: nat)
    requires
        decimal(a) == decimal(b),
    ensures
        a == b,
{
    lemma_digits(a);
    lemma_digits(b);
    let x = digits(a, 10);
    let y = digits(b, 10);
    assert(x.len() == decimal(a).len() && y.len() == decimal(b).len());
    assert forall|i: int| 0 <= i < x.len() implies x[i] == y[i] by {
        assert(decimal(a)[i] == digit_char(x[i]));
        assert(decimal(b)[i] == digit_char(y[i]));
    }
    assert(x =~= y);
    lemma_digits_injective(a, b);
}

/// Two lower-case hexadecimal digits per byte.
pub open spec fn hex(bytes: Seq<u8>) -> Seq<char> {
    Seq::new(
        2 * bytes.len(),
        |i: int|
            if i % 2 == 0 {
                digit_char((bytes[i / 2] / 16) as nat)
            } else {
                digit_char((bytes[i / 2] % 16) as nat)
            },
    )
}

/// One digit as a string.
fn digit_str(d: u64) -> (res: &'static str)
    requires
        d < 16,
    ensures
        res@ == seq![digit_char(d as nat)],
{
    proof {
        reveal_strlit("0");
        reveal_strlit("1");
        reveal_strlit("2");
        reveal_strlit("3");
        reveal_strlit("4");
        reveal_strlit("5");
        reveal_strlit("6");
        reveal_strlit("7");
        reveal_strlit("8");
        reveal_strlit("9");
        reveal_strlit("a");
        reveal_strlit("b");
        reveal_strlit("c");
        reveal_strlit("d");
        reveal_strlit("e");
        reveal_strlit("f");
    }
    let res = match d {
        0 => "0",
        1 => "1",
        2 => "2",
        3 => "3",
        4 => "4",
        5 => "5",
        6 => "6",
        7 => "7",
        8 => "8",
        9 => "9",
        10 => "a",
        11 => "b",
        12 => "c",
        13 => "d",
        14 => "e",
        _ => "f",
    };
    assert(res@ =~= seq![digit_char(d as nat)]);
    res
}

/// Append the digits of `n`.
fn push_digits(out: &mut String, n: u64, base: u64)
    requires
        base == 8 || base == 10,
    ensures
        final(out)@ == old(out)@ + digits(n as nat, base as nat).map_values(
            |d: nat| digit_char(d),
        ),
    decreases n,
{
    let ghost f = |d: nat| digit_char(d);
    if n >= base {
        push_digits(out, n / base, base);
        let ghost mid = out@;
        out.append(digit_str(n % base));
        proof {
            let head = digits((n / base) as nat, base as nat);
            assert(digits(n as nat, base as nat) == head.push((n % base) as nat));
            assert(digits(n as nat, base as nat).map_values(f) =~= head.map_values(f).push(
                digit_char((n % base) as nat),
            ));
            assert(out@ =~= old(out)@ + digits(n as nat, base as nat).map_values(f));
        }
    } else {
        out.append(digit_str(n));
        proof {
            assert(digits(n as nat, base as nat) =~= seq![n as nat]);
            assert(out@ =~= old(out)@ + digits(n as nat, base as nat).map_values(f));
        }
    }
}

/// Append `n` in decimal.
pub fn push_decimal(out: &mut String, n: u64)
    ensures
        final(out)@ == old(out)@ + decimal(n as nat),
{
    push_digits(out, n, 10);
}

/// Append `n` in octal.
pub fn push_octal(out: &mut String, n: u64)
    ensures
        final(out)@ == old(out)@ + octal(n as nat),
{
    push_digits(out, n, 8);
}

/// `n` in decimal.
pub fn decimal_text(n: u64) -> (res: String)
    ensures
        res@ == decimal(n as nat),
{
    let mut out = String::new();
    push_decimal(&mut out, n);
    assert(out@ =~= decimal(n as nat));
    out
}

/// Append `n` in decimal, as ASCII bytes.
pub fn push_decimal_bytes(out: &mut Vec<u8>, n: u64)
    ensures
        final(out)@ == old(out)@ + decimal_bytes(n as nat),
    decreases n,
{
    let ghost f = |d: nat| digit_byte(d);
    if n >= 10 {
        push_decimal_bytes(out, n / 10);
        out.push(48 + (n % 10) as u8);
        proof {
            let head = digits((n / 10) as nat, 10);
            assert(digits(n as nat, 10) == head.push((n % 10) as nat));
            assert(digits(n as nat, 10).map_values(f) =~= head.map_values(f).push(
                digit_byte((n % 10) as nat),
            ));
            assert(out@ =~= old(out)@ + decimal_bytes(n as nat));
        }
    } else {
        out.push(48 + n as u8);
        proof {
            assert(digits(n as nat, 10) =~= seq![n as nat]);
            assert(out@ =~= old(out)@ + decimal_bytes(n as nat));
        }
    }
}

/// Append two hexadecimal digits per byte.
pub fn push_hex(out: &mut String, bytes: &[u8])
    ensures
        final(out)@ == old(out)@ + hex(bytes@),
{
    let mut i: usize = 0;
    assert(out@ =~= old(out)@ + hex(bytes@.take(0)));
    while i < bytes.len()
        invariant
            i <= bytes.len(),
            out@ == old(out)@ + hex(bytes@.take(i as int)),
        decreases bytes.len() - i,
    {
        out.append(digit_str((bytes[i] / 16) as u64));
        out.append(digit_str((bytes[i] % 16) as u64));
        i = i + 1;
        assert(out@ =~= old(out)@ + hex(bytes@.take(i as int)));
    }
    assert(bytes@.take(i as int) =~= bytes@);
}

proof fn lemma_hex_at(bytes: Seq<u8>, i: int)
    requires
        0 <= i < bytes.len(),
    ensures
        hex(bytes)[2 * i] == digit_char((bytes[i] / 16) as nat),
        hex(bytes)[2 * i + 1] == digit_char((bytes[i] % 16) as nat),
{
    assert((2 * i) / 2 == i && (2 * i) % 2 == 0);
    assert((2 * i + 1) / 2 == i && (2 * i + 1) % 2 == 1);
}

/// Distinct byte strings have distinct hexadecimal texts.
pub proof fn lemma_hex_injective(a: Seq<u8>, b: Seq<u8>)
    requires
        hex(a) == hex(b),
    ensures
        a == b,
{
    assert(hex(a).len() == 2 * a.len());
    assert(hex(b).len() == 2 * b.len());
    assert(a.len() == b.len());
    assert forall|i: int| 0 <= i < a.len() implies a[i] == b[i] by {
        lemma_hex_at(a, i);
        lemma_hex_at(b, i);
        assert(hex(a)[2 * i] == hex(b)[2 * i]);
        assert(hex(a)[2 * i + 1] == hex(b)[2 * i + 1]);
        assert(a[i] / 16 == b[i] / 16 && a[i] % 16 == b[i] % 16);
    }
    assert(a =~= b);
}

/// The UTF-8 encoding of a text.
pub open spec fn utf8(text: Seq<char>) -> Seq<u8> {
    vstd::utf8::encode_utf8(text)
}

/// The text std's lossy UTF-8 decoding gives a byte string.
pub uninterp spec fn lossy(bytes: Seq<u8>) -> Seq<char>;

/// Calls `String::from_utf8_lossy`. Claims that the text is a function of the
/// bytes, and that bytes which are UTF-8 are the text they encode. What invalid
/// bytes turn into is left unsaid.
#[verifier::external_body]
pub(crate) fn lossy_text(bytes: &[u8]) -> (res: String)
    ensures
        res@ == lossy(bytes@),
        vstd::utf8::valid_utf8(bytes@) ==> utf8(res@) == bytes@,
{
    String::from_utf8_lossy(bytes).into_owned()
}

/// The text std's `Debug` gives a string: quoted and escaped.
pub uninterp spec fn debug_quoted(text: Seq<char>) -> Seq<char>;

/// Formats a string with std's `Debug`. Claims only that the rendering is a
/// function of the string.
#[verifier::external_body]
pub(crate) fn debug_text(text: &str) -> (res: String)
    ensures
        res@ == debug_quoted(text@),
{
    format!("{:?}", text)
}

/// Append the quoted lossy rendering of a byte string.
pub fn push_quoted(out: &mut String, bytes: &[u8])
    ensures
        final(out)@ == old(out)@ + debug_quoted(lossy(bytes@)),
{
    let text = lossy_text(bytes);
    let quoted = debug_text(text.as_str());
    out.append(quoted.as_str());
}

} // verus!
