//! Base-83 numerals: unsigned integers written with 83 printable ASCII symbols,
//! most significant digit first.

use vstd::prelude::*;
use vstd::std_specs::iter::IteratorSpec;
use vstd::string::*;

verus! {

/// Why a string could not be read as a base-83 numeral.
#[derive(Debug, Clone, Copy, PartialEq, Eq, Structural)]
pub enum Base83ConversionError {
    /// The string holds a character that is not one of the 83 symbols.
    InvalidChar,
    /// The numeral is larger than `u32::MAX`.
    Overflow,
}

/// The 83 symbols; the symbol at index `d` stands for the digit `d`.
pub const ALPHABET: &'static str =
    "0123456789ABCDEFGHIJKLMNOPQRSTUVWXYZabcdefghijklmnopqrstuvwxyz#$%*+,-.:;=?@[]^_{|}~";

/// Digit of each byte value: the inverse of `ALPHABET`, with 0 for every byte that
/// is not a symbol.
pub const DIGITS: [u8; 256] = [
    0, 0, 0, 0, 0, 0, 0, 0, 0, 0, 0, 0, 0, 0, 0, 0,
    0, 0, 0, 0, 0, 0, 0, 0, 0, 0, 0, 0, 0, 0, 0, 0,
    0, 0, 0, 62, 63, 64, 0, 0, 0, 0, 65, 66, 67, 68, 69, 0,
    0, 1, 2, 3, 4, 5, 6, 7, 8, 9, 70, 71, 0, 72, 0, 73,
    74, 10, 11, 12, 13, 14, 15, 16, 17, 18, 19, 20, 21, 22, 23, 24,
    25, 26, 27, 28, 29, 30, 31, 32, 33, 34, 35, 75, 0, 76, 77, 78,
    0, 36, 37, 38, 39, 40, 41, 42, 43, 44, 45, 46, 47, 48, 49, 50,
    51, 52, 53, 54, 55, 56, 57, 58, 59, 60, 61, 79, 80, 81, 82, 0,
    0, 0, 0, 0, 0, 0, 0, 0, 0, 0, 0, 0, 0, 0, 0, 0,
    0, 0, 0, 0, 0, 0, 0, 0, 0, 0, 0, 0, 0, 0, 0, 0,
    0, 0, 0, 0, 0, 0, 0, 0, 0, 0, 0, 0, 0, 0, 0, 0,
    0, 0, 0, 0, 0, 0, 0, 0, 0, 0, 0, 0, 0, 0, 0, 0,
    0, 0, 0, 0, 0, 0, 0, 0, 0, 0, 0, 0, 0, 0, 0, 0,
    0, 0, 0, 0, 0, 0, 0, 0, 0, 0, 0, 0, 0, 0, 0, 0,
    0, 0, 0, 0, 0, 0, 0, 0, 0, 0, 0, 0, 0, 0, 0, 0,
    0, 0, 0, 0, 0, 0, 0, 0, 0, 0, 0, 0, 0, 0, 0, 0,
];

// The numerals, as mathematics.

/// The symbols as a sequence, in digit order.
pub open spec fn alphabet() -> Seq<char> {
    ALPHABET@
}

/// Whether `c` is one of the 83 symbols.
pub open spec fn is_symbol(c: char) -> bool {
    alphabet().contains(c)
}

/// The digit that `c` stands for: its index in the alphabet, and 0 where `c` is
/// no symbol.
pub open spec fn digit_of(c: char) -> nat {
    if is_symbol(c) {
        alphabet().index_of(c) as nat
    } else {
        0
    }
}

/// Whether every character of `s` is a symbol.
pub open spec fn all_symbols(s: Seq<char>) -> bool {
    forall|i: int| 0 <= i < s.len() ==> is_symbol(#[trigger] s[i])
}

/// The number that `s` denotes, read most significant digit first. A character
/// that is no symbol counts as the digit 0.
pub open spec fn value_of(s: Seq<char>) -> nat
    decreases s.len(),
{
    if s.len() == 0 {
        0
    } else {
        value_of(s.drop_last()) * 83 + digit_of(s.last())
    }
}

/// The numeral of exactly `width` digits for `n`; digits of `n` beyond the
/// width are dropped.
pub open spec fn digits_fixed(n: nat, width: nat) -> Seq<char>
    decreases width,
{
    if width == 0 {
        Seq::empty()
    } else {
        digits_fixed(n / 83, (width - 1) as nat).push(alphabet()[(n % 83) as int])
    }
}

/// The shortest numeral for `n`: a single symbol below 83, and no leading zero
/// digit above.
pub open spec fn digits(n: nat) -> Seq<char>
    decreases n,
{
    if n < 83 {
        seq![alphabet()[n as int]]
    } else {
        digits(n / 83).push(alphabet()[(n % 83) as int])
    }
}

/// What reading `s` as a numeral gives.
pub open spec fn decoded(s: Seq<char>) -> Result<u32, Base83ConversionError> {
    if !all_symbols(s) {
        Err(Base83ConversionError::InvalidChar)
    } else if value_of(s) > u32::MAX {
        Err(Base83ConversionError::Overflow)
    } else {
        Ok(value_of(s) as u32)
    }
}

/// 83 to the power `k`.
pub open spec fn pow83(k: nat) -> nat
    decreases k,
{
    if k == 0 {
        1
    } else {
        83 * pow83((k - 1) as nat)
    }
}

// Writing and reading.

/// Appends the symbol of the digit `d`.
fn push_symbol(d: u32, out: &mut String)
    requires
        d < 83,
    ensures
        final(out)@ == old(out)@.push(alphabet()[d as int]),
{
    proof {
        lemma_tables();
    }
    let i: usize = d as usize;
    let symbol = ALPHABET.substring_ascii(i, i + 1);
    out.append(symbol);
    assert(final(out)@ =~= old(out)@.push(alphabet()[d as int]));
}

/// The digit of `c`, or `None` where `c` is no symbol.
fn symbol_digit(c: char) -> (r: Option<u32>)
    ensures
        r is Some <==> is_symbol(c),
        r matches Some(d) ==> d == digit_of(c) && d < 83,
{
    proof {
        lemma_tables();
    }
    let code: u32 = c as u32;
    if code > 127 {
        proof {
            if is_symbol(c) {
                lemma_symbol_digit(c);
            }
        }
        return None;
    }
    let d: u8 = DIGITS[code as usize];
    if d < 83 && ALPHABET.get_ascii(d as usize) as u32 == code {
        proof {
            assert(alphabet()[d as int] == c);
            lemma_digit_of_symbol(d as int);
        }
        Some(d as u32)
    } else {
        proof {
            if is_symbol(c) {
                lemma_symbol_digit(c);
            }
        }
        None
    }
}

/// `n` with its `k` least significant digits removed.
spec fn shifted(n: nat, k: nat) -> nat
    decreases k,
{
    if k == 0 {
        n
    } else {
        shifted(n, (k - 1) as nat) / 83
    }
}

/// Dividing by 83 makes room for one more factor of 83 below the same bound.
proof fn lemma_pow83_step(rest: nat, i: nat)
    requires
        i <= 5,
        rest * pow83(i) <= u32::MAX,
    ensures
        i + 1 <= 5 ==> (rest / 83) * pow83(i + 1) <= u32::MAX,
        i + 1 == 6 ==> rest / 83 == 0,
{
    lemma_pow83_values();
    let q = rest / 83;
    assert(83 * q <= rest);
    assert(pow83(i + 1) == 83 * pow83(i));
    assert(q * pow83(i + 1) <= rest * pow83(i)) by (nonlinear_arith)
        requires
            83 * q <= rest,
            pow83(i + 1) == 83 * pow83(i),
    ;
    if i == 5 {
        assert(rest < 83) by (nonlinear_arith)
            requires
                rest * 3939040643 <= 0xffff_ffff,
        ;
    }
}

/// The shortest numeral for `n`, as a new string of one to six symbols.
pub fn encode(n: u32) -> (r: String)
    ensures
        r@ == digits(n as nat),
        1 <= r@.len() <= 6,
{
    let mut r = String::new();
    encode_to(n, &mut r);
    assert(r@ =~= digits(n as nat));
    r
}

/// Appends to `str` the shortest numeral for `n`: between one and six symbols.
pub fn encode_to(n: u32, str: &mut String)
    ensures
        final(str)@ == old(str)@ + digits(n as nat),
        1 <= digits(n as nat).len() <= 6,
{
    if n == 0 {
        push_symbol(0, str);
        assert(str@ =~= old(str)@ + digits(0));
        return ;
    }
    let mut stack: [u32; 6] = [0; 6];
    let mut rest: u32 = n;
    let mut i: usize = 0;
    proof {
        lemma_pow83_values();
    }
    while rest > 0
        invariant
            i <= 6,
            rest == shifted(n as nat, i as nat),
            i == 0 ==> rest > 0,
            forall|j: int| 0 <= j < i ==> stack[j] == shifted(n as nat, j as nat) % 83,
            forall|j: nat| j < i ==> #[trigger] shifted(n as nat, j) > 0,
            i <= 5 ==> rest * pow83(i as nat) <= u32::MAX,
            i == 6 ==> rest == 0,
        decreases rest,
    {
        proof {
            lemma_pow83_step(rest as nat, i as nat);
        }
        stack[i] = rest % 83;
        rest = rest / 83;
        i = i + 1;
    }
    let width: usize = i;
    let mut k: usize = width - 1;
    push_symbol(stack[k], str);
    assert(str@ =~= old(str)@ + digits(shifted(n as nat, k as nat))) by {
        assert(shifted(n as nat, (k + 1) as nat) == shifted(n as nat, k as nat) / 83);
    }
    while k > 0
        invariant
            k < width <= 6,
            forall|j: int| 0 <= j < width ==> stack[j] == shifted(n as nat, j as nat) % 83,
            forall|j: nat| j < width ==> #[trigger] shifted(n as nat, j) > 0,
            str@ == old(str)@ + digits(shifted(n as nat, k as nat)),
            digits(shifted(n as nat, k as nat)).len() == width - k,
        decreases k,
    {
        k = k - 1;
        push_symbol(stack[k], str);
        assert(str@ =~= old(str)@ + digits(shifted(n as nat, k as nat))) by {
            assert(shifted(n as nat, (k + 1) as nat) == shifted(n as nat, k as nat) / 83);
        }
    }
}

/// The numeral of exactly `iters` digits for `n`, as a new string.
pub fn encode_fixed(n: u32, iters: u8) -> (r: String)
    requires
        iters <= 6,
    ensures
        r@ == digits_fixed(n as nat, iters as nat),
        r@.len() == iters,
{
    let mut r = String::new();
    encode_fixed_to(n, iters, &mut r);
    assert(r@ =~= digits_fixed(n as nat, iters as nat));
    r
}

/// Appends to `str` the numeral of exactly `iters` digits for `n`. Where `n`
/// needs more digits, the most significant ones are left out.
pub fn encode_fixed_to(n: u32, iters: u8, str: &mut String)
    requires
        iters <= 6,
    ensures
        final(str)@ == old(str)@ + digits_fixed(n as nat, iters as nat),
        final(str)@.len() == old(str)@.len() + iters,
{
    proof {
        lemma_digits_fixed(n as nat, iters as nat);
    }
    let width: usize = iters as usize;
    let mut stack: [u32; 6] = [0; 6];
    let mut rest: u32 = n;
    let mut i: usize = 0;
    while i < width
        invariant
            i <= width <= 6,
            rest == shifted(n as nat, i as nat),
            forall|j: int| 0 <= j < i ==> stack[j] == shifted(n as nat, j as nat) % 83,
        decreases width - i,
    {
        stack[i] = rest % 83;
        rest = rest / 83;
        i = i + 1;
    }
    let mut k: usize = width;
    assert(str@ =~= old(str)@ + digits_fixed(shifted(n as nat, k as nat), 0));
    while k > 0
        invariant
            k <= width <= 6,
            forall|j: int| 0 <= j < width ==> stack[j] == shifted(n as nat, j as nat) % 83,
            str@ == old(str)@ + digits_fixed(shifted(n as nat, k as nat), (width - k) as nat),
        decreases k,
    {
        k = k - 1;
        push_symbol(stack[k], str);
        assert(str@ =~= old(str)@ + digits_fixed(
            shifted(n as nat, k as nat),
            (width - k) as nat,
        )) by {
            assert(shifted(n as nat, (k + 1) as nat) == shifted(n as nat, k as nat) / 83);
        }
    }
}

/// One step of reading digits commutes with wrapping at 2^32.
proof fn lemma_wrapping_step(v: nat, d: nat)
    ensures
        (((v % 0x1_0000_0000) * 83) % 0x1_0000_0000 + d) % 0x1_0000_0000 == (v * 83 + d)
            % 0x1_0000_0000,
{
    let m = 0x1_0000_0000int;
    let q = v as int / m;
    let r = v as int % m;
    assert(v == q * m + r);
    let q2 = (r * 83) / m;
    let r2 = (r * 83) % m;
    assert(r * 83 == q2 * m + r2);
    assert(v * 83 + d == (q * 83 + q2) * m + (r2 + d)) by (nonlinear_arith)
        requires
            v == q * m + r,
            r * 83 == q2 * m + r2,
    ;
    vstd::arithmetic::div_mod::lemma_mod_multiples_vanish(q * 83 + q2, r2 + d, m);
}

/// Reads `s` without any check: a character that is no symbol counts as the
/// digit 0, and the number wraps around at 2^32.
pub fn decode_ascii(s: &str) -> (r: u32)
    ensures
        r == value_of(s@) % 0x1_0000_0000,
        all_symbols(s@) && value_of(s@) <= u32::MAX ==> r == value_of(s@),
{
    let mut n: u32 = 0;
    let mut chars = s.chars();
    let ghost mut i: int = 0;
    assert(s@.take(0) =~= Seq::<char>::empty());
    loop
        invariant
            0 <= i <= s@.len(),
            chars.remaining() == s@.skip(i),
            n == value_of(s@.take(i)) % 0x1_0000_0000,
        ensures
            i == s@.len(),
        decreases s@.len() - i,
    {
        match chars.next() {
            None => {
                break ;
            },
            Some(c) => {
                assert(c == s@[i]);
                let d: u32 = match symbol_digit(c) {
                    Some(d) => d,
                    None => 0,
                };
                proof {
                    assert(s@.take(i + 1) =~= s@.take(i).push(c));
                    lemma_value_of_push(s@.take(i), c);
                    lemma_wrapping_step(value_of(s@.take(i)), d as nat);
                }
                n = n.wrapping_mul(83).wrapping_add(d);
                proof {
                    i = i + 1;
                }
            },
        }
    }
    assert(s@.take(i) =~= s@);
    n
}

/// Reads `s` as a numeral. Fails with `InvalidChar` where some character is
/// not a symbol, wherever it stands; otherwise with `Overflow` where the number
/// is above `u32::MAX`.
pub fn decode(s: &str) -> (r: Result<u32, Base83ConversionError>)
    ensures
        r == decoded(s@),
        r == Err::<u32, Base83ConversionError>(Base83ConversionError::InvalidChar)
            <==> !all_symbols(s@),
        r == Err::<u32, Base83ConversionError>(Base83ConversionError::Overflow) <==> all_symbols(
            s@,
        ) && value_of(s@) > u32::MAX,
        r matches Ok(n) ==> n == value_of(s@),
{
    let mut n: u32 = 0;
    let mut overflow = false;
    let mut chars = s.chars();
    let ghost mut i: int = 0;
    assert(s@.take(0) =~= Seq::<char>::empty());
    loop
        invariant
            0 <= i <= s@.len(),
            chars.remaining() == s@.skip(i),
            all_symbols(s@.take(i)),
            overflow ==> value_of(s@.take(i)) > u32::MAX,
            !overflow ==> n == value_of(s@.take(i)),
        ensures
            i == s@.len(),
        decreases s@.len() - i,
    {
        match chars.next() {
            None => {
                break ;
            },
            Some(c) => {
                assert(c == s@[i]);
                proof {
                    assert(s@.take(i + 1) =~= s@.take(i).push(c));
                    lemma_value_of_push(s@.take(i), c);
                }
                match symbol_digit(c) {
                    None => {
                        return Err(Base83ConversionError::InvalidChar);
                    },
                    Some(d) => {
                        if !overflow {
                            match n.checked_mul(83) {
                                None => {
                                    overflow = true;
                                },
                                Some(m) => match m.checked_add(d) {
                                    None => {
                                        overflow = true;
                                    },
                                    Some(v) => {
                                        n = v;
                                    },
                                },
                            }
                        }
                        proof {
                            i = i + 1;
                        }
                    },
                }
            },
        }
    }
    assert(s@.take(i) =~= s@);
    if overflow {
        Err(Base83ConversionError::Overflow)
    } else {
        Ok(n)
    }
}

// What holds of the numerals.

/// The two tables agree: every symbol is an ASCII character, and the digit
/// table sends it back to its index.
pub proof fn lemma_tables()
    ensures
        alphabet().len() == 83,
        is_ascii(ALPHABET),
        forall|d: int|
            0 <= d < 83 ==> (#[trigger] alphabet()[d]) as u32 <= 127 && DIGITS[alphabet()[d] as int]
                == d,
{
    reveal_strlit(
        "0123456789ABCDEFGHIJKLMNOPQRSTUVWXYZabcdefghijklmnopqrstuvwxyz#$%*+,-.:;=?@[]^_{|}~",
    );
    let a = alphabet();
    assert forall|d: int| 0 <= d < 83 implies (#[trigger] a[d]) as u32 <= 127 && DIGITS[a[d] as int]
        == d by {
        if d < 21 {
        } else if d < 42 {
        } else if d < 63 {
        } else {
        }
    }
    assert(vstd::utf8::is_ascii_chars(a));
}

/// Every index below 83 holds a symbol, whose digit is that index.
pub proof fn lemma_digit_of_symbol(d: int)
    requires
        0 <= d < 83,
    ensures
        is_symbol(alphabet()[d]),
        digit_of(alphabet()[d]) == d,
{
    lemma_tables();
    let c = alphabet()[d];
    assert(alphabet().contains(c));
    let i = alphabet().index_of(c);
    assert(0 <= i < 83 && alphabet()[i] == c);
    assert(DIGITS[alphabet()[i] as int] == i);
    assert(DIGITS[alphabet()[d] as int] == d);
}

/// A symbol is an ASCII character, its digit is below 83, and the alphabet
/// holds it at the index of its digit.
pub proof fn lemma_symbol_digit(c: char)
    requires
        is_symbol(c),
    ensures
        c as u32 <= 127,
        digit_of(c) < 83,
        alphabet()[digit_of(c) as int] == c,
        DIGITS[c as int] == digit_of(c),
{
    lemma_tables();
    let i = alphabet().index_of(c);
    assert(0 <= i < 83 && alphabet()[i] == c);
    assert(DIGITS[alphabet()[i] as int] == i);
}

/// The first seven powers of 83; the sixth is the first above `u32::MAX`.
pub proof fn lemma_pow83_values()
    ensures
        pow83(0) == 1,
        pow83(1) == 83,
        pow83(2) == 6889,
        pow83(3) == 571787,
        pow83(4) == 47458321,
        pow83(5) == 3939040643,
        pow83(6) == 326940373369,
{
    reveal_with_fuel(pow83, 7);
}

/// Every power of 83 is positive.
pub proof fn lemma_pow83_positive(k: nat)
    ensures
        pow83(k) > 0,
    decreases k,
{
    if k > 0 {
        lemma_pow83_positive((k - 1) as nat);
    }
}

/// Reading one more symbol multiplies the value by 83 and adds its digit.
pub proof fn lemma_value_of_push(s: Seq<char>, c: char)
    ensures
        value_of(s.push(c)) == value_of(s) * 83 + digit_of(c),
{
    assert(s.push(c).drop_last() =~= s);
}

/// A string of one character denotes the digit of that character.
pub proof fn lemma_value_of_single(s: Seq<char>)
    requires
        s.len() == 1,
    ensures
        all_symbols(s) <==> is_symbol(s[0]),
        value_of(s) == digit_of(s[0]),
{
    assert(s.drop_last().len() == 0);
    assert(value_of(s.drop_last()) == 0);
    if is_symbol(s[0]) {
        assert forall|i: int| 0 <= i < s.len() implies is_symbol(#[trigger] s[i]) by {}
    }
}

/// A character that is no symbol in a part of `s` is one in `s`.
pub proof fn lemma_part_not_symbols(s: Seq<char>, from: int, to: int)
    requires
        0 <= from <= to <= s.len(),
        !all_symbols(s.subrange(from, to)),
    ensures
        !all_symbols(s),
{
    let part = s.subrange(from, to);
    let i = choose|i: int| 0 <= i < part.len() && !is_symbol(#[trigger] part[i]);
    assert(s[from + i] == part[i]);
}

/// Two parts of symbols that follow each other make one part of symbols.
pub proof fn lemma_parts_symbols(s: Seq<char>, mid: int, to: int)
    requires
        0 <= mid <= to <= s.len(),
        all_symbols(s.subrange(0, mid)),
        all_symbols(s.subrange(mid, to)),
    ensures
        all_symbols(s.subrange(0, to)),
{
    let whole = s.subrange(0, to);
    assert forall|i: int| 0 <= i < whole.len() implies is_symbol(#[trigger] whole[i]) by {
        if i < mid {
            assert(s.subrange(0, mid)[i] == whole[i]);
        } else {
            assert(s.subrange(mid, to)[i - mid] == whole[i]);
        }
    }
}

/// Every part of a string of symbols is a string of symbols.
pub proof fn lemma_part_symbols(s: Seq<char>, from: int, to: int)
    requires
        0 <= from <= to <= s.len(),
        all_symbols(s),
    ensures
        all_symbols(s.subrange(from, to)),
{
    let part = s.subrange(from, to);
    assert forall|i: int| 0 <= i < part.len() implies is_symbol(#[trigger] part[i]) by {
        assert(part[i] == s[from + i]);
    }
}

/// The numeral of `width` digits for `n` has `width` characters, all of them
/// symbols, and denotes `n` modulo 83 to the power `width`.
pub proof fn lemma_digits_fixed(n: nat, width: nat)
    ensures
        digits_fixed(n, width).len() == width,
        all_symbols(digits_fixed(n, width)),
        value_of(digits_fixed(n, width)) == n % pow83(width),
    decreases width,
{
    if width > 0 {
        let w = (width - 1) as nat;
        let head = digits_fixed(n / 83, w);
        let c = alphabet()[(n % 83) as int];
        lemma_digits_fixed(n / 83, w);
        lemma_digit_of_symbol((n % 83) as int);
        lemma_value_of_push(head, c);
        lemma_pow83_positive(w);
        vstd::arithmetic::div_mod::lemma_mod_breakdown(n as int, 83, pow83(w) as int);
        assert(value_of(head.push(c)) == 83 * ((n / 83) % pow83(w)) + n % 83);
    }
}

/// The shortest numeral for `n` is made of symbols, denotes `n`, and starts
/// with the zero symbol only where `n` is 0.
pub proof fn lemma_digits(n: nat)
    ensures
        digits(n).len() >= 1,
        all_symbols(digits(n)),
        value_of(digits(n)) == n,
        n > 0 ==> digit_of(digits(n)[0]) > 0,
    decreases n,
{
    lemma_digit_of_symbol((n % 83) as int);
    let c = alphabet()[(n % 83) as int];
    if n < 83 {
        lemma_value_of_push(Seq::<char>::empty(), c);
        assert(digits(n) =~= Seq::<char>::empty().push(c));
    } else {
        lemma_digits(n / 83);
        lemma_value_of_push(digits(n / 83), c);
    }
}

/// Reading the shortest numeral for `n` gives `n` back.
pub proof fn lemma_decode_encode(n: u32)
    ensures
        decoded(digits(n as nat)) == Ok::<u32, Base83ConversionError>(n),
{
    lemma_digits(n as nat);
}

/// Reading the numeral of `width` digits for `n` gives `n` back, where `n` is
/// below 83 to the power `width`.
pub proof fn lemma_decode_encode_fixed(n: u32, width: nat)
    requires
        n < pow83(width),
    ensures
        decoded(digits_fixed(n as nat, width)) == Ok::<u32, Base83ConversionError>(n),
{
    lemma_digits_fixed(n as nat, width);
    vstd::arithmetic::div_mod::lemma_small_mod(n as nat, pow83(width));
}

/// A string of symbols denotes a number below 83 to the power of its length,
/// and is the numeral of that width for that number: no two strings of symbols
/// of one length denote the same number.
pub proof fn lemma_encode_fixed_decode(s: Seq<char>)
    requires
        all_symbols(s),
    ensures
        value_of(s) < pow83(s.len()),
        digits_fixed(value_of(s), s.len()) == s,
    decreases s.len(),
{
    if s.len() > 0 {
        let head = s.drop_last();
        let c = s.last();
        assert(is_symbol(c));
        assert(all_symbols(head)) by {
            assert forall|i: int| 0 <= i < head.len() implies is_symbol(#[trigger] head[i]) by {
                assert(head[i] == s[i]);
            }
        }
        lemma_encode_fixed_decode(head);
        lemma_symbol_digit(c);
        let v = value_of(head);
        let d = digit_of(c);
        assert(value_of(s) == v * 83 + d);
        assert((v * 83 + d) / 83 == v && (v * 83 + d) % 83 == d) by (nonlinear_arith)
            requires
                0 <= d < 83,
                0 <= v,
        ;
        assert(digits_fixed(value_of(s), s.len()) =~= s);
    }
}

/// The shortest numeral for `n` is the numeral of its own width for `n`.
pub proof fn lemma_digits_is_fixed(n: nat)
    ensures
        digits(n) == digits_fixed(n, digits(n).len()),
    decreases n,
{
    if n < 83 {
        assert(digits_fixed(n / 83, 0) =~= Seq::<char>::empty());
        assert(digits(n) =~= digits_fixed(n, 1));
    } else {
        lemma_digits_is_fixed(n / 83);
        assert(digits(n) =~= digits_fixed(n, digits(n).len()));
    }
}

/// No string of symbols is shorter than the shortest numeral for the number
/// that it denotes.
pub proof fn lemma_digits_shortest(s: Seq<char>)
    requires
        all_symbols(s),
        s.len() >= 1,
    ensures
        digits(value_of(s)).len() <= s.len(),
    decreases s.len(),
{
    let head = s.drop_last();
    let c = s.last();
    assert(is_symbol(c));
    lemma_symbol_digit(c);
    let v = value_of(head);
    let d = digit_of(c);
    assert(value_of(s) == v * 83 + d);
    assert((v * 83 + d) / 83 == v) by (nonlinear_arith)
        requires
            0 <= d < 83,
            0 <= v,
    ;
    if s.len() == 1 {
        assert(v == 0);
    } else if value_of(s) >= 83 {
        assert(all_symbols(head)) by {
            assert forall|i: int| 0 <= i < head.len() implies is_symbol(#[trigger] head[i]) by {
                assert(head[i] == s[i]);
            }
        }
        lemma_digits_shortest(head);
    }
}

} // verus!
