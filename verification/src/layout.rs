//! The layout of a blurhash: what the string holds, what writing gives and what
//! reading gives, as mathematics.

use vstd::prelude::*;

use crate::base83::{
    all_symbols, digit_of, digits_fixed, is_symbol, lemma_digits_fixed, lemma_encode_fixed_decode,
    lemma_part_symbols, lemma_pow83_values, lemma_value_of_single, value_of,
    Base83ConversionError,
};
use crate::convert::{
    lemma_pack_unpack_levels, lemma_pack_unpack_rgb, lemma_unpack_pack_levels,
    lemma_unpack_pack_rgb, levels_in_range, packed_levels, packed_rgb, unpacked_levels,
    unpacked_rgb,
};
use crate::BlurhashError;

verus! {

// What a blurhash holds, and how it is laid out.

/// What a blurhash holds, as mathematical values.
pub struct Fields {
    /// Number of components along the x axis.
    pub x_components: nat,
    /// Number of components along the y axis.
    pub y_components: nat,
    /// The quantised maximum AC magnitude.
    pub max_ac: nat,
    /// The DC colour: red, green, blue.
    pub dc: Seq<u8>,
    /// The levels of the AC components, row by row.
    pub acs: Seq<Seq<u8>>,
}

impl Fields {
    /// The number of components, DC included.
    pub open spec fn count(self) -> nat {
        self.x_components * self.y_components
    }

    /// Whether these values can stand in a blurhash: a grid from 1x1 to 9x9,
    /// a maximum of at most 82, a colour of three channels, and one triple of
    /// levels from 0 to 18 for each component but the first.
    pub open spec fn wf(self) -> bool {
        &&& 1 <= self.x_components <= 9
        &&& 1 <= self.y_components <= 9
        &&& self.max_ac <= 82
        &&& self.dc.len() == 3
        &&& self.acs.len() == self.count() - 1
        &&& forall|i: int| 0 <= i < self.acs.len() ==> levels_in_range(#[trigger] self.acs[i])
    }

    /// The digit that announces the grid.
    pub open spec fn header(self) -> nat {
        ((self.x_components - 1) + (self.y_components - 1) * 9) as nat
    }

    /// The digit written for the maximum AC magnitude: 0 where there is no AC
    /// component.
    pub open spec fn max_ac_digit(self) -> nat {
        if self.acs.len() > 0 {
            self.max_ac
        } else {
            0
        }
    }
}

/// The AC fields of a blurhash: two digits for each component, in order.
pub open spec fn written_acs(acs: Seq<Seq<u8>>) -> Seq<char>
    decreases acs.len(),
{
    if acs.len() == 0 {
        Seq::empty()
    } else {
        written_acs(acs.drop_last()) + digits_fixed(packed_levels(acs.last()), 2)
    }
}

/// The blurhash of `f`.
pub open spec fn written(f: Fields) -> Seq<char> {
    digits_fixed(f.header(), 1) + digits_fixed(f.max_ac_digit(), 1) + digits_fixed(
        packed_rgb(f.dc),
        4,
    ) + written_acs(f.acs)
}

/// The length of a blurhash of `count` components.
pub open spec fn blurhash_len(count: nat) -> nat {
    (1 + 1 + 4 + 2 * (count - 1)) as nat
}

/// The grid that the first character of `s` announces. The checks come in this
/// order: the string is not empty; its first character is a symbol; the grid
/// is at most 9x9; the length is the one of that grid.
pub open spec fn parsed_grid(s: Seq<char>) -> Result<(nat, nat), BlurhashError> {
    if s.len() == 0 {
        Err(BlurhashError::InvalidLength)
    } else if !is_symbol(s[0]) {
        Err(BlurhashError::BadFormat(Base83ConversionError::InvalidChar))
    } else {
        let total = digit_of(s[0]);
        let x = total % 9 + 1;
        let y = total / 9 + 1;
        if x > 9 || y > 9 {
            Err(BlurhashError::UnsupportedMode)
        } else if s.len() != blurhash_len(x * y) {
            Err(BlurhashError::InvalidLength)
        } else {
            Ok((x, y))
        }
    }
}

/// The AC field of index `i` of the blurhash `s`: two characters.
pub open spec fn ac_field(s: Seq<char>, i: int) -> Seq<char> {
    s.subrange(6 + 2 * i, 8 + 2 * i)
}

/// The levels that the AC field of index `i` of `s` holds.
pub open spec fn parsed_ac(s: Seq<char>, i: int) -> Seq<u8> {
    unpacked_levels(value_of(ac_field(s, i)))
}

/// What reading `s` as a blurhash gives: after the checks on the grid, every
/// character must be a symbol.
pub open spec fn parsed(s: Seq<char>) -> Result<Fields, BlurhashError> {
    match parsed_grid(s) {
        Err(e) => Err(e),
        Ok((x, y)) => if !all_symbols(s) {
            Err(BlurhashError::BadFormat(Base83ConversionError::InvalidChar))
        } else {
            Ok(
                Fields {
                    x_components: x,
                    y_components: y,
                    max_ac: digit_of(s[1]),
                    dc: unpacked_rgb(value_of(s.subrange(2, 6))),
                    acs: Seq::new((x * y - 1) as nat, |i: int| parsed_ac(s, i)),
                },
            )
        },
    }
}

/// Whether `s` is a blurhash in canonical form, the form that writing gives:
/// it can be read, the number of its colour field is below 2^24, the number of
/// each AC field is below 19^3, and its second digit is 0 where it has no AC
/// field.
pub open spec fn canonical(s: Seq<char>) -> bool {
    &&& parsed(s) is Ok
    &&& value_of(s.subrange(2, 6)) <= 0xFF_FFFF
    &&& forall|i: int| 0 <= i && 8 + 2 * i <= s.len() ==> value_of(#[trigger] ac_field(s, i)) <= 6858
    &&& s.len() == 6 ==> digit_of(s[1]) == 0
}

// What holds of writing and reading.

/// The AC fields end with the field of the last component.
pub proof fn lemma_written_acs_push(acs: Seq<Seq<u8>>, last: Seq<u8>)
    ensures
        written_acs(acs.push(last)) == written_acs(acs) + digits_fixed(packed_levels(last), 2),
{
    assert(acs.push(last).drop_last() =~= acs);
}

/// The AC fields of `acs` take two symbols for each component, and the field of
/// each component is the numeral of its packed levels.
pub proof fn lemma_written_acs(acs: Seq<Seq<u8>>)
    ensures
        written_acs(acs).len() == 2 * acs.len(),
        all_symbols(written_acs(acs)),
        forall|i: int|
            0 <= i < acs.len() ==> #[trigger] written_acs(acs).subrange(2 * i, 2 * i + 2)
                == digits_fixed(packed_levels(acs[i]), 2),
    decreases acs.len(),
{
    if acs.len() > 0 {
        let head = acs.drop_last();
        let last = digits_fixed(packed_levels(acs.last()), 2);
        lemma_written_acs(head);
        lemma_digits_fixed(packed_levels(acs.last()), 2);
        let w = written_acs(acs);
        assert(w == written_acs(head) + last);
        assert forall|i: int| 0 <= i < w.len() implies is_symbol(#[trigger] w[i]) by {
            if i < written_acs(head).len() {
                assert(w[i] == written_acs(head)[i]);
            } else {
                assert(w[i] == last[i - written_acs(head).len()]);
            }
        }
        assert forall|i: int| 0 <= i < acs.len() implies #[trigger] w.subrange(2 * i, 2 * i + 2)
            == digits_fixed(packed_levels(acs[i]), 2) by {
            if i < head.len() {
                assert(w.subrange(2 * i, 2 * i + 2) =~= written_acs(head).subrange(
                    2 * i,
                    2 * i + 2,
                ));
                assert(head[i] == acs[i]);
            } else {
                assert(w.subrange(2 * i, 2 * i + 2) =~= last);
            }
        }
    }
}

/// The parts of a written blurhash: where each field stands, and that every
/// character is a symbol.
pub proof fn lemma_written_parts(f: Fields)
    requires
        f.wf(),
    ensures
        written(f).len() == 6 + 2 * f.acs.len(),
        written(f).len() == blurhash_len(f.count()),
        all_symbols(written(f)),
        written(f).subrange(0, 1) == digits_fixed(f.header(), 1),
        written(f).subrange(1, 2) == digits_fixed(f.max_ac_digit(), 1),
        written(f).subrange(2, 6) == digits_fixed(packed_rgb(f.dc), 4),
        forall|i: int|
            0 <= i < f.acs.len() ==> #[trigger] ac_field(written(f), i) == digits_fixed(
                packed_levels(f.acs[i]),
                2,
            ),
{
    let s = written(f);
    let h = digits_fixed(f.header(), 1);
    let m = digits_fixed(f.max_ac_digit(), 1);
    let d = digits_fixed(packed_rgb(f.dc), 4);
    let a = written_acs(f.acs);
    lemma_digits_fixed(f.header(), 1);
    lemma_digits_fixed(f.max_ac_digit(), 1);
    lemma_digits_fixed(packed_rgb(f.dc), 4);
    lemma_written_acs(f.acs);
    assert(s.len() == 6 + 2 * f.acs.len());
    assert forall|i: int| 0 <= i < s.len() implies is_symbol(#[trigger] s[i]) by {
        if i < 1 {
            assert(s[i] == h[i]);
        } else if i < 2 {
            assert(s[i] == m[i - 1]);
        } else if i < 6 {
            assert(s[i] == d[i - 2]);
        } else {
            assert(s[i] == a[i - 6]);
        }
    }
    assert(s.subrange(0, 1) =~= h);
    assert(s.subrange(1, 2) =~= m);
    assert(s.subrange(2, 6) =~= d);
    assert forall|i: int| 0 <= i < f.acs.len() implies #[trigger] ac_field(s, i) == digits_fixed(
        packed_levels(f.acs[i]),
        2,
    ) by {
        assert(ac_field(s, i) =~= a.subrange(2 * i, 2 * i + 2));
    }
}

/// The first two digits of a written blurhash are the digit of the grid and
/// the digit of the maximum.
proof fn lemma_written_digits(f: Fields)
    requires
        f.wf(),
    ensures
        written(f).len() >= 6,
        is_symbol(written(f)[0]),
        digit_of(written(f)[0]) == f.header(),
        digit_of(written(f)[1]) == f.max_ac_digit(),
{
    let s = written(f);
    let h = digits_fixed(f.header(), 1);
    let m = digits_fixed(f.max_ac_digit(), 1);
    lemma_written_parts(f);
    lemma_pow83_values();
    lemma_digits_fixed(f.header(), 1);
    lemma_digits_fixed(f.max_ac_digit(), 1);
    lemma_value_of_single(h);
    lemma_value_of_single(m);
    assert(s[0] == s.subrange(0, 1)[0]);
    assert(s[1] == s.subrange(1, 2)[0]);
}

/// The digit of a grid gives the grid back.
proof fn lemma_header(f: Fields)
    requires
        1 <= f.x_components <= 9,
        1 <= f.y_components <= 9,
    ensures
        f.header() <= 80,
        f.header() % 9 + 1 == f.x_components,
        f.header() / 9 + 1 == f.y_components,
{
    let total = f.header();
    let (x, y) = (f.x_components, f.y_components);
    assert(total <= 80 && total % 9 + 1 == x && total / 9 + 1 == y) by (nonlinear_arith)
        requires
            total == (x - 1) + (y - 1) * 9,
            1 <= x <= 9,
            1 <= y <= 9,
    ;
}

/// The grid that a written blurhash announces is the grid that was written.
proof fn lemma_parsed_grid_written(f: Fields)
    requires
        f.wf(),
    ensures
        parsed_grid(written(f)) == Ok::<(nat, nat), BlurhashError>(
            (f.x_components, f.y_components),
        ),
{
    lemma_written_parts(f);
    lemma_written_digits(f);
    lemma_header(f);
}

/// A blurhash that was written can be read, and reading it gives back what was
/// written: the grid, the colour and the levels as they were, and the maximum
/// as it was written, which is 0 where there is no AC component.
pub proof fn lemma_parsed_written(f: Fields)
    requires
        f.wf(),
    ensures
        parsed(written(f)) == Ok::<Fields, BlurhashError>(
            Fields { max_ac: f.max_ac_digit(), ..f },
        ),
{
    let s = written(f);
    lemma_written_parts(f);
    lemma_written_digits(f);
    lemma_parsed_grid_written(f);
    let dc = unpacked_rgb(value_of(s.subrange(2, 6)));
    assert(dc == f.dc) by {
        lemma_pow83_values();
        lemma_digits_fixed(packed_rgb(f.dc), 4);
        assert(packed_rgb(f.dc) < 47458321);
        lemma_unpack_pack_rgb(f.dc);
    }
    let acs = Seq::new((f.count() - 1) as nat, |i: int| parsed_ac(s, i));
    assert(acs =~= f.acs) by {
        assert forall|i: int| 0 <= i < f.acs.len() implies acs[i] == f.acs[i] by {
            lemma_pow83_values();
            lemma_digits_fixed(packed_levels(f.acs[i]), 2);
            assert(levels_in_range(f.acs[i]));
            lemma_unpack_pack_levels(f.acs[i]);
            assert(ac_field(s, i) == digits_fixed(packed_levels(f.acs[i]), 2));
        }
    }
}

/// Every written blurhash is in canonical form.
pub proof fn lemma_written_canonical(f: Fields)
    requires
        f.wf(),
    ensures
        canonical(written(f)),
{
    let s = written(f);
    lemma_parsed_written(f);
    lemma_written_parts(f);
    lemma_written_digits(f);
    assert(value_of(s.subrange(2, 6)) <= 0xFF_FFFF) by {
        lemma_pow83_values();
        lemma_digits_fixed(packed_rgb(f.dc), 4);
    }
    assert forall|i: int| 0 <= i && 8 + 2 * i <= s.len() implies value_of(
        #[trigger] ac_field(s, i),
    ) <= 6858 by {
        lemma_pow83_values();
        assert(ac_field(s, i) == digits_fixed(packed_levels(f.acs[i]), 2));
        lemma_digits_fixed(packed_levels(f.acs[i]), 2);
        assert(levels_in_range(f.acs[i]));
    }
}

/// The AC fields written for the first `k` components that were read from `s`
/// are the characters of `s` that hold them.
proof fn lemma_written_parsed_acs(s: Seq<char>, k: nat)
    requires
        all_symbols(s),
        6 + 2 * k <= s.len(),
        forall|i: int| 0 <= i && 8 + 2 * i <= s.len() ==> value_of(#[trigger] ac_field(s, i)) <= 6858,
    ensures
        written_acs(Seq::new(k, |i: int| parsed_ac(s, i))) == s.subrange(6, 6 + 2 * k as int),
    decreases k,
{
    let acs = Seq::new(k, |i: int| parsed_ac(s, i));
    if k == 0 {
        assert(written_acs(acs) =~= s.subrange(6, 6));
    } else {
        let j = (k - 1) as nat;
        lemma_written_parsed_acs(s, j);
        assert(acs.drop_last() =~= Seq::new(j, |i: int| parsed_ac(s, i)));
        let part = ac_field(s, j as int);
        lemma_part_symbols(s, 6 + 2 * j as int, 8 + 2 * j as int);
        lemma_encode_fixed_decode(part);
        assert(value_of(part) <= 6858);
        lemma_pack_unpack_levels(value_of(part));
        assert(acs.last() == unpacked_levels(value_of(part)));
        assert(digits_fixed(packed_levels(acs.last()), 2) == part);
        assert(written_acs(acs) == s.subrange(6, 6 + 2 * j as int) + part);
        assert(s.subrange(6, 6 + 2 * j as int) + part =~= s.subrange(6, 6 + 2 * k as int));
    }
}

/// Writing what was read from a blurhash in canonical form gives that
/// blurhash back.
pub proof fn lemma_written_parsed(s: Seq<char>)
    requires
        canonical(s),
    ensures
        written(parsed(s)->Ok_0) == s,
{
    let f = parsed(s)->Ok_0;
    assert(parsed_grid(s) is Ok);
    assert(all_symbols(s));
    assert(is_symbol(s[0]));
    let total = digit_of(s[0]);
    assert(f.x_components == total % 9 + 1 && f.y_components == total / 9 + 1);
    assert(s.len() == blurhash_len(f.count()));
    assert(f.count() >= 1) by (nonlinear_arith)
        requires
            f.count() == f.x_components * f.y_components,
            f.x_components >= 1,
            f.y_components >= 1,
    ;
    assert(f.acs.len() == f.count() - 1);
    assert(s.len() == 6 + 2 * f.acs.len());
    let head = s.subrange(0, 1);
    let max = s.subrange(1, 2);
    let dc = s.subrange(2, 6);
    lemma_part_symbols(s, 0, 1);
    lemma_part_symbols(s, 1, 2);
    lemma_part_symbols(s, 2, 6);
    assert(digits_fixed(f.header(), 1) == head) by {
        lemma_value_of_single(head);
        assert(head[0] == s[0]);
        lemma_encode_fixed_decode(head);
        assert(f.header() == total);
    }
    assert(digits_fixed(f.max_ac_digit(), 1) == max) by {
        lemma_value_of_single(max);
        assert(max[0] == s[1]);
        lemma_encode_fixed_decode(max);
        assert(f.max_ac_digit() == digit_of(s[1]));
    }
    assert(digits_fixed(packed_rgb(f.dc), 4) == dc) by {
        lemma_encode_fixed_decode(dc);
        lemma_pack_unpack_rgb(value_of(dc));
    }
    assert(written_acs(f.acs) == s.subrange(6, s.len() as int)) by {
        lemma_written_parsed_acs(s, f.acs.len());
        assert(f.acs =~= Seq::new(f.acs.len(), |i: int| parsed_ac(s, i)));
    }
    assert(head + max + dc + s.subrange(6, s.len() as int) =~= s);
}

/// The empty string fails with `InvalidLength`, and so does every string that
/// announces a grid of at most 9x9 and has not the length of that grid.
pub proof fn lemma_invalid_length(s: Seq<char>)
    requires
        s.len() > 0 ==> {
            &&& is_symbol(s[0])
            &&& digit_of(s[0]) / 9 + 1 <= 9
            &&& s.len() != blurhash_len((digit_of(s[0]) % 9 + 1) * (digit_of(s[0]) / 9 + 1))
        },
    ensures
        parsed(s) == Err::<Fields, BlurhashError>(BlurhashError::InvalidLength),
{
}

} // verus!
