//! Blurhash strings: the quantised low-frequency content of an image, written
//! in base 83.
//!
//! A blurhash holds, in this order: one digit for the size of the component
//! grid, one digit for the quantised maximum AC magnitude, four digits for the
//! DC colour, and two digits for each AC component.

use vstd::prelude::*;
use vstd::string::*;

pub mod base83;
pub mod convert;
pub mod layout;

use crate::base83::{
    all_symbols, digits_fixed, encode_fixed_to, lemma_digits_fixed, lemma_encode_fixed_decode,
    lemma_part_not_symbols, lemma_parts_symbols, lemma_pow83_values, lemma_symbol_digit,
    lemma_value_of_single, value_of, Base83ConversionError,
};
use crate::convert::{
    decode_ac, decode_dc, encode_ac, packed_levels, packed_rgb, to_rgb, Levels, Rgb,
};
use crate::layout::{
    blurhash_len, lemma_written_acs_push, parsed, parsed_ac, parsed_grid, written, written_acs,
    Fields,
};

verus! {

/// Why a string could not be read as a blurhash.
#[derive(Debug, Clone, Copy, PartialEq, Eq, Structural)]
pub enum BlurhashError {
    /// The string is empty, or its length is not the one that its first digit
    /// announces.
    InvalidLength,
    /// The punch is not a positive number.
    InvalidPunch,
    /// A field of the string is no base-83 numeral.
    BadFormat(Base83ConversionError),
    /// The first digit announces more than 9 components along an axis.
    UnsupportedMode,
}

impl From<Base83ConversionError> for BlurhashError {
    fn from(err: Base83ConversionError) -> (r: Self) {
        BlurhashError::BadFormat(err)
    }
}

impl vstd::std_specs::convert::FromSpecImpl<Base83ConversionError> for BlurhashError {
    open spec fn obeys_from_spec() -> bool {
        true
    }

    open spec fn from_spec(err: Base83ConversionError) -> Self {
        BlurhashError::BadFormat(err)
    }
}

impl BlurhashError {
    /// The text that describes this error.
    pub open spec fn message_text(self) -> Seq<char> {
        match self {
            BlurhashError::InvalidLength =>
                "The extracted length of the blurhash does not match the actual length"@,
            BlurhashError::InvalidPunch => "The punch parameter must be positive and non-zero"@,
            BlurhashError::BadFormat(Base83ConversionError::InvalidChar) =>
                "The blurhash contains invalid base83 codes (InvalidChar)"@,
            BlurhashError::BadFormat(Base83ConversionError::Overflow) =>
                "The blurhash contains invalid base83 codes (Overflow)"@,
            BlurhashError::UnsupportedMode =>
                "The blurhash's number of X or Y components was greater than 9"@,
        }
    }

    /// Describes this error in words.
    pub fn message(&self) -> (r: String)
        ensures
            r@ == self.message_text(),
    {
        match self {
            BlurhashError::InvalidLength => String::from_str(
                "The extracted length of the blurhash does not match the actual length",
            ),
            BlurhashError::InvalidPunch => String::from_str(
                "The punch parameter must be positive and non-zero",
            ),
            BlurhashError::BadFormat(Base83ConversionError::InvalidChar) => String::from_str(
                "The blurhash contains invalid base83 codes (InvalidChar)",
            ),
            BlurhashError::BadFormat(Base83ConversionError::Overflow) => String::from_str(
                "The blurhash contains invalid base83 codes (Overflow)",
            ),
            BlurhashError::UnsupportedMode => String::from_str(
                "The blurhash's number of X or Y components was greater than 9",
            ),
        }
    }
}

/// The quantised result of a discrete cosine transform, as a blurhash stores
/// it.
#[derive(Debug, PartialEq, Eq)]
pub struct QuantizedDct {
    max_ac: u32,
    dc: Rgb,
    acs: Vec<Levels>,
    x_components: usize,
    y_components: usize,
}

impl View for QuantizedDct {
    type V = Fields;

    closed spec fn view(&self) -> Fields {
        Fields {
            x_components: self.x_components as nat,
            y_components: self.y_components as nat,
            max_ac: self.max_ac as nat,
            dc: self.dc@,
            acs: Seq::new(self.acs@.len(), |i: int| self.acs@[i]@),
        }
    }
}

impl Clone for QuantizedDct {
    fn clone(&self) -> (r: Self)
        ensures
            r@ == self@,
    {
        proof {
            use_type_invariant(self);
        }
        let mut acs: Vec<Levels> = Vec::with_capacity(self.acs.len());
        let mut i: usize = 0;
        while i < self.acs.len()
            invariant
                0 <= i <= self.acs.len(),
                acs@ == self.acs@.take(i as int),
            decreases self.acs.len() - i,
        {
            acs.push(self.acs[i]);
            assert(acs@ =~= self.acs@.take(i + 1));
            i = i + 1;
        }
        assert(acs@ =~= self.acs@);
        let r = QuantizedDct {
            max_ac: self.max_ac,
            dc: self.dc,
            acs,
            x_components: self.x_components,
            y_components: self.y_components,
        };
        assert(r@.acs =~= self@.acs);
        r
    }
}

impl QuantizedDct {
    #[verifier::type_invariant]
    spec fn valid(&self) -> bool {
        self@.wf()
    }

    /// What `new` stores, as mathematical values.
    pub open spec fn fields_of(
        max_ac: u32,
        dc: Rgb,
        acs: Seq<Levels>,
        x_components: usize,
        y_components: usize,
    ) -> Fields {
        Fields {
            x_components: x_components as nat,
            y_components: y_components as nat,
            max_ac: max_ac as nat,
            dc: dc@,
            acs: Seq::new(acs.len(), |i: int| acs[i]@),
        }
    }

    /// Stores quantised components. The grid must be from 1x1 to 9x9, the
    /// maximum at most 82, and there must be one triple of levels, each from 0
    /// to 18, for each component but the first.
    pub fn new(
        max_ac: u32,
        dc: Rgb,
        acs: Vec<Levels>,
        x_components: usize,
        y_components: usize,
    ) -> (r: QuantizedDct)
        requires
            Self::fields_of(max_ac, dc, acs@, x_components, y_components).wf(),
        ensures
            r@ == Self::fields_of(max_ac, dc, acs@, x_components, y_components),
            r@.wf(),
    {
        QuantizedDct { max_ac, dc, acs, x_components, y_components }
    }

    /// The blurhash of these components.
    pub fn into_blurhash(self) -> (r: String)
        ensures
            r@ == written(self@),
            r@.len() == blurhash_len(self@.count()),
    {
        encode(&self)
    }

    /// The quantised maximum AC magnitude, at most 82.
    pub fn max_ac(&self) -> (r: u32)
        ensures
            r == self@.max_ac,
            r <= 82,
    {
        proof {
            use_type_invariant(self);
        }
        self.max_ac
    }

    /// The levels of the AC components: all components but the first, row by
    /// row.
    pub fn acs(&self) -> (r: &[Levels])
        ensures
            r@.len() == self@.acs.len(),
            r@.len() == self@.count() - 1,
            forall|i: int| 0 <= i < r@.len() ==> (#[trigger] r@[i])@ == self@.acs[i],
    {
        proof {
            use_type_invariant(self);
        }
        self.acs.as_slice()
    }

    /// The DC colour: the average colour of the image.
    pub fn dc(&self) -> (r: &Rgb)
        ensures
            r@ == self@.dc,
    {
        &self.dc
    }

    /// The number of components along the x axis, from 1 to 9.
    pub fn x_components(&self) -> (r: usize)
        ensures
            r == self@.x_components,
            1 <= r <= 9,
    {
        proof {
            use_type_invariant(self);
        }
        self.x_components
    }

    /// The number of components along the y axis, from 1 to 9.
    pub fn y_components(&self) -> (r: usize)
        ensures
            r == self@.y_components,
            1 <= r <= 9,
    {
        proof {
            use_type_invariant(self);
        }
        self.y_components
    }

    /// The size of the component grid: along x, then along y.
    pub fn dim(&self) -> (r: (usize, usize))
        ensures
            r.0 == self@.x_components,
            r.1 == self@.y_components,
            self@.wf(),
    {
        proof {
            use_type_invariant(self);
        }
        (self.x_components, self.y_components)
    }
}

/// Writes the blurhash of `dct`: `1 + 1 + 4 + 2 * (n - 1)` symbols for `n`
/// components.
pub fn encode(dct: &QuantizedDct) -> (r: String)
    ensures
        r@ == written(dct@),
        r@.len() == blurhash_len(dct@.count()),
{
    proof {
        use_type_invariant(dct);
    }
    let mut blurhash = String::new();
    let header: usize = (dct.x_components - 1) + (dct.y_components - 1) * 9;
    encode_fixed_to(header as u32, 1, &mut blurhash);
    if dct.acs.len() > 0 {
        encode_fixed_to(dct.max_ac, 1, &mut blurhash);
    } else {
        encode_fixed_to(0, 1, &mut blurhash);
    }
    encode_fixed_to(to_rgb(dct.dc), 4, &mut blurhash);
    proof {
        lemma_digits_fixed(dct@.header(), 1);
        lemma_digits_fixed(dct@.max_ac_digit(), 1);
        lemma_digits_fixed(packed_rgb(dct@.dc), 4);
    }
    let ghost head = blurhash@;
    assert(head =~= digits_fixed(dct@.header(), 1) + digits_fixed(dct@.max_ac_digit(), 1)
        + digits_fixed(packed_rgb(dct@.dc), 4));
    assert(dct@.acs.take(0) =~= Seq::<Seq<u8>>::empty());
    let mut i: usize = 0;
    while i < dct.acs.len()
        invariant
            0 <= i <= dct.acs.len(),
            dct@.wf(),
            head.len() == 6,
            blurhash@ == head + written_acs(dct@.acs.take(i as int)),
            blurhash@.len() == 6 + 2 * i,
        decreases dct.acs.len() - i,
    {
        let levels: Levels = dct.acs[i];
        assert(levels@ == dct@.acs[i as int]);
        encode_fixed_to(encode_ac(levels), 2, &mut blurhash);
        proof {
            assert(dct@.acs.take(i + 1) =~= dct@.acs.take(i as int).push(levels@));
            lemma_written_acs_push(dct@.acs.take(i as int), levels@);
            lemma_digits_fixed(packed_levels(levels@), 2);
        }
        i = i + 1;
    }
    assert(dct@.acs.take(i as int) =~= dct@.acs);
    assert(blurhash@ =~= written(dct@));
    blurhash
}

/// The number of characters of `s`.
fn char_len(s: &str, ascii: bool) -> (n: usize)
    requires
        ascii == is_ascii(s),
    ensures
        n == s@.len(),
{
    if ascii {
        proof {
            is_ascii_spec_bytes(s);
        }
        s.as_bytes().len()
    } else {
        s.unicode_len()
    }
}

/// The characters of `s` from `from` up to `to`.
fn field<'a>(s: &'a str, ascii: bool, from: usize, to: usize) -> (r: &'a str)
    requires
        ascii == is_ascii(s),
        from <= to <= s@.len(),
    ensures
        r@ == s@.subrange(from as int, to as int),
{
    if ascii {
        s.substring_ascii(from, to)
    } else {
        s.substring_char(from, to)
    }
}

/// Reads the field of `s` from `from` up to `to` as a numeral of at most four
/// digits.
fn read_field(s: &str, ascii: bool, from: usize, to: usize) -> (r: Result<u32, BlurhashError>)
    requires
        ascii == is_ascii(s),
        from <= to <= s@.len(),
        to - from <= 4,
    ensures
        all_symbols(s@.subrange(from as int, to as int)) ==> r == Ok::<u32, BlurhashError>(
            value_of(s@.subrange(from as int, to as int)) as u32,
        ) && value_of(s@.subrange(from as int, to as int)) < 47458321,
        !all_symbols(s@.subrange(from as int, to as int)) ==> r == Err::<u32, BlurhashError>(
            BlurhashError::BadFormat(Base83ConversionError::InvalidChar),
        ),
{
    let ghost part = s@.subrange(from as int, to as int);
    proof {
        if all_symbols(part) {
            lemma_encode_fixed_decode(part);
            lemma_pow83_values();
        }
    }
    match crate::base83::decode(field(s, ascii, from, to)) {
        Ok(n) => Ok(n),
        Err(e) => Err(BlurhashError::from(e)),
    }
}

/// Reads the grid that the first character of `blurhash` announces, and checks
/// the length of the string against it.
fn read_grid(blurhash: &str, ascii: bool) -> (r: Result<(usize, usize), BlurhashError>)
    requires
        ascii == is_ascii(blurhash),
    ensures
        match r {
            Ok((x, y)) => parsed_grid(blurhash@) == Ok::<(nat, nat), BlurhashError>(
                (x as nat, y as nat),
            ) && 1 <= x <= 9 && 1 <= y <= 9,
            Err(e) => parsed_grid(blurhash@) == Err::<(nat, nat), BlurhashError>(e),
        },
{
    let ghost s = blurhash@;
    let len = char_len(blurhash, ascii);
    if len == 0 {
        return Err(BlurhashError::InvalidLength);
    }
    proof {
        lemma_value_of_single(s.subrange(0, 1));
        assert(s.subrange(0, 1)[0] == s[0]);
    }
    let total: usize = match read_field(blurhash, ascii, 0, 1) {
        Ok(total) => total as usize,
        Err(e) => {
            return Err(e);
        },
    };
    let x_components: usize = (total % 9) + 1;
    let y_components: usize = (total / 9) + 1;
    if x_components > 9 || y_components > 9 {
        return Err(BlurhashError::UnsupportedMode);
    }
    assert(1 <= x_components * y_components <= 81) by (nonlinear_arith)
        requires
            1 <= x_components <= 9,
            1 <= y_components <= 9,
    ;
    let current_count: usize = x_components * y_components;
    if len != 1 + 1 + 4 + 2 * (current_count - 1) {
        return Err(BlurhashError::InvalidLength);
    }
    Ok((x_components, y_components))
}

/// Reads the AC fields of a blurhash of `count` components.
fn read_acs(blurhash: &str, ascii: bool, count: usize) -> (r: Result<Vec<Levels>, BlurhashError>)
    requires
        ascii == is_ascii(blurhash),
        1 <= count <= 81,
        blurhash@.len() == 4 + 2 * count,
        all_symbols(blurhash@.subrange(0, 6)),
    ensures
        match r {
            Ok(acs) => {
                &&& all_symbols(blurhash@)
                &&& acs@.len() == count - 1
                &&& forall|j: int|
                    0 <= j < count - 1 ==> (#[trigger] acs@[j])@ == parsed_ac(blurhash@, j)
            },
            Err(e) => e == BlurhashError::BadFormat(Base83ConversionError::InvalidChar)
                && !all_symbols(blurhash@),
        },
{
    let ghost s = blurhash@;
    let mut acs: Vec<Levels> = Vec::with_capacity(count - 1);
    let mut i: usize = 1;
    while i < count
        invariant
            1 <= i <= count <= 81,
            s == blurhash@,
            ascii == is_ascii(blurhash),
            s.len() == 4 + 2 * count,
            acs@.len() == i - 1,
            all_symbols(s.subrange(0, 4 + 2 * i)),
            forall|j: int| 0 <= j < i - 1 ==> (#[trigger] acs@[j])@ == parsed_ac(s, j),
        decreases count - i,
    {
        let idx: usize = (i - 1) * 2 + 6;
        match read_field(blurhash, ascii, idx, idx + 2) {
            Ok(ac) => {
                acs.push(decode_ac(ac));
            },
            Err(e) => {
                proof {
                    lemma_part_not_symbols(s, idx as int, idx + 2);
                }
                return Err(e);
            },
        }
        proof {
            lemma_parts_symbols(s, idx as int, idx + 2);
        }
        i = i + 1;
    }
    assert(s.subrange(0, 4 + 2 * i) =~= s);
    Ok(acs)
}

/// Reads a blurhash. The checks come in this order: the string is not empty
/// (`InvalidLength`); its first character is a symbol (`BadFormat`); the grid
/// is at most 9x9 (`UnsupportedMode`); the length is the one of that grid
/// (`InvalidLength`); every character is a symbol (`BadFormat`).
pub fn decode(blurhash: &str) -> (r: Result<QuantizedDct, BlurhashError>)
    ensures
        match r {
            Ok(dct) => parsed(blurhash@) == Ok::<Fields, BlurhashError>(dct@) && dct@.wf(),
            Err(e) => parsed(blurhash@) == Err::<Fields, BlurhashError>(e),
        },
{
    let ghost s = blurhash@;
    let ascii = blurhash.is_ascii();
    let (x_components, y_components) = match read_grid(blurhash, ascii) {
        Ok(grid) => grid,
        Err(e) => {
            return Err(e);
        },
    };
    assert(1 <= x_components * y_components <= 81) by (nonlinear_arith)
        requires
            1 <= x_components <= 9,
            1 <= y_components <= 9,
    ;
    let count: usize = x_components * y_components;
    proof {
        lemma_value_of_single(s.subrange(0, 1));
        assert(s.subrange(0, 1)[0] == s[0]);
        lemma_value_of_single(s.subrange(1, 2));
        assert(s.subrange(1, 2)[0] == s[1]);
    }
    let max_ac: u32 = match read_field(blurhash, ascii, 1, 2) {
        Ok(max_ac) => max_ac,
        Err(e) => {
            proof {
                lemma_part_not_symbols(s, 1, 2);
            }
            return Err(e);
        },
    };
    proof {
        lemma_symbol_digit(s[1]);
        lemma_parts_symbols(s, 1, 2);
    }
    let dc: Rgb = match read_field(blurhash, ascii, 2, 6) {
        Ok(n) => decode_dc(n),
        Err(e) => {
            proof {
                lemma_part_not_symbols(s, 2, 6);
            }
            return Err(e);
        },
    };
    proof {
        lemma_parts_symbols(s, 2, 6);
    }
    let acs: Vec<Levels> = match read_acs(blurhash, ascii, count) {
        Ok(acs) => acs,
        Err(e) => {
            return Err(e);
        },
    };
    let dct = QuantizedDct { max_ac, dc, acs, x_components, y_components };
    proof {
        let f = parsed(s)->Ok_0;
        assert(dct@.acs =~= f.acs);
        assert(dct@ == f);
    }
    Ok(dct)
}

} // verus!
