//! Element types: how many numbers an element packs and how many bytes it takes.

use ggus::ggml_quants::digit_layout;
use vstd::prelude::*;

verus! {

/// What kind of number an element type holds.
#[derive(Clone, Copy, PartialEq, Eq, Debug)]
pub enum LayoutContent {
    /// An unsigned integer of `width` bits.
    Unsigned { width: u32 },
    /// A signed real number (or, with no exponent, a signed integer).
    Real { exponent: u32, mantissa: u32 },
    /// A type known by its name only, such as a quantised block.
    Named { name: [u8; 8] },
}

/// An element type. An element packs `group` numbers into `size` bytes.
#[derive(Clone, Copy, PartialEq, Eq, Debug)]
pub struct DigitLayout {
    pub content: LayoutContent,
    pub group: u16,
    pub size: u16,
}

/// The widths in bits that a single number can have: powers of two from one byte up.
pub open spec fn storable_width(width: int) -> bool {
    ||| width == 8
    ||| width == 16
    ||| width == 32
    ||| width == 64
    ||| width == 128
    ||| width == 256
    ||| width == 512
    ||| width == 1024
    ||| width == 2048
    ||| width == 4096
    ||| width == 8192
    ||| width == 16384
    ||| width == 32768
}

/// The widest exponent that an element type can be made with has 13 bits.
pub open spec fn storable_exponent(exponent: int) -> bool {
    0 <= exponent < 0x2000
}

impl DigitLayout {
    /// How many numbers one element packs.
    pub fn group_size(self) -> (r: usize)
        ensures
            r == self.group,
    {
        self.group as usize
    }

    /// How many bytes one element takes.
    pub fn nbytes(self) -> (r: usize)
        ensures
            r == self.size,
    {
        self.size as usize
    }

    /// What the numbers of an element are.
    pub fn decode(self) -> (r: LayoutContent)
        ensures
            r == self.content,
    {
        self.content
    }

    /// Makes an element type of `group` unsigned integers of `width` bits each, by
    /// `digit_layout::DigitLayout::unsigned`, and reads it with `decode`, `group_size`
    /// and `nbytes`. Trusted: the call accepts every storable width whose group fits the
    /// size field, decodes to that width, and takes a byte for every 8 bits.
    #[verifier::external_body]
    pub(crate) fn new_unsigned(width: u16, group: u16) -> (r: Self)
        requires
            storable_width(width as int),
            (width as int / 8) * group <= u16::MAX,
        ensures
            r.content == (LayoutContent::Unsigned { width: width as u32 }),
            r.group == group,
            r.size == (width as int / 8) * group,
    {
        let made = digit_layout::DigitLayout::unsigned(width, group);
        let content = match made.decode() {
            digit_layout::LayoutContent::Unsigned { width } => LayoutContent::Unsigned { width },
            digit_layout::LayoutContent::Real { exponent, mantissa } => LayoutContent::Real { exponent, mantissa },
            digit_layout::LayoutContent::Named { name } => LayoutContent::Named { name },
        };
        DigitLayout { content, group: made.group_size() as u16, size: made.nbytes() as u16 }
    }

    /// Makes an element type of `group` real numbers, each with a sign bit, `exponent`
    /// exponent bits and `mantissa` mantissa bits, by `digit_layout::DigitLayout::real`,
    /// and reads it with `decode`, `group_size` and `nbytes`. Trusted: the call accepts
    /// every storable total width with a storable exponent whose group fits the size
    /// field, takes a byte for every 8 bits, and decodes to the same mantissa and to the
    /// low 8 bits of the exponent.
    #[verifier::external_body]
    pub(crate) fn new_real(exponent: u16, mantissa: u16, group: u16) -> (r: Self)
        requires
            storable_width(1 + exponent + mantissa),
            storable_exponent(exponent as int),
            ((1 + exponent + mantissa) / 8) * group <= u16::MAX,
        ensures
            r.content == (LayoutContent::Real {
                exponent: (exponent as int % 256) as u32,
                mantissa: mantissa as u32,
            }),
            r.group == group,
            r.size == ((1 + exponent + mantissa) / 8) * group,
    {
        let made = digit_layout::DigitLayout::real(exponent, mantissa, group);
        let content = match made.decode() {
            digit_layout::LayoutContent::Unsigned { width } => LayoutContent::Unsigned { width },
            digit_layout::LayoutContent::Real { exponent, mantissa } => LayoutContent::Real { exponent, mantissa },
            digit_layout::LayoutContent::Named { name } => LayoutContent::Named { name },
        };
        DigitLayout { content, group: made.group_size() as u16, size: made.nbytes() as u16 }
    }
}

} // verus!
