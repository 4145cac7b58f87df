//! Two-bit-per-channel color reduction and its widening back to bytes.
use vstd::prelude::*;

verus! {

/// The value of an 8-bit channel kept to its two most significant bits.
pub open spec fn reduce_spec(v: u8) -> u8 {
    v / 64
}

/// A two-bit channel replicated into all four two-bit fields of a byte.
pub open spec fn widen_spec(c: u8) -> u8 {
    (c * 85) as u8
}

/// The content-addressed code of a reduced color: `(b << 4) | (g << 2) | r`.
pub open spec fn code_spec(r: u8, g: u8, b: u8) -> u8 {
    (16 * b + 4 * g + r) as u8
}

/// A color whose channels each hold a value.
#[derive(Clone, Copy, Debug, PartialEq, Eq, Structural)]
pub struct Color {
    pub r: u8,
    pub g: u8,
    pub b: u8,
}

impl Color {
    /// Every channel lies in the reduced range 0..=3.
    pub open spec fn is_reduced(&self) -> bool {
        self.r < 4 && self.g < 4 && self.b < 4
    }

    pub open spec fn code_view(&self) -> u8 {
        code_spec(self.r, self.g, self.b)
    }

    /// The content-addressed code of a reduced color, in 0..64.
    pub fn code(&self) -> (r: u8)
        requires
            self.is_reduced(),
        ensures
            r == self.code_view(),
            r < 64,
    {
        let (r, g, b) = (self.r, self.g, self.b);
        let v = (b << 4) | (g << 2) | r;
        assert((b << 4) | (g << 2) | r == 16 * b + 4 * g + r) by (bit_vector)
            requires
                r < 4u8,
                g < 4u8,
                b < 4u8,
        ;
        v
    }

    /// The reduced color whose code is `code`.
    pub fn from_code(code: u8) -> (c: Color)
        requires
            code < 64,
        ensures
            c.is_reduced(),
            c.code_view() == code,
    {
        Color { r: code % 4, g: (code / 4) % 4, b: code / 16 }
    }
}

/// Reduces an 8-bit channel to two bits by dropping its low six bits.
pub fn convert_color(color: u8) -> (r: u8)
    ensures
        r == reduce_spec(color),
        r < 4,
{
    let r = color >> 6;
    assert(color >> 6 == color / 64) by (bit_vector);
    r
}

/// Widens a two-bit channel into a byte by repeating it in every two-bit field.
pub fn widen_component(component: u8) -> (r: u8)
    requires
        component < 4,
    ensures
        r == widen_spec(component),
{
    let c = component;
    let r = c << 6 | c << 4 | c << 2 | c;
    assert(c << 6 | c << 4 | c << 2 | c == c * 85) by (bit_vector)
        requires
            c < 4u8,
    ;
    r
}

/// Widens each channel of a reduced color.
pub fn widen_color(color: &Color) -> (r: Color)
    requires
        color.is_reduced(),
    ensures
        r.r == widen_spec(color.r),
        r.g == widen_spec(color.g),
        r.b == widen_spec(color.b),
{
    Color {
        r: widen_component(color.r),
        g: widen_component(color.g),
        b: widen_component(color.b),
    }
}

/// Reducing a channel, widening it and reducing it again gives the first
/// reduction back.
pub proof fn lemma_reduce_widen_round_trip(v: u8)
    ensures
        reduce_spec(widen_spec(reduce_spec(v))) == reduce_spec(v),
{
    let c = reduce_spec(v);
    assert(c < 4);
    assert(c == 0 || c == 1 || c == 2 || c == 3);
}

} // verus!
