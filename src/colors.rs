use vstd::prelude::*;

use crate::text::push_char;

verus! {

/// A pixel colour, eight bits per channel.
#[derive(Clone, Copy, Debug, PartialEq, Eq, Structural, Hash)]
pub struct RGB {
    pub r: u8,
    pub g: u8,
    pub b: u8,
}

impl RGB {
    /// Background colour: pure white.
    pub fn blank_color() -> (c: RGB)
        ensures
            c == (RGB { r: 255, g: 255, b: 255 }),
            blank(c),
    {
        RGB { r: 255, g: 255, b: 255 }
    }

    /// The one reserved colour of structural markers.
    pub fn meta_color() -> (c: RGB)
        ensures
            c == (RGB { r: 0xBA, g: 0xDB, b: 0xEE }),
            meta(c),
    {
        RGB { r: 0xBA, g: 0xDB, b: 0xEE }
    }

    /// The colour a true boolean is painted with.
    pub fn green() -> (c: RGB)
        ensures
            c == (RGB { r: 0, g: 255, b: 0 }),
            data(c),
    {
        RGB { r: 0, g: 255, b: 0 }
    }
}

pub open spec fn white() -> RGB {
    RGB { r: 255, g: 255, b: 255 }
}

pub open spec fn blank(c: RGB) -> bool {
    c.r == 255 && c.g == 255 && c.b == 255
}

pub open spec fn meta(c: RGB) -> bool {
    c.r == 0xBA && c.g == 0xDB && c.b == 0xEE
}

/// A payload pixel: neither background nor marker.
pub open spec fn data(c: RGB) -> bool {
    !blank(c) && !meta(c)
}

/// Upper-case hexadecimal digit of a value below sixteen.
pub open spec fn hex_digit(v: int) -> char {
    if v < 10 {
        (('0' as int) + v) as char
    } else {
        (('A' as int) + v - 10) as char
    }
}

/// Value of an upper- or lower-case hexadecimal digit.
pub open spec fn hex_value(c: char) -> Option<int> {
    if '0' <= c && c <= '9' {
        Some(c as int - '0' as int)
    } else if 'A' <= c && c <= 'F' {
        Some(c as int - 'A' as int + 10)
    } else if 'a' <= c && c <= 'f' {
        Some(c as int - 'a' as int + 10)
    } else {
        None
    }
}

pub open spec fn hex_byte(v: u8) -> Seq<char> {
    seq![hex_digit(v as int / 16), hex_digit(v as int % 16)]
}

/// `#RRGGBB`, upper case.
pub open spec fn hex_color(c: RGB) -> Seq<char> {
    seq!['#'].add(hex_byte(c.r)).add(hex_byte(c.g)).add(hex_byte(c.b))
}

pub open spec fn hex_pair(s: Seq<char>, i: int) -> Option<u8> {
    match (hex_value(s[i]), hex_value(s[i + 1])) {
        (Some(h), Some(l)) => Some((h * 16 + l) as u8),
        _ => None,
    }
}

/// The colour written `#RRGGBB` (either case), if `s` is one.
pub open spec fn parse_hex_color(s: Seq<char>) -> Option<RGB> {
    if s.len() == 7 && s[0] == '#' {
        match (hex_pair(s, 1), hex_pair(s, 3), hex_pair(s, 5)) {
            (Some(r), Some(g), Some(b)) => Some(RGB { r, g, b }),
            _ => None,
        }
    } else {
        None
    }
}

fn hex_digit_of(v: u8) -> (c: char)
    requires
        v < 16,
    ensures
        c == hex_digit(v as int),
{
    if v < 10 {
        (('0' as u8) + v) as char
    } else {
        (('A' as u8) + v - 10) as char
    }
}

fn hex_value_of(c: char) -> (r: Option<u8>)
    ensures
        r matches Some(v) ==> hex_value(c) == Some(v as int) && v < 16,
        r is None ==> hex_value(c) is None,
{
    if '0' <= c && c <= '9' {
        Some(((c as u32) - ('0' as u32)) as u8)
    } else if 'A' <= c && c <= 'F' {
        Some(((c as u32) - ('A' as u32) + 10) as u8)
    } else if 'a' <= c && c <= 'f' {
        Some(((c as u32) - ('a' as u32) + 10) as u8)
    } else {
        None
    }
}

fn push_hex_byte(s: &mut String, v: u8)
    ensures
        final(s)@ == old(s)@.add(hex_byte(v)),
{
    push_char(s, hex_digit_of(v / 16));
    push_char(s, hex_digit_of(v % 16));
    assert(final(s)@ =~= old(s)@.add(hex_byte(v)));
}

impl RGB {
    pub fn new(r: u8, g: u8, b: u8) -> (c: Self)
        ensures
            c == (RGB { r, g, b }),
    {
        RGB { r, g, b }
    }

    pub fn is_blank(&self) -> (res: bool)
        ensures
            res == blank(*self),
    {
        self.r == 255 && self.g == 255 && self.b == 255
    }

    pub fn is_meta(&self) -> (res: bool)
        ensures
            res == meta(*self),
    {
        self.r == 0xBA && self.g == 0xDB && self.b == 0xEE
    }

    pub fn is_data(&self) -> (res: bool)
        ensures
            res == data(*self),
    {
        !self.is_blank() && !self.is_meta()
    }

    /// The colour as `#RRGGBB` in upper-case hexadecimal.
    pub fn to_hex_color(&self) -> (s: String)
        ensures
            s@ == hex_color(*self),
    {
        let mut s = String::new();
        push_char(&mut s, '#');
        push_hex_byte(&mut s, self.r);
        push_hex_byte(&mut s, self.g);
        push_hex_byte(&mut s, self.b);
        assert(s@ =~= hex_color(*self));
        s
    }

    /// Reads a colour written `#RRGGBB`; `None` for any other text.
    pub fn from_hex(s: &String) -> (c: Option<RGB>)
        ensures
            c == parse_hex_color(s@),
    {
        if s.unicode_len() != 7 || s.get_char(0) != '#' {
            return None;
        }
        let r = Self::hex_pair_at(s, 1);
        let g = Self::hex_pair_at(s, 3);
        let b = Self::hex_pair_at(s, 5);
        match (r, g, b) {
            (Some(r), Some(g), Some(b)) => Some(RGB { r, g, b }),
            _ => None,
        }
    }

    fn hex_pair_at(s: &String, i: usize) -> (r: Option<u8>)
        requires
            i <= 5,
            s@.len() == 7,
        ensures
            r == hex_pair(s@, i as int),
    {
        let h = hex_value_of(s.get_char(i));
        let l = hex_value_of(s.get_char(i + 1));
        match (h, l) {
            (Some(h), Some(l)) => Some(h * 16 + l),
            _ => None,
        }
    }
}

/// Reading back what `to_hex_color` wrote gives the same colour.
pub proof fn lemma_hex_round_trip(c: RGB)
    ensures
        parse_hex_color(hex_color(c)) == Some(c),
{
    let s = hex_color(c);
    assert(s.len() == 7);
    assert(s[0] == '#');
    assert forall|v: u8| #[trigger] hex_pair(hex_byte(v), 0) == Some(v) by {
        let h = v as int / 16;
        let l = v as int % 16;
        assert(hex_value(hex_digit(h)) == Some(h));
        assert(hex_value(hex_digit(l)) == Some(l));
    }
    assert(hex_pair(s, 1) == hex_pair(hex_byte(c.r), 0));
    assert(hex_pair(s, 3) == hex_pair(hex_byte(c.g), 0));
    assert(hex_pair(s, 5) == hex_pair(hex_byte(c.b), 0));
}

} // verus!
