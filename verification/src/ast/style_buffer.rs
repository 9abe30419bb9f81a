//! Flat colour storage: each style attribute maps to four RGBA bytes, read
//! back as `#rrggbb` or as a CSS `rgba(..)` text.

use vstd::prelude::*;
use crate::text::{chars_of, digit, digit_char, decimal_text, owned, push_char, push_decimal};
use crate::textmap::TextMap;

verus! {

/// Value of a hexadecimal digit (either case).
pub open spec fn hex_digit_value(c: char) -> Option<u8> {
    if '0' <= c && c <= '9' {
        Some((c as u8 - 48) as u8)
    } else if 'a' <= c && c <= 'f' {
        Some((c as u8 - 87) as u8)
    } else if 'A' <= c && c <= 'F' {
        Some((c as u8 - 55) as u8)
    } else {
        None
    }
}

/// A byte written as two hexadecimal digits, high digit first; any other
/// character in the pair gives no byte.
pub open spec fn hex_pair_value(a: char, b: char) -> Option<u8> {
    match (hex_digit_value(a), hex_digit_value(b)) {
        (Some(x), Some(y)) => Some((x * 16 + y) as u8),
        _ => None,
    }
}

/// The text with every leading `#` removed.
pub open spec fn strip_hashes(s: Seq<char>) -> Seq<char>
    decreases s.len(),
{
    if s.len() > 0 && s[0] == '#' {
        strip_hashes(s.drop_first())
    } else {
        s
    }
}

/// Whether every character is ASCII.
pub open spec fn all_ascii(s: Seq<char>) -> bool {
    forall|i: int| 0 <= i < s.len() ==> s[i] <= '\x7f'
}

/// The colour that `#RGB`, `#RRGGBB` or `#RRGGBBAA` text denotes, as
/// (red, green, blue, alpha); a short form doubles each digit, and the
/// forms without alpha are opaque.
pub open spec fn hex_color_value(text: Seq<char>) -> Option<(u8, u8, u8, u8)> {
    let h = strip_hashes(text);
    if !all_ascii(h) {
        None
    } else if h.len() == 3 {
        match (hex_pair_value(h[0], h[0]), hex_pair_value(h[1], h[1]), hex_pair_value(h[2], h[2])) {
            (Some(r), Some(g), Some(b)) => Some((r, g, b, 255u8)),
            _ => None,
        }
    } else if h.len() == 6 {
        match (hex_pair_value(h[0], h[1]), hex_pair_value(h[2], h[3]), hex_pair_value(h[4], h[5])) {
            (Some(r), Some(g), Some(b)) => Some((r, g, b, 255u8)),
            _ => None,
        }
    } else if h.len() == 8 {
        match (
            hex_pair_value(h[0], h[1]),
            hex_pair_value(h[2], h[3]),
            hex_pair_value(h[4], h[5]),
            hex_pair_value(h[6], h[7]),
        ) {
            (Some(r), Some(g), Some(b), Some(a)) => Some((r, g, b, a)),
            _ => None,
        }
    } else {
        None
    }
}

/// The bytes of a colour value.
pub open spec fn rgba_bytes(t: (u8, u8, u8, u8)) -> Seq<u8> {
    seq![t.0, t.1, t.2, t.3]
}

fn hex_digit(c: char) -> (r: Option<u8>)
    ensures
        r == hex_digit_value(c),
{
    if '0' <= c && c <= '9' {
        Some((c as u8) - 48)
    } else if 'a' <= c && c <= 'f' {
        Some((c as u8) - 87)
    } else if 'A' <= c && c <= 'F' {
        Some((c as u8) - 55)
    } else {
        None
    }
}

fn hex_pair(a: char, b: char) -> (r: Option<u8>)
    ensures
        r == hex_pair_value(a, b),
{
    match (hex_digit(a), hex_digit(b)) {
        (Some(x), Some(y)) => Some(x * 16 + y),
        _ => None,
    }
}

proof fn lemma_strip_hashes_skip(s: Seq<char>, i: int)
    requires
        0 <= i <= s.len(),
        forall|j: int| 0 <= j < i ==> s[j] == '#',
    ensures
        strip_hashes(s) == strip_hashes(s.skip(i)),
    decreases i,
{
    if i > 0 {
        assert(s[0] == '#');
        assert(s.skip(1) == s.drop_first());
        assert forall|j: int| 0 <= j < i - 1 implies s.drop_first()[j] == '#' by {
            assert(s.drop_first()[j] == s[j + 1]);
        }
        lemma_strip_hashes_skip(s.drop_first(), i - 1);
        assert(s.drop_first().skip(i - 1) == s.skip(i));
    } else {
        assert(s.skip(0) == s);
    }
}

/// Parse `#RRGGBB`, `#RGB`, or `#RRGGBBAA` into an RGBA byte array.
pub fn parse_hex_color(hex: &str) -> (r: Option<[u8; 4]>)
    ensures
        match hex_color_value(hex@) {
            Some(t) => r matches Some(a) && a@ == rgba_bytes(t),
            None => r is None,
        },
{
    let cs = chars_of(hex);
    let mut start: usize = 0;
    while start < cs.len() && cs[start] == '#'
        invariant
            start <= cs@.len(),
            cs@ == hex@,
            forall|j: int| 0 <= j < start ==> cs@[j] == '#',
        decreases cs@.len() - start,
    {
        start = start + 1;
    }
    let ghost h = cs@.skip(start as int);
    proof {
        lemma_strip_hashes_skip(cs@, start as int);
        assert(h.len() == 0 || h[0] != '#');
        assert(strip_hashes(h) == h);
        assert(strip_hashes(hex@) == h);
    }
    let n = cs.len() - start;
    let mut i: usize = start;
    while i < cs.len()
        invariant
            start <= i <= cs@.len(),
            h == cs@.skip(start as int),
            cs@ == hex@,
            strip_hashes(hex@) == h,
            forall|j: int| 0 <= j < i - start ==> h[j] <= '\x7f',
        decreases cs@.len() - i,
    {
        if cs[i] > '\x7f' {
            assert(h[i - start] == cs@[i as int]);
            assert(!all_ascii(h));
            return None;
        }
        assert(h[i - start] == cs@[i as int]);
        i = i + 1;
    }
    assert(all_ascii(h));
    if n == 3 {
        let c0 = cs[start];
        let c1 = cs[start + 1];
        let c2 = cs[start + 2];
        assert(h[0] == c0 && h[1] == c1 && h[2] == c2);
        match (hex_pair(c0, c0), hex_pair(c1, c1), hex_pair(c2, c2)) {
            (Some(r), Some(g), Some(b)) => {
                let a = [r, g, b, 255u8];
                assert(a@ == seq![r, g, b, 255u8]);
                Some(a)
            },
            _ => None,
        }
    } else if n == 6 {
        let p0 = hex_pair(cs[start], cs[start + 1]);
        let p1 = hex_pair(cs[start + 2], cs[start + 3]);
        let p2 = hex_pair(cs[start + 4], cs[start + 5]);
        assert(h[0] == cs@[start as int] && h[1] == cs@[start + 1] && h[2] == cs@[start + 2]);
        assert(h[3] == cs@[start + 3] && h[4] == cs@[start + 4] && h[5] == cs@[start + 5]);
        match (p0, p1, p2) {
            (Some(r), Some(g), Some(b)) => {
                let a = [r, g, b, 255u8];
                assert(a@ == seq![r, g, b, 255u8]);
                Some(a)
            },
            _ => None,
        }
    } else if n == 8 {
        let p0 = hex_pair(cs[start], cs[start + 1]);
        let p1 = hex_pair(cs[start + 2], cs[start + 3]);
        let p2 = hex_pair(cs[start + 4], cs[start + 5]);
        let p3 = hex_pair(cs[start + 6], cs[start + 7]);
        assert(h[0] == cs@[start as int] && h[1] == cs@[start + 1] && h[2] == cs@[start + 2]);
        assert(h[3] == cs@[start + 3] && h[4] == cs@[start + 4] && h[5] == cs@[start + 5]);
        assert(h[6] == cs@[start + 6] && h[7] == cs@[start + 7]);
        match (p0, p1, p2, p3) {
            (Some(r), Some(g), Some(b), Some(al)) => {
                let a = [r, g, b, al];
                assert(a@ == seq![r, g, b, al]);
                Some(a)
            },
            _ => None,
        }
    } else {
        None
    }
}

/// `#rrggbb` text for a colour, two lower-case digits per channel.
pub open spec fn hex_text(r: u8, g: u8, b: u8) -> Seq<char> {
    seq![
        '#',
        digit_char((r / 16) as nat),
        digit_char((r % 16) as nat),
        digit_char((g / 16) as nat),
        digit_char((g % 16) as nat),
        digit_char((b / 16) as nat),
        digit_char((b % 16) as nat),
    ]
}

/// An opacity given in hundredths, written with two decimals (`1.00`, `0.45`).
pub open spec fn opacity_text(hundredths: nat) -> Seq<char> {
    decimal_text(hundredths / 100) + seq!['.', digit_char((hundredths % 100) / 10), digit_char(hundredths % 10)]
}

/// `rgba(r,g,b,a)` text: channels in decimal, opacity with two decimals.
pub open spec fn css_text(r: u8, g: u8, b: u8, hundredths: nat) -> Seq<char> {
    seq!['r', 'g', 'b', 'a', '('] + decimal_text(r as nat) + seq![','] + decimal_text(g as nat)
        + seq![','] + decimal_text(b as nat) + seq![','] + opacity_text(hundredths) + seq![')']
}

/// Colours of style attributes, with an opacity per attribute kept apart for
/// blending. Opacities are held in hundredths, the precision at which they
/// are written out.
pub struct StyleBuffer {
    /// Each style attribute maps to a 4-byte RGBA representation [R, G, B, A]
    pub entries: TextMap<[u8; 4]>,
    /// Opacity per attribute in hundredths (100 is fully opaque)
    pub opacities: TextMap<u32>,
}

impl StyleBuffer {
    /// An empty buffer.
    pub fn new() -> (b: Self)
        ensures
            b.entries@ == Map::<Seq<char>, [u8; 4]>::empty(),
            b.opacities@ == Map::<Seq<char>, u32>::empty(),
    {
        StyleBuffer { entries: TextMap::new(), opacities: TextMap::new() }
    }

    /// Parse a CSS hex color string (#RRGGBB or #RGB) and store it; text that
    /// is no colour leaves the buffer as it was.
    pub fn set_color(&mut self, key: &str, hex: &str)
        ensures
            final(self).opacities == old(self).opacities,
            match hex_color_value(hex@) {
                Some(t) => final(self).entries@.dom() == old(self).entries@.dom().insert(key@)
                    && final(self).entries@[key@]@ == rgba_bytes(t)
                    && forall|k: Seq<char>| k != key@ && #[trigger] old(self).entries@.contains_key(k) ==> final(self).entries@[k] == old(self).entries@[k],
                None => final(self).entries@ == old(self).entries@,
            },
    {
        if let Some(rgba) = parse_hex_color(hex) {
            self.entries.insert(owned(key), rgba);
        }
    }

    /// Store a raw RGBA value directly.
    pub fn set_rgba(&mut self, key: &str, rgba: [u8; 4])
        ensures
            final(self).opacities == old(self).opacities,
            final(self).entries@ == old(self).entries@.insert(key@, rgba),
    {
        self.entries.insert(owned(key), rgba);
    }

    /// Retrieve a color as a CSS `rgba()` string, applying stored opacity
    /// (fully opaque where none is stored).
    pub fn get_css(&self, key: &str) -> (r: Option<String>)
        ensures
            r is Some <==> self.entries@.contains_key(key@),
            r matches Some(s) ==> s@ == css_text(
                self.entries@[key@][0],
                self.entries@[key@][1],
                self.entries@[key@][2],
                if self.opacities@.contains_key(key@) { self.opacities@[key@] as nat } else { 100 },
            ),
    {
        let rgba = match self.entries.get(key) {
            Some(v) => *v,
            None => return None,
        };
        let alpha: u32 = match self.opacities.get(key) {
            Some(a) => *a,
            None => 100,
        };
        let mut s = String::new();
        push_char(&mut s, 'r');
        push_char(&mut s, 'g');
        push_char(&mut s, 'b');
        push_char(&mut s, 'a');
        push_char(&mut s, '(');
        push_decimal(&mut s, rgba[0] as u64);
        push_char(&mut s, ',');
        push_decimal(&mut s, rgba[1] as u64);
        push_char(&mut s, ',');
        push_decimal(&mut s, rgba[2] as u64);
        push_char(&mut s, ',');
        push_decimal(&mut s, (alpha / 100) as u64);
        push_char(&mut s, '.');
        push_char(&mut s, digit(((alpha % 100) / 10) as u8));
        push_char(&mut s, digit((alpha % 10) as u8));
        push_char(&mut s, ')');
        proof {
            let r0 = rgba[0];
            let r1 = rgba[1];
            let r2 = rgba[2];
            assert(s@ =~= css_text(r0, r1, r2, alpha as nat));
        }
        Some(s)
    }

    /// Retrieve the raw hex string (e.g. `#1a2b3c`) for SVG attributes.
    pub fn get_hex(&self, key: &str) -> (r: Option<String>)
        ensures
            r is Some <==> self.entries@.contains_key(key@),
            r matches Some(s) ==> s@ == hex_text(
                self.entries@[key@][0],
                self.entries@[key@][1],
                self.entries@[key@][2],
            ),
    {
        let rgba = match self.entries.get(key) {
            Some(v) => *v,
            None => return None,
        };
        let mut s = String::new();
        push_char(&mut s, '#');
        push_char(&mut s, digit(rgba[0] / 16));
        push_char(&mut s, digit(rgba[0] % 16));
        push_char(&mut s, digit(rgba[1] / 16));
        push_char(&mut s, digit(rgba[1] % 16));
        push_char(&mut s, digit(rgba[2] / 16));
        push_char(&mut s, digit(rgba[2] % 16));
        proof {
            assert(s@ =~= hex_text(rgba[0], rgba[1], rgba[2]));
        }
        Some(s)
    }
}

proof fn lemma_hex_digit_char(d: nat)
    requires
        d < 16,
    ensures
        hex_digit_value(digit_char(d)) == Some(d as u8),
        digit_char(d) <= '\x7f',
        digit_char(d) != '#',
{
}

/// A colour written as `#rrggbb` (as [`StyleBuffer::get_hex`] writes it)
/// reads back as the same colour, opaque.
pub proof fn lemma_hex_round_trip(r: u8, g: u8, b: u8)
    ensures
        hex_color_value(hex_text(r, g, b)) == Some((r, g, b, 255u8)),
{
    let t = hex_text(r, g, b);
    lemma_hex_digit_char((r / 16) as nat);
    lemma_hex_digit_char((r % 16) as nat);
    lemma_hex_digit_char((g / 16) as nat);
    lemma_hex_digit_char((g % 16) as nat);
    lemma_hex_digit_char((b / 16) as nat);
    lemma_hex_digit_char((b % 16) as nat);
    let h = t.drop_first();
    assert(strip_hashes(h) == h);
    assert(strip_hashes(t) == h);
    assert(h.len() == 6);
    assert(all_ascii(h));
    assert(hex_pair_value(h[0], h[1]) == Some(r)) by {
        assert((r / 16) * 16 + r % 16 == r);
    }
    assert(hex_pair_value(h[2], h[3]) == Some(g)) by {
        assert((g / 16) * 16 + g % 16 == g);
    }
    assert(hex_pair_value(h[4], h[5]) == Some(b)) by {
        assert((b / 16) * 16 + b % 16 == b);
    }
}

} // verus!
