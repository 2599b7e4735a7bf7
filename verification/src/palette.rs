//! Themes and colours.
use vstd::prelude::*;
use vstd::utf8::{encode_utf8, is_ascii_chars, is_ascii_chars_encode_utf8};

verus! {

/// The theme that the user asked for.
#[derive(PartialEq, Eq, Clone, Copy, Structural)]
pub enum ThemeMode {
    System,
    Light,
    Dark,
}

impl ThemeMode {
    /// Whether dark colours are due. The system's theme counts only where the user asked for it,
    /// and dark colours are due where it is unknown.
    pub open spec fn dark(self, system_is_dark: Option<bool>) -> bool {
        match self {
            ThemeMode::System => system_is_dark != Some(false),
            ThemeMode::Light => false,
            ThemeMode::Dark => true,
        }
    }

    /// Tells whether dark colours are due.
    pub fn is_dark(self, system_is_dark: Option<bool>) -> (r: bool)
        ensures
            r == self.dark(system_is_dark),
    {
        match self {
            ThemeMode::System => match system_is_dark {
                Some(dark) => dark,
                None => true,
            },
            ThemeMode::Light => false,
            ThemeMode::Dark => true,
        }
    }
}

/// An opaque colour.
#[derive(PartialEq, Eq, Clone, Copy, Debug, Structural)]
pub struct Rgb {
    pub r: u8,
    pub g: u8,
    pub b: u8,
}

/// The value of a hexadecimal digit.
pub open spec fn hex_digit(b: u8) -> Option<u8> {
    if 0x30 <= b <= 0x39 {
        Some((b - 0x30) as u8)
    } else if 0x41 <= b <= 0x46 {
        Some((b - 0x37) as u8)
    } else if 0x61 <= b <= 0x66 {
        Some((b - 0x57) as u8)
    } else {
        None
    }
}

/// The value of a hexadecimal number of two characters, the first of which may be a plus sign.
/// What is no number counts as zero.
pub open spec fn hex_pair(high: u8, low: u8) -> u8 {
    match (hex_digit(high), hex_digit(low)) {
        (Some(h), Some(l)) => (16 * h + l) as u8,
        (None, Some(l)) => if high == 0x2B {
            l
        } else {
            0
        },
        _ => 0,
    }
}

/// The text without the number signs at its start.
pub open spec fn without_hash(bytes: Seq<u8>) -> Seq<u8>
    decreases bytes.len(),
{
    if bytes.len() > 0 && bytes[0] == 0x23 {
        without_hash(bytes.skip(1))
    } else {
        bytes
    }
}

/// The colour that a text stands for: six hexadecimal digits, behind number signs or not. Any
/// other length stands for white.
pub open spec fn color_of(text: Seq<char>) -> Rgb {
    let hex = without_hash(encode_utf8(text));
    if hex.len() == 6 {
        Rgb {
            r: hex_pair(hex[0], hex[1]),
            g: hex_pair(hex[2], hex[3]),
            b: hex_pair(hex[4], hex[5]),
        }
    } else {
        Rgb { r: 255, g: 255, b: 255 }
    }
}

/// The byte continues the encoding of a character that began before it.
pub open spec fn continues_char(b: u8) -> bool {
    0x80 <= b < 0xC0
}

/// The text, if it has the length of a colour, can be cut into pairs of bytes without cutting a
/// character.
pub open spec fn cut_in_pairs(text: Seq<char>) -> bool {
    let hex = without_hash(encode_utf8(text));
    hex.len() == 6 ==> !continues_char(hex[2]) && !continues_char(hex[4])
}

fn digit_value(b: u8) -> (r: Option<u8>)
    ensures
        r == hex_digit(b),
{
    if 0x30 <= b && b <= 0x39 {
        Some(b - 0x30)
    } else if 0x41 <= b && b <= 0x46 {
        Some(b - 0x37)
    } else if 0x61 <= b && b <= 0x66 {
        Some(b - 0x57)
    } else {
        None
    }
}

fn pair_value(high: u8, low: u8) -> (r: u8)
    ensures
        r == hex_pair(high, low),
{
    match digit_value(low) {
        None => 0,
        Some(l) => match digit_value(high) {
            Some(h) => 16 * h + l,
            None => if high == 0x2B {
                l
            } else {
                0
            },
        },
    }
}

/// Reads a colour in hexadecimal notation.
pub fn hex_color(hex: &str) -> (color: Rgb)
    requires
        cut_in_pairs(hex@),
    ensures
        color == color_of(hex@),
{
    let bytes = hex.as_bytes();
    let n = bytes.len();
    let mut i: usize = 0;
    assert(bytes@.skip(0) == bytes@);
    while i < n && bytes[i] == 0x23
        invariant
            i <= n,
            n == bytes@.len(),
            without_hash(bytes@) == without_hash(bytes@.skip(i as int)),
        decreases n - i,
    {
        assert(bytes@.skip(i as int).skip(1) == bytes@.skip(i + 1));
        i = i + 1;
    }
    if n - i == 6 {
        Rgb {
            r: pair_value(bytes[i], bytes[i + 1]),
            g: pair_value(bytes[i + 2], bytes[i + 3]),
            b: pair_value(bytes[i + 4], bytes[i + 5]),
        }
    } else {
        Rgb { r: 255, g: 255, b: 255 }
    }
}

/// The colours of the interface.
pub struct Palette {
    pub base_bg: Rgb,
    pub panel_bg: Rgb,
    pub input_bg: Rgb,
    pub primary_text: Rgb,
    pub strong_text: Rgb,
    pub subdued_text: Rgb,
    pub idle_ctrl: Rgb,
    pub hover_ctrl: Rgb,
    pub active_ctrl: Rgb,
    pub row_alt: Rgb,
    pub row_hover: Rgb,
    pub row_sel: Rgb,
    pub match_bg: Rgb,
    pub match_fg: Rgb,
}

impl Palette {
    /// The colours of the dark and of the light theme.
    pub open spec fn of_theme(is_dark: bool) -> Palette {
        if is_dark {
            Palette {
                base_bg: color_of("#1A1A1D"@),
                panel_bg: color_of("#242427"@),
                input_bg: color_of("#2C2C30"@),
                primary_text: color_of("#E0E0E0"@),
                strong_text: color_of("#E0E0E0"@),
                subdued_text: color_of("#8E8E93"@),
                idle_ctrl: color_of("#0082BD"@),
                hover_ctrl: color_of("#009EE3"@),
                active_ctrl: color_of("#006796"@),
                row_alt: color_of("#1E1E22"@),
                row_hover: color_of("#2A3A45"@),
                row_sel: color_of("#18455E"@),
                match_bg: color_of("#fac3a9"@),
                match_fg: color_of("#111827"@),
            }
        } else {
            Palette {
                base_bg: color_of("#e6e8ec"@),
                panel_bg: color_of("#E5E7EB"@),
                input_bg: color_of("#D1D5DB"@),
                primary_text: color_of("#374151"@),
                strong_text: color_of("#111827"@),
                subdued_text: color_of("#6B7280"@),
                idle_ctrl: color_of("#009EE3"@),
                hover_ctrl: color_of("#33B2ED"@),
                active_ctrl: color_of("#007BB0"@),
                row_alt: color_of("#F3F4F6"@),
                row_hover: color_of("#E6F5FC"@),
                row_sel: color_of("#CCEAF7"@),
                match_bg: color_of("#fac3a9"@),
                match_fg: color_of("#111827"@),
            }
        }
    }

    /// The colours for the given theme.
    pub fn current(is_dark: bool) -> (palette: Self)
        ensures
            palette == Palette::of_theme(is_dark),
    {
        if is_dark {
            proof {
                lemma_dark_notations();
            }
            Palette {
                base_bg: hex_color("#1A1A1D"),
                panel_bg: hex_color("#242427"),
                input_bg: hex_color("#2C2C30"),
                primary_text: hex_color("#E0E0E0"),
                strong_text: hex_color("#E0E0E0"),
                subdued_text: hex_color("#8E8E93"),
                idle_ctrl: hex_color("#0082BD"),
                hover_ctrl: hex_color("#009EE3"),
                active_ctrl: hex_color("#006796"),
                row_alt: hex_color("#1E1E22"),
                row_hover: hex_color("#2A3A45"),
                row_sel: hex_color("#18455E"),
                match_bg: hex_color("#fac3a9"),
                match_fg: hex_color("#111827"),
            }
        } else {
            proof {
                lemma_light_notations();
            }
            Palette {
                base_bg: hex_color("#e6e8ec"),
                panel_bg: hex_color("#E5E7EB"),
                input_bg: hex_color("#D1D5DB"),
                primary_text: hex_color("#374151"),
                strong_text: hex_color("#111827"),
                subdued_text: hex_color("#6B7280"),
                idle_ctrl: hex_color("#009EE3"),
                hover_ctrl: hex_color("#33B2ED"),
                active_ctrl: hex_color("#007BB0"),
                row_alt: hex_color("#F3F4F6"),
                row_hover: hex_color("#E6F5FC"),
                row_sel: hex_color("#CCEAF7"),
                match_bg: hex_color("#fac3a9"),
                match_fg: hex_color("#111827"),
            }
        }
    }
}

/// Plain notations can be cut.
proof fn lemma_plain(text: Seq<char>)
    requires
        is_ascii_chars(text),
    ensures
        cut_in_pairs(text),
{
    let bytes = encode_utf8(text);
    is_ascii_chars_encode_utf8(text);
    lemma_without_hash(bytes);
}

proof fn lemma_without_hash(bytes: Seq<u8>)
    requires
        forall|i: int| 0 <= i < bytes.len() ==> bytes[i] < 0x80,
    ensures
        forall|i: int| 0 <= i < without_hash(bytes).len() ==> without_hash(bytes)[i] < 0x80,
    decreases bytes.len(),
{
    if bytes.len() > 0 && bytes[0] == 0x23 {
        lemma_without_hash(bytes.skip(1));
        assert(without_hash(bytes) == without_hash(bytes.skip(1)));
    }
}

/// The notations of the dark theme can be cut.
proof fn lemma_dark_notations()
    ensures
        cut_in_pairs("#1A1A1D"@),
        cut_in_pairs("#242427"@),
        cut_in_pairs("#2C2C30"@),
        cut_in_pairs("#E0E0E0"@),
        cut_in_pairs("#8E8E93"@),
        cut_in_pairs("#0082BD"@),
        cut_in_pairs("#009EE3"@),
        cut_in_pairs("#006796"@),
        cut_in_pairs("#1E1E22"@),
        cut_in_pairs("#2A3A45"@),
        cut_in_pairs("#18455E"@),
        cut_in_pairs("#fac3a9"@),
        cut_in_pairs("#111827"@),
{
    assert(cut_in_pairs("#1A1A1D"@)) by {
        reveal_strlit("#1A1A1D");
        lemma_plain("#1A1A1D"@);
    }
    assert(cut_in_pairs("#242427"@)) by {
        reveal_strlit("#242427");
        lemma_plain("#242427"@);
    }
    assert(cut_in_pairs("#2C2C30"@)) by {
        reveal_strlit("#2C2C30");
        lemma_plain("#2C2C30"@);
    }
    assert(cut_in_pairs("#E0E0E0"@)) by {
        reveal_strlit("#E0E0E0");
        lemma_plain("#E0E0E0"@);
    }
    assert(cut_in_pairs("#8E8E93"@)) by {
        reveal_strlit("#8E8E93");
        lemma_plain("#8E8E93"@);
    }
    assert(cut_in_pairs("#0082BD"@)) by {
        reveal_strlit("#0082BD");
        lemma_plain("#0082BD"@);
    }
    assert(cut_in_pairs("#009EE3"@)) by {
        reveal_strlit("#009EE3");
        lemma_plain("#009EE3"@);
    }
    assert(cut_in_pairs("#006796"@)) by {
        reveal_strlit("#006796");
        lemma_plain("#006796"@);
    }
    assert(cut_in_pairs("#1E1E22"@)) by {
        reveal_strlit("#1E1E22");
        lemma_plain("#1E1E22"@);
    }
    assert(cut_in_pairs("#2A3A45"@)) by {
        reveal_strlit("#2A3A45");
        lemma_plain("#2A3A45"@);
    }
    assert(cut_in_pairs("#18455E"@)) by {
        reveal_strlit("#18455E");
        lemma_plain("#18455E"@);
    }
    assert(cut_in_pairs("#fac3a9"@)) by {
        reveal_strlit("#fac3a9");
        lemma_plain("#fac3a9"@);
    }
    assert(cut_in_pairs("#111827"@)) by {
        reveal_strlit("#111827");
        lemma_plain("#111827"@);
    }
}

/// The notations of the light theme can be cut.
proof fn lemma_light_notations()
    ensures
        cut_in_pairs("#e6e8ec"@),
        cut_in_pairs("#E5E7EB"@),
        cut_in_pairs("#D1D5DB"@),
        cut_in_pairs("#374151"@),
        cut_in_pairs("#111827"@),
        cut_in_pairs("#6B7280"@),
        cut_in_pairs("#009EE3"@),
        cut_in_pairs("#33B2ED"@),
        cut_in_pairs("#007BB0"@),
        cut_in_pairs("#F3F4F6"@),
        cut_in_pairs("#E6F5FC"@),
        cut_in_pairs("#CCEAF7"@),
        cut_in_pairs("#fac3a9"@),
{
    assert(cut_in_pairs("#e6e8ec"@)) by {
        reveal_strlit("#e6e8ec");
        lemma_plain("#e6e8ec"@);
    }
    assert(cut_in_pairs("#E5E7EB"@)) by {
        reveal_strlit("#E5E7EB");
        lemma_plain("#E5E7EB"@);
    }
    assert(cut_in_pairs("#D1D5DB"@)) by {
        reveal_strlit("#D1D5DB");
        lemma_plain("#D1D5DB"@);
    }
    assert(cut_in_pairs("#374151"@)) by {
        reveal_strlit("#374151");
        lemma_plain("#374151"@);
    }
    assert(cut_in_pairs("#111827"@)) by {
        reveal_strlit("#111827");
        lemma_plain("#111827"@);
    }
    assert(cut_in_pairs("#6B7280"@)) by {
        reveal_strlit("#6B7280");
        lemma_plain("#6B7280"@);
    }
    assert(cut_in_pairs("#009EE3"@)) by {
        reveal_strlit("#009EE3");
        lemma_plain("#009EE3"@);
    }
    assert(cut_in_pairs("#33B2ED"@)) by {
        reveal_strlit("#33B2ED");
        lemma_plain("#33B2ED"@);
    }
    assert(cut_in_pairs("#007BB0"@)) by {
        reveal_strlit("#007BB0");
        lemma_plain("#007BB0"@);
    }
    assert(cut_in_pairs("#F3F4F6"@)) by {
        reveal_strlit("#F3F4F6");
        lemma_plain("#F3F4F6"@);
    }
    assert(cut_in_pairs("#E6F5FC"@)) by {
        reveal_strlit("#E6F5FC");
        lemma_plain("#E6F5FC"@);
    }
    assert(cut_in_pairs("#CCEAF7"@)) by {
        reveal_strlit("#CCEAF7");
        lemma_plain("#CCEAF7"@);
    }
    assert(cut_in_pairs("#fac3a9"@)) by {
        reveal_strlit("#fac3a9");
        lemma_plain("#fac3a9"@);
    }
}

/// The character of a hexadecimal digit, small or capital.
pub open spec fn hex_char(d: int, small: bool) -> char {
    if d < 10 {
        (0x30 + d) as char
    } else if small {
        (0x57 + d) as char
    } else {
        (0x37 + d) as char
    }
}

/// The six hexadecimal digits of a colour.
pub open spec fn hex_digits(color: Rgb, small: bool) -> Seq<char> {
    seq![
        hex_char(color.r as int / 16, small),
        hex_char(color.r as int % 16, small),
        hex_char(color.g as int / 16, small),
        hex_char(color.g as int % 16, small),
        hex_char(color.b as int / 16, small),
        hex_char(color.b as int % 16, small),
    ]
}

/// The hexadecimal notation of a colour, behind any number of number signs.
pub open spec fn notation(color: Rgb, small: bool, hashes: nat) -> Seq<char> {
    Seq::new(hashes, |i: int| '#') + hex_digits(color, small)
}

proof fn lemma_hashes(bytes: Seq<u8>, hashes: nat)
    requires
        hashes < bytes.len(),
        forall|i: int| 0 <= i < hashes ==> bytes[i] == 0x23,
        bytes[hashes as int] != 0x23,
    ensures
        without_hash(bytes) == bytes.skip(hashes as int),
    decreases hashes,
{
    if hashes > 0 {
        let rest = bytes.skip(1);
        lemma_hashes(rest, (hashes - 1) as nat);
        assert(rest.skip(hashes - 1) == bytes.skip(hashes as int));
    } else {
        assert(bytes.skip(0) == bytes);
    }
}

/// A colour is read back from its hexadecimal notation, in small or capital letters, with number
/// signs in front or without.
pub proof fn law_notation_is_read_back(color: Rgb, small: bool, hashes: nat)
    ensures
        color_of(notation(color, small, hashes)) == color,
        cut_in_pairs(notation(color, small, hashes)),
{
    let text = notation(color, small, hashes);
    lemma_plain(text);
    is_ascii_chars_encode_utf8(text);
    let bytes = encode_utf8(text);
    let h = hashes as int;
    assert(forall|i: int| 0 <= i < h ==> text[i] == '#');
    assert(forall|i: int| 0 <= i < 6 ==> text[h + i] == hex_digits(color, small)[i]);
    lemma_hashes(bytes, hashes);
    assert(forall|i: int| 0 <= i < 6 ==> bytes.skip(h)[i] == text[h + i] as u8);
    lemma_pair(color.r, small);
    lemma_pair(color.g, small);
    lemma_pair(color.b, small);
}

proof fn lemma_pair(v: u8, small: bool)
    ensures
        hex_pair(hex_char(v as int / 16, small) as u8, hex_char(v as int % 16, small) as u8) == v,
{
}

/// What has another length than six characters, the number signs in front apart, stands for white.
pub proof fn law_other_lengths_are_white(hashes: nat, digits: Seq<char>)
    requires
        is_ascii_chars(digits),
        digits.len() != 6,
        digits.len() > 0,
        digits[0] != '#',
    ensures
        color_of(Seq::new(hashes, |i: int| '#') + digits) == (Rgb { r: 255, g: 255, b: 255 }),
{
    let text = Seq::new(hashes, |i: int| '#') + digits;
    assert forall|i: int| 0 <= i < text.len() implies (#[trigger] text[i]) <= '\u{007F}' by {
        if i >= hashes {
            assert(text[i] == digits[i - hashes]);
        }
    }
    assert(is_ascii_chars(text));
    is_ascii_chars_encode_utf8(text);
    let bytes = encode_utf8(text);
    assert(forall|i: int| 0 <= i < hashes ==> text[i] == '#');
    assert(text[hashes as int] == digits[0]);
    lemma_hashes(bytes, hashes);
}

/// The theme is the one that the user asked for; where that is the system's, it is dark unless the
/// system is known to be light.
pub proof fn law_theme_is_the_one_asked_for(system_is_dark: Option<bool>)
    ensures
        ThemeMode::Dark.dark(system_is_dark),
        !ThemeMode::Light.dark(system_is_dark),
        ThemeMode::System.dark(Some(true)),
        !ThemeMode::System.dark(Some(false)),
        ThemeMode::System.dark(None),
{
}

} // verus!
