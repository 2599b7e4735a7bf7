//! Punctuation: the ASCII punctuation characters, and the general category Punctuation of
//! Unicode 18.0.
use vstd::prelude::*;

verus! {

/// One of the 32 ASCII punctuation characters.
pub open spec fn ascii_punctuation(c: char) -> bool {
    ||| '!' <= c <= '/'
    ||| ':' <= c <= '@'
    ||| '[' <= c <= '`'
    ||| '{' <= c <= '~'
}

/// Punctuation of the Latin-1 block: inverted marks, angle quotation marks, section and paragraph
/// signs and the middle dot.
pub open spec fn latin_punctuation(c: char) -> bool {
    ||| c == '\u{00A1}'
    ||| c == '\u{00A7}'
    ||| c == '\u{00AB}'
    ||| '\u{00B6}' <= c <= '\u{00B7}'
    ||| c == '\u{00BB}'
    ||| c == '\u{00BF}'
}

/// Punctuation that scripts share: dashes, quotation marks, bullets, ellipses, brackets and the
/// like, from the blocks of general, supplemental and CJK punctuation.
pub open spec fn general_punctuation(c: char) -> bool {
    ||| '\u{2010}' <= c <= '\u{2027}'
    ||| '\u{2030}' <= c <= '\u{2043}'
    ||| '\u{2045}' <= c <= '\u{2051}'
    ||| '\u{2053}' <= c <= '\u{205E}'
    ||| '\u{2E00}' <= c <= '\u{2E2E}'
    ||| '\u{2E30}' <= c <= '\u{2E4F}'
    ||| '\u{2E52}' <= c <= '\u{2E5D}'
    ||| '\u{2E60}' <= c <= '\u{2E63}'
    ||| '\u{3001}' <= c <= '\u{3003}'
    ||| '\u{3008}' <= c <= '\u{3011}'
    ||| '\u{3014}' <= c <= '\u{301F}'
    ||| c == '\u{3030}'
    ||| c == '\u{303D}'
}

/// Punctuation of particular scripts, presentation forms and mathematical brackets: the remaining
/// characters of the general category Punctuation in Unicode 18.0.
#[verifier::opaque]
pub open spec fn script_punctuation(c: char) -> bool {
    ||| c == '\u{037E}'
    ||| c == '\u{0387}'
    ||| '\u{055A}' <= c <= '\u{055F}'
    ||| '\u{0589}' <= c <= '\u{058A}'
    ||| c == '\u{05BE}'
    ||| c == '\u{05C0}'
    ||| c == '\u{05C3}'
    ||| c == '\u{05C6}'
    ||| '\u{05F3}' <= c <= '\u{05F4}'
    ||| '\u{0609}' <= c <= '\u{060A}'
    ||| '\u{060C}' <= c <= '\u{060D}'
    ||| c == '\u{061B}'
    ||| '\u{061D}' <= c <= '\u{061F}'
    ||| '\u{066A}' <= c <= '\u{066D}'
    ||| c == '\u{06D4}'
    ||| '\u{0700}' <= c <= '\u{070D}'
    ||| '\u{07F7}' <= c <= '\u{07F9}'
    ||| '\u{0830}' <= c <= '\u{083E}'
    ||| c == '\u{085E}'
    ||| '\u{0964}' <= c <= '\u{0965}'
    ||| c == '\u{0970}'
    ||| c == '\u{09FD}'
    ||| c == '\u{0A76}'
    ||| c == '\u{0AF0}'
    ||| c == '\u{0C77}'
    ||| c == '\u{0C84}'
    ||| c == '\u{0DF4}'
    ||| c == '\u{0E4F}'
    ||| '\u{0E5A}' <= c <= '\u{0E5B}'
    ||| '\u{0F04}' <= c <= '\u{0F12}'
    ||| c == '\u{0F14}'
    ||| '\u{0F3A}' <= c <= '\u{0F3D}'
    ||| c == '\u{0F85}'
    ||| '\u{0FD0}' <= c <= '\u{0FD4}'
    ||| '\u{0FD9}' <= c <= '\u{0FDA}'
    ||| '\u{104A}' <= c <= '\u{104F}'
    ||| c == '\u{10FB}'
    ||| '\u{1360}' <= c <= '\u{1368}'
    ||| c == '\u{1400}'
    ||| c == '\u{166E}'
    ||| '\u{169B}' <= c <= '\u{169C}'
    ||| '\u{16EB}' <= c <= '\u{16ED}'
    ||| '\u{1735}' <= c <= '\u{1736}'
    ||| '\u{17D4}' <= c <= '\u{17D6}'
    ||| '\u{17D8}' <= c <= '\u{17DA}'
    ||| '\u{1800}' <= c <= '\u{180A}'
    ||| '\u{1944}' <= c <= '\u{1945}'
    ||| '\u{1A1E}' <= c <= '\u{1A1F}'
    ||| '\u{1AA0}' <= c <= '\u{1AA6}'
    ||| '\u{1AA8}' <= c <= '\u{1AAD}'
    ||| '\u{1B4E}' <= c <= '\u{1B4F}'
    ||| '\u{1B5A}' <= c <= '\u{1B60}'
    ||| '\u{1B7D}' <= c <= '\u{1B7F}'
    ||| '\u{1BFC}' <= c <= '\u{1BFF}'
    ||| '\u{1C3B}' <= c <= '\u{1C3F}'
    ||| '\u{1C7E}' <= c <= '\u{1C7F}'
    ||| '\u{1CC0}' <= c <= '\u{1CC7}'
    ||| c == '\u{1CD3}'
    ||| '\u{207D}' <= c <= '\u{207E}'
    ||| '\u{208D}' <= c <= '\u{208E}'
    ||| '\u{2308}' <= c <= '\u{230B}'
    ||| '\u{2329}' <= c <= '\u{232A}'
    ||| '\u{2768}' <= c <= '\u{2775}'
    ||| '\u{27C5}' <= c <= '\u{27C6}'
    ||| '\u{27E6}' <= c <= '\u{27EF}'
    ||| '\u{2983}' <= c <= '\u{2998}'
    ||| '\u{29D8}' <= c <= '\u{29DB}'
    ||| '\u{29FC}' <= c <= '\u{29FD}'
    ||| '\u{2CF9}' <= c <= '\u{2CFC}'
    ||| '\u{2CFE}' <= c <= '\u{2CFF}'
    ||| c == '\u{2D70}'
    ||| c == '\u{30A0}'
    ||| c == '\u{30FB}'
    ||| '\u{A4FE}' <= c <= '\u{A4FF}'
    ||| '\u{A60D}' <= c <= '\u{A60F}'
    ||| c == '\u{A673}'
    ||| c == '\u{A67E}'
    ||| '\u{A6F2}' <= c <= '\u{A6F7}'
    ||| '\u{A874}' <= c <= '\u{A877}'
    ||| '\u{A8CE}' <= c <= '\u{A8CF}'
    ||| '\u{A8F8}' <= c <= '\u{A8FA}'
    ||| c == '\u{A8FC}'
    ||| '\u{A92E}' <= c <= '\u{A92F}'
    ||| c == '\u{A95F}'
    ||| '\u{A9C1}' <= c <= '\u{A9CD}'
    ||| '\u{A9DE}' <= c <= '\u{A9DF}'
    ||| '\u{AA5C}' <= c <= '\u{AA5F}'
    ||| '\u{AADE}' <= c <= '\u{AADF}'
    ||| '\u{AAF0}' <= c <= '\u{AAF1}'
    ||| c == '\u{ABEB}'
    ||| '\u{FD3E}' <= c <= '\u{FD3F}'
    ||| '\u{FE10}' <= c <= '\u{FE19}'
    ||| '\u{FE30}' <= c <= '\u{FE52}'
    ||| '\u{FE54}' <= c <= '\u{FE61}'
    ||| c == '\u{FE63}'
    ||| c == '\u{FE68}'
    ||| '\u{FE6A}' <= c <= '\u{FE6B}'
    ||| '\u{FF01}' <= c <= '\u{FF03}'
    ||| '\u{FF05}' <= c <= '\u{FF0A}'
    ||| '\u{FF0C}' <= c <= '\u{FF0F}'
    ||| '\u{FF1A}' <= c <= '\u{FF1B}'
    ||| '\u{FF1F}' <= c <= '\u{FF20}'
    ||| '\u{FF3B}' <= c <= '\u{FF3D}'
    ||| c == '\u{FF3F}'
    ||| c == '\u{FF5B}'
    ||| c == '\u{FF5D}'
    ||| '\u{FF5F}' <= c <= '\u{FF65}'
    ||| '\u{10100}' <= c <= '\u{10102}'
    ||| c == '\u{1039F}'
    ||| c == '\u{103D0}'
    ||| c == '\u{1056F}'
    ||| c == '\u{10857}'
    ||| c == '\u{1091F}'
    ||| c == '\u{1093F}'
    ||| '\u{10A50}' <= c <= '\u{10A58}'
    ||| c == '\u{10A7F}'
    ||| '\u{10AF0}' <= c <= '\u{10AF6}'
    ||| '\u{10B39}' <= c <= '\u{10B3F}'
    ||| '\u{10B99}' <= c <= '\u{10B9C}'
    ||| c == '\u{10D6E}'
    ||| c == '\u{10EAD}'
    ||| c == '\u{10ED0}'
    ||| '\u{10F55}' <= c <= '\u{10F59}'
    ||| '\u{10F86}' <= c <= '\u{10F89}'
    ||| '\u{11047}' <= c <= '\u{1104D}'
    ||| '\u{110BB}' <= c <= '\u{110BC}'
    ||| '\u{110BE}' <= c <= '\u{110C1}'
    ||| '\u{11140}' <= c <= '\u{11143}'
    ||| '\u{11174}' <= c <= '\u{11175}'
    ||| '\u{111C5}' <= c <= '\u{111C8}'
    ||| c == '\u{111CD}'
    ||| c == '\u{111DB}'
    ||| '\u{111DD}' <= c <= '\u{111DF}'
    ||| '\u{11238}' <= c <= '\u{1123D}'
    ||| c == '\u{112A9}'
    ||| '\u{113D4}' <= c <= '\u{113D5}'
    ||| '\u{113D7}' <= c <= '\u{113D8}'
    ||| '\u{1144B}' <= c <= '\u{1144F}'
    ||| '\u{1145A}' <= c <= '\u{1145B}'
    ||| c == '\u{1145D}'
    ||| c == '\u{114C6}'
    ||| '\u{115C1}' <= c <= '\u{115D7}'
    ||| '\u{11641}' <= c <= '\u{11643}'
    ||| '\u{11660}' <= c <= '\u{1166C}'
    ||| c == '\u{116B9}'
    ||| '\u{1173C}' <= c <= '\u{1173E}'
    ||| c == '\u{1183B}'
    ||| '\u{11944}' <= c <= '\u{11946}'
    ||| c == '\u{119E2}'
    ||| '\u{11A3F}' <= c <= '\u{11A46}'
    ||| '\u{11A9A}' <= c <= '\u{11A9C}'
    ||| '\u{11A9E}' <= c <= '\u{11AA2}'
    ||| '\u{11B00}' <= c <= '\u{11B09}'
    ||| c == '\u{11BE1}'
    ||| '\u{11C41}' <= c <= '\u{11C45}'
    ||| '\u{11C70}' <= c <= '\u{11C71}'
    ||| '\u{11EF7}' <= c <= '\u{11EF8}'
    ||| '\u{11F43}' <= c <= '\u{11F4F}'
    ||| c == '\u{11FFF}'
    ||| '\u{12470}' <= c <= '\u{12474}'
    ||| '\u{12FF1}' <= c <= '\u{12FF2}'
    ||| '\u{16A6E}' <= c <= '\u{16A6F}'
    ||| c == '\u{16AF5}'
    ||| '\u{16B37}' <= c <= '\u{16B3B}'
    ||| c == '\u{16B44}'
    ||| '\u{16D6D}' <= c <= '\u{16D6F}'
    ||| '\u{16E97}' <= c <= '\u{16E9A}'
    ||| c == '\u{16FE2}'
    ||| c == '\u{1BC9F}'
    ||| '\u{1DA87}' <= c <= '\u{1DA8B}'
    ||| c == '\u{1E5FF}'
    ||| '\u{1E95E}' <= c <= '\u{1E95F}'
}

/// The character is punctuation.
pub open spec fn punctuation(c: char) -> bool {
    ||| ascii_punctuation(c)
    ||| latin_punctuation(c)
    ||| c >= '\u{0300}' && (general_punctuation(c) || script_punctuation(c))
}

fn is_ascii_punctuation(c: char) -> (is: bool)
    ensures
        is == ascii_punctuation(c),
{
    ('!' <= c && c <= '/') || (':' <= c && c <= '@') || ('[' <= c && c <= '`') || ('{' <= c && c
        <= '~')
}

fn is_latin_punctuation(c: char) -> (is: bool)
    ensures
        is == latin_punctuation(c),
{
    c == '\u{00A1}' || c == '\u{00A7}' || c == '\u{00AB}' || ('\u{00B6}' <= c && c <= '\u{00B7}')
        || c == '\u{00BB}' || c == '\u{00BF}'
}

fn is_general_punctuation(c: char) -> (is: bool)
    ensures
        is == general_punctuation(c),
{
    ('\u{2010}' <= c && c <= '\u{2027}') || ('\u{2030}' <= c && c <= '\u{2043}')
        || ('\u{2045}' <= c && c <= '\u{2051}') || ('\u{2053}' <= c && c <= '\u{205E}')
        || ('\u{2E00}' <= c && c <= '\u{2E2E}') || ('\u{2E30}' <= c && c <= '\u{2E4F}')
        || ('\u{2E52}' <= c && c <= '\u{2E5D}') || ('\u{2E60}' <= c && c <= '\u{2E63}')
        || ('\u{3001}' <= c && c <= '\u{3003}') || ('\u{3008}' <= c && c <= '\u{3011}')
        || ('\u{3014}' <= c && c <= '\u{301F}') || c == '\u{3030}' || c == '\u{303D}'
}

fn is_script_punctuation(c: char) -> (is: bool)
    ensures
        is == script_punctuation(c),
{
    proof {
        reveal(script_punctuation);
    }
    c == '\u{037E}' || c == '\u{0387}' || ('\u{055A}' <= c && c <= '\u{055F}')
        || ('\u{0589}' <= c && c <= '\u{058A}') || c == '\u{05BE}' || c == '\u{05C0}'
        || c == '\u{05C3}' || c == '\u{05C6}' || ('\u{05F3}' <= c && c <= '\u{05F4}')
        || ('\u{0609}' <= c && c <= '\u{060A}') || ('\u{060C}' <= c && c <= '\u{060D}')
        || c == '\u{061B}' || ('\u{061D}' <= c && c <= '\u{061F}')
        || ('\u{066A}' <= c && c <= '\u{066D}') || c == '\u{06D4}'
        || ('\u{0700}' <= c && c <= '\u{070D}') || ('\u{07F7}' <= c && c <= '\u{07F9}')
        || ('\u{0830}' <= c && c <= '\u{083E}') || c == '\u{085E}'
        || ('\u{0964}' <= c && c <= '\u{0965}') || c == '\u{0970}' || c == '\u{09FD}'
        || c == '\u{0A76}' || c == '\u{0AF0}' || c == '\u{0C77}' || c == '\u{0C84}'
        || c == '\u{0DF4}' || c == '\u{0E4F}' || ('\u{0E5A}' <= c && c <= '\u{0E5B}')
        || ('\u{0F04}' <= c && c <= '\u{0F12}') || c == '\u{0F14}'
        || ('\u{0F3A}' <= c && c <= '\u{0F3D}') || c == '\u{0F85}'
        || ('\u{0FD0}' <= c && c <= '\u{0FD4}') || ('\u{0FD9}' <= c && c <= '\u{0FDA}')
        || ('\u{104A}' <= c && c <= '\u{104F}') || c == '\u{10FB}'
        || ('\u{1360}' <= c && c <= '\u{1368}') || c == '\u{1400}' || c == '\u{166E}'
        || ('\u{169B}' <= c && c <= '\u{169C}') || ('\u{16EB}' <= c && c <= '\u{16ED}')
        || ('\u{1735}' <= c && c <= '\u{1736}') || ('\u{17D4}' <= c && c <= '\u{17D6}')
        || ('\u{17D8}' <= c && c <= '\u{17DA}') || ('\u{1800}' <= c && c <= '\u{180A}')
        || ('\u{1944}' <= c && c <= '\u{1945}') || ('\u{1A1E}' <= c && c <= '\u{1A1F}')
        || ('\u{1AA0}' <= c && c <= '\u{1AA6}') || ('\u{1AA8}' <= c && c <= '\u{1AAD}')
        || ('\u{1B4E}' <= c && c <= '\u{1B4F}') || ('\u{1B5A}' <= c && c <= '\u{1B60}')
        || ('\u{1B7D}' <= c && c <= '\u{1B7F}') || ('\u{1BFC}' <= c && c <= '\u{1BFF}')
        || ('\u{1C3B}' <= c && c <= '\u{1C3F}') || ('\u{1C7E}' <= c && c <= '\u{1C7F}')
        || ('\u{1CC0}' <= c && c <= '\u{1CC7}') || c == '\u{1CD3}'
        || ('\u{207D}' <= c && c <= '\u{207E}') || ('\u{208D}' <= c && c <= '\u{208E}')
        || ('\u{2308}' <= c && c <= '\u{230B}') || ('\u{2329}' <= c && c <= '\u{232A}')
        || ('\u{2768}' <= c && c <= '\u{2775}') || ('\u{27C5}' <= c && c <= '\u{27C6}')
        || ('\u{27E6}' <= c && c <= '\u{27EF}') || ('\u{2983}' <= c && c <= '\u{2998}')
        || ('\u{29D8}' <= c && c <= '\u{29DB}') || ('\u{29FC}' <= c && c <= '\u{29FD}')
        || ('\u{2CF9}' <= c && c <= '\u{2CFC}') || ('\u{2CFE}' <= c && c <= '\u{2CFF}')
        || c == '\u{2D70}' || c == '\u{30A0}' || c == '\u{30FB}'
        || ('\u{A4FE}' <= c && c <= '\u{A4FF}') || ('\u{A60D}' <= c && c <= '\u{A60F}')
        || c == '\u{A673}' || c == '\u{A67E}' || ('\u{A6F2}' <= c && c <= '\u{A6F7}')
        || ('\u{A874}' <= c && c <= '\u{A877}') || ('\u{A8CE}' <= c && c <= '\u{A8CF}')
        || ('\u{A8F8}' <= c && c <= '\u{A8FA}') || c == '\u{A8FC}'
        || ('\u{A92E}' <= c && c <= '\u{A92F}') || c == '\u{A95F}'
        || ('\u{A9C1}' <= c && c <= '\u{A9CD}') || ('\u{A9DE}' <= c && c <= '\u{A9DF}')
        || ('\u{AA5C}' <= c && c <= '\u{AA5F}') || ('\u{AADE}' <= c && c <= '\u{AADF}')
        || ('\u{AAF0}' <= c && c <= '\u{AAF1}') || c == '\u{ABEB}'
        || ('\u{FD3E}' <= c && c <= '\u{FD3F}') || ('\u{FE10}' <= c && c <= '\u{FE19}')
        || ('\u{FE30}' <= c && c <= '\u{FE52}') || ('\u{FE54}' <= c && c <= '\u{FE61}')
        || c == '\u{FE63}' || c == '\u{FE68}' || ('\u{FE6A}' <= c && c <= '\u{FE6B}')
        || ('\u{FF01}' <= c && c <= '\u{FF03}') || ('\u{FF05}' <= c && c <= '\u{FF0A}')
        || ('\u{FF0C}' <= c && c <= '\u{FF0F}') || ('\u{FF1A}' <= c && c <= '\u{FF1B}')
        || ('\u{FF1F}' <= c && c <= '\u{FF20}') || ('\u{FF3B}' <= c && c <= '\u{FF3D}')
        || c == '\u{FF3F}' || c == '\u{FF5B}' || c == '\u{FF5D}'
        || ('\u{FF5F}' <= c && c <= '\u{FF65}') || ('\u{10100}' <= c && c <= '\u{10102}')
        || c == '\u{1039F}' || c == '\u{103D0}' || c == '\u{1056F}' || c == '\u{10857}'
        || c == '\u{1091F}' || c == '\u{1093F}' || ('\u{10A50}' <= c && c <= '\u{10A58}')
        || c == '\u{10A7F}' || ('\u{10AF0}' <= c && c <= '\u{10AF6}')
        || ('\u{10B39}' <= c && c <= '\u{10B3F}') || ('\u{10B99}' <= c && c <= '\u{10B9C}')
        || c == '\u{10D6E}' || c == '\u{10EAD}' || c == '\u{10ED0}'
        || ('\u{10F55}' <= c && c <= '\u{10F59}') || ('\u{10F86}' <= c && c <= '\u{10F89}')
        || ('\u{11047}' <= c && c <= '\u{1104D}') || ('\u{110BB}' <= c && c <= '\u{110BC}')
        || ('\u{110BE}' <= c && c <= '\u{110C1}') || ('\u{11140}' <= c && c <= '\u{11143}')
        || ('\u{11174}' <= c && c <= '\u{11175}') || ('\u{111C5}' <= c && c <= '\u{111C8}')
        || c == '\u{111CD}' || c == '\u{111DB}' || ('\u{111DD}' <= c && c <= '\u{111DF}')
        || ('\u{11238}' <= c && c <= '\u{1123D}') || c == '\u{112A9}'
        || ('\u{113D4}' <= c && c <= '\u{113D5}') || ('\u{113D7}' <= c && c <= '\u{113D8}')
        || ('\u{1144B}' <= c && c <= '\u{1144F}') || ('\u{1145A}' <= c && c <= '\u{1145B}')
        || c == '\u{1145D}' || c == '\u{114C6}' || ('\u{115C1}' <= c && c <= '\u{115D7}')
        || ('\u{11641}' <= c && c <= '\u{11643}') || ('\u{11660}' <= c && c <= '\u{1166C}')
        || c == '\u{116B9}' || ('\u{1173C}' <= c && c <= '\u{1173E}') || c == '\u{1183B}'
        || ('\u{11944}' <= c && c <= '\u{11946}') || c == '\u{119E2}'
        || ('\u{11A3F}' <= c && c <= '\u{11A46}') || ('\u{11A9A}' <= c && c <= '\u{11A9C}')
        || ('\u{11A9E}' <= c && c <= '\u{11AA2}') || ('\u{11B00}' <= c && c <= '\u{11B09}')
        || c == '\u{11BE1}' || ('\u{11C41}' <= c && c <= '\u{11C45}')
        || ('\u{11C70}' <= c && c <= '\u{11C71}') || ('\u{11EF7}' <= c && c <= '\u{11EF8}')
        || ('\u{11F43}' <= c && c <= '\u{11F4F}') || c == '\u{11FFF}'
        || ('\u{12470}' <= c && c <= '\u{12474}') || ('\u{12FF1}' <= c && c <= '\u{12FF2}')
        || ('\u{16A6E}' <= c && c <= '\u{16A6F}') || c == '\u{16AF5}'
        || ('\u{16B37}' <= c && c <= '\u{16B3B}') || c == '\u{16B44}'
        || ('\u{16D6D}' <= c && c <= '\u{16D6F}') || ('\u{16E97}' <= c && c <= '\u{16E9A}')
        || c == '\u{16FE2}' || c == '\u{1BC9F}' || ('\u{1DA87}' <= c && c <= '\u{1DA8B}')
        || c == '\u{1E5FF}' || ('\u{1E95E}' <= c && c <= '\u{1E95F}')
}

/// Tells whether a character is punctuation.
pub fn is_punctuation(c: char) -> (is: bool)
    ensures
        is == punctuation(c),
{
    is_ascii_punctuation(c) || is_latin_punctuation(c) || (c >= '\u{0300}' && (
    is_general_punctuation(c) || is_script_punctuation(c)))
}

} // verus!
