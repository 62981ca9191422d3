//! Pseudo-localization: rewrites the ASCII letters of a text into look-alike
//! characters, or into upside-down ones, so that untranslated strings stand out.
use crate::text::char_to_string;
use vstd::prelude::*;
use vstd::string::{StrSliceExecFns, StringExecFns};

verus! {

/// The stand-ins for `a` to `z`.
pub open spec fn small_map(flipped: bool) -> Seq<char> {
    if flipped {
        seq!['ɐ', 'q', 'ɔ', 'p', 'ǝ', 'ɟ', 'ƃ', 'ɥ', 'ı', 'ɾ', 'ʞ', 'ʅ', 'ɯ', 'u', 'o', 'd', 'b', 'ɹ', 's', 'ʇ', 'n', 'ʌ', 'ʍ', 'x', 'ʎ', 'z']
    } else {
        seq!['ȧ', 'ƀ', 'ƈ', 'ḓ', 'ḗ', 'ƒ', 'ɠ', 'ħ', 'ī', 'ĵ', 'ķ', 'ŀ', 'ḿ', 'ƞ', 'ǿ', 'ƥ', 'ɋ', 'ř', 'ş', 'ŧ', 'ŭ', 'ṽ', 'ẇ', 'ẋ', 'ẏ', 'ẑ']
    }
}

/// The stand-ins for `A` to `Z`.
pub open spec fn caps_map(flipped: bool) -> Seq<char> {
    if flipped {
        seq!['∀', 'Ԑ', 'Ↄ', 'ᗡ', 'Ǝ', 'Ⅎ', '⅁', 'H', 'I', 'ſ', 'Ӽ', '⅂', 'W', 'N', 'O', 'Ԁ', 'Ò', 'ᴚ', 'S', '⊥', '∩', 'Ʌ', 'M', 'X', '⅄', 'Z']
    } else {
        seq!['Ȧ', 'Ɓ', 'Ƈ', 'Ḓ', 'Ḗ', 'Ƒ', 'Ɠ', 'Ħ', 'Ī', 'Ĵ', 'Ķ', 'Ŀ', 'Ḿ', 'Ƞ', 'Ǿ', 'Ƥ', 'Ɋ', 'Ř', 'Ş', 'Ŧ', 'Ŭ', 'Ṽ', 'Ẇ', 'Ẋ', 'Ẏ', 'Ẑ']
    }
}

/// What a character becomes: a letter its stand-in, doubled for a vowel `a`, `e`,
/// `o` or `u` where the text is elongated; any other character itself.
pub open spec fn pseudo_char(c: char, flipped: bool, elongate: bool) -> Seq<char> {
    let cc = c as u32;
    if 97 <= cc <= 122 {
        let n = small_map(flipped)[cc - 97];
        if elongate && (cc == 97 || cc == 101 || cc == 111 || cc == 117) {
            seq![n, n]
        } else {
            seq![n]
        }
    } else if 65 <= cc <= 90 {
        seq![caps_map(flipped)[cc - 65]]
    } else {
        seq![c]
    }
}

/// A text with each ASCII letter replaced by what it becomes.
pub open spec fn pseudo(s: Seq<char>, flipped: bool, elongate: bool) -> Seq<char>
    decreases s.len(),
{
    if s.len() == 0 {
        Seq::empty()
    } else {
        pseudo(s.drop_last(), flipped, elongate) + pseudo_char(s.last(), flipped, elongate)
    }
}

/// What the letter that `m` holds becomes; empty where `m` is.
fn pseudo_letter(m: &str, flipped: bool, elongate: bool) -> (r: String)
    ensures
        m@.len() > 0 ==> r@ == pseudo_char(m@[0], flipped, elongate),
{
    if m.unicode_len() == 0 {
        return String::new();
    }
    let ch = m.get_char(0);
    let cc = ch as u32;
    let small: [char; 26] = if flipped {
        ['ɐ', 'q', 'ɔ', 'p', 'ǝ', 'ɟ', 'ƃ', 'ɥ', 'ı', 'ɾ', 'ʞ', 'ʅ', 'ɯ', 'u', 'o', 'd', 'b', 'ɹ', 's', 'ʇ', 'n', 'ʌ', 'ʍ', 'x', 'ʎ', 'z']
    } else {
        ['ȧ', 'ƀ', 'ƈ', 'ḓ', 'ḗ', 'ƒ', 'ɠ', 'ħ', 'ī', 'ĵ', 'ķ', 'ŀ', 'ḿ', 'ƞ', 'ǿ', 'ƥ', 'ɋ', 'ř', 'ş', 'ŧ', 'ŭ', 'ṽ', 'ẇ', 'ẋ', 'ẏ', 'ẑ']
    };
    let caps: [char; 26] = if flipped {
        ['∀', 'Ԑ', 'Ↄ', 'ᗡ', 'Ǝ', 'Ⅎ', '⅁', 'H', 'I', 'ſ', 'Ӽ', '⅂', 'W', 'N', 'O', 'Ԁ', 'Ò', 'ᴚ', 'S', '⊥', '∩', 'Ʌ', 'M', 'X', '⅄', 'Z']
    } else {
        ['Ȧ', 'Ɓ', 'Ƈ', 'Ḓ', 'Ḗ', 'Ƒ', 'Ɠ', 'Ħ', 'Ī', 'Ĵ', 'Ķ', 'Ŀ', 'Ḿ', 'Ƞ', 'Ǿ', 'Ƥ', 'Ɋ', 'Ř', 'Ş', 'Ŧ', 'Ŭ', 'Ṽ', 'Ẇ', 'Ẋ', 'Ẏ', 'Ẑ']
    };
    assert(small@ =~= small_map(flipped));
    assert(caps@ =~= caps_map(flipped));
    if 97 <= cc && cc <= 122 {
        let new_char = small[(cc - 97) as usize];
        if elongate && (cc == 97 || cc == 101 || cc == 111 || cc == 117) {
            let mut s = char_to_string(new_char);
            let t = char_to_string(new_char);
            s.append(t.as_str());
            s
        } else {
            char_to_string(new_char)
        }
    } else if 65 <= cc && cc <= 90 {
        char_to_string(caps[(cc - 65) as usize])
    } else {
        char_to_string(ch)
    }
}

/// Replaces each match of `[a-zA-Z]` in `s` by what [`pseudo_letter`] gives for it,
/// with `regex::Regex::replace_all`. The pattern matches one ASCII letter at a time,
/// and `replace_all` copies the text between matches as it is.
#[verifier::external_body]
fn replace_letters(s: &str, flipped: bool, elongate: bool) -> (r: String)
    ensures
        r@ == pseudo(s@, flipped, elongate),
{
    let re_az = regex::Regex::new(r"[a-zA-Z]").unwrap();
    re_az.replace_all(s, |caps: &regex::Captures| pseudo_letter(&caps[0], flipped, elongate)).into_owned()
}

/// `s` pseudo-localized: its ASCII letters replaced by accented look-alikes, or by
/// upside-down letters where `flipped`; with `elongate`, the vowels `a`, `e`, `o` and
/// `u` are doubled.
pub fn transform(s: &str, flipped: bool, elongate: bool) -> (r: String)
    ensures
        r@ == pseudo(s@, flipped, elongate),
{
    replace_letters(s, flipped, elongate)
}

/// Without elongation, pseudo-localization keeps the length of a text: each
/// character becomes exactly one character.
pub proof fn lemma_pseudo_keeps_length(s: Seq<char>, flipped: bool)
    ensures
        pseudo(s, flipped, false).len() == s.len(),
    decreases s.len(),
{
    if s.len() > 0 {
        lemma_pseudo_keeps_length(s.drop_last(), flipped);
    }
}

/// Pseudo-localization works character by character: the text of two parts joined is
/// the two parts' texts joined.
pub proof fn lemma_pseudo_concat(a: Seq<char>, b: Seq<char>, flipped: bool, elongate: bool)
    ensures
        pseudo(a + b, flipped, elongate) == pseudo(a, flipped, elongate) + pseudo(b, flipped, elongate),
    decreases b.len(),
{
    if b.len() == 0 {
        assert(a + b =~= a);
        assert(pseudo(a, flipped, elongate) + pseudo(b, flipped, elongate) =~= pseudo(a, flipped, elongate));
    } else {
        lemma_pseudo_concat(a, b.drop_last(), flipped, elongate);
        assert((a + b).drop_last() =~= a + b.drop_last());
        assert((a + b).last() == b.last());
        assert(pseudo(a, flipped, elongate) + pseudo(b.drop_last(), flipped, elongate) + pseudo_char(b.last(), flipped, elongate)
            =~= pseudo(a, flipped, elongate) + (pseudo(b.drop_last(), flipped, elongate) + pseudo_char(b.last(), flipped, elongate)));
    }
}

/// The vowels `a` (U+0061), `e` (U+0065), `o` (U+006F) and `u` (U+0075).
pub open spec fn is_doubled_vowel(c: char) -> bool {
    let cc = c as u32;
    cc == 0x61 || cc == 0x65 || cc == 0x6F || cc == 0x75
}

/// How many of the vowels `a`, `e`, `o` and `u` a text holds.
pub open spec fn doubled_vowels(s: Seq<char>) -> nat
    decreases s.len(),
{
    if s.len() == 0 {
        0
    } else {
        doubled_vowels(s.drop_last()) + if is_doubled_vowel(s.last()) {
            1nat
        } else {
            0nat
        }
    }
}

/// With elongation, each of `a`, `e`, `o` and `u` becomes two characters and any other
/// character one: the text grows by its count of those four vowels, and by nothing else.
pub proof fn lemma_elongation_length(s: Seq<char>, flipped: bool)
    ensures
        pseudo(s, flipped, true).len() == s.len() + doubled_vowels(s),
    decreases s.len(),
{
    if s.len() > 0 {
        lemma_elongation_length(s.drop_last(), flipped);
        let c = s.last();
        let cc = c as u32;
        if is_doubled_vowel(c) {
            assert(97 <= cc <= 122);
        }
    }
}

} // verus!
