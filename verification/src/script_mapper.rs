//! Transliteration of Cyrillic text to uppercase Latin.
//!
//! Raw report rows arrive in Cyrillic script; the address grammar expects
//! uppercase Latin text.  The mapper replaces each Cyrillic letter (including
//! the three digraph letters) by its uppercase Latin transliteration and
//! uppercases every other character.

use vstd::prelude::*;

use crate::text::{chars_to_string, str_to_chars};

verus! {

/// The uppercase Latin transliteration of a Cyrillic letter, or `None` for
/// any other character.  The three digraph letters map to two characters.
pub open spec fn latin_of(c: char) -> Option<Seq<char>> {
    match c {
        '\u{0410}' | '\u{0430}' => Some(seq!['A']),
        '\u{0411}' | '\u{0431}' => Some(seq!['B']),
        '\u{0412}' | '\u{0432}' => Some(seq!['V']),
        '\u{0413}' | '\u{0433}' => Some(seq!['G']),
        '\u{0414}' | '\u{0434}' => Some(seq!['D']),
        '\u{0402}' | '\u{0452}' => Some(seq!['\u{0110}']),
        '\u{0415}' | '\u{0435}' => Some(seq!['E']),
        '\u{0416}' | '\u{0436}' => Some(seq!['\u{017D}']),
        '\u{0417}' | '\u{0437}' => Some(seq!['Z']),
        '\u{0418}' | '\u{0438}' => Some(seq!['I']),
        '\u{0408}' | '\u{0458}' => Some(seq!['J']),
        '\u{041A}' | '\u{043A}' => Some(seq!['K']),
        '\u{041B}' | '\u{043B}' => Some(seq!['L']),
        '\u{0409}' | '\u{0459}' => Some(seq!['L', 'J']),
        '\u{041C}' | '\u{043C}' => Some(seq!['M']),
        '\u{041D}' | '\u{043D}' => Some(seq!['N']),
        '\u{040A}' | '\u{045A}' => Some(seq!['N', 'J']),
        '\u{041E}' | '\u{043E}' => Some(seq!['O']),
        '\u{041F}' | '\u{043F}' => Some(seq!['P']),
        '\u{0420}' | '\u{0440}' => Some(seq!['R']),
        '\u{0421}' | '\u{0441}' => Some(seq!['S']),
        '\u{0422}' | '\u{0442}' => Some(seq!['T']),
        '\u{040B}' | '\u{045B}' => Some(seq!['\u{0106}']),
        '\u{0423}' | '\u{0443}' => Some(seq!['U']),
        '\u{0424}' | '\u{0444}' => Some(seq!['F']),
        '\u{0425}' | '\u{0445}' => Some(seq!['H']),
        '\u{0426}' | '\u{0446}' => Some(seq!['C']),
        '\u{0427}' | '\u{0447}' => Some(seq!['\u{010C}']),
        '\u{040F}' | '\u{045F}' => Some(seq!['D', '\u{017D}']),
        '\u{0428}' | '\u{0448}' => Some(seq!['\u{0160}']),
        _ => None,
    }
}

/// The uppercase mapping of a character that is not a Cyrillic letter.
/// Named for the result of `char::to_uppercase`, which depends on the
/// character alone.
pub uninterp spec fn upper_of(c: char) -> Seq<char>;

/// What one character of the input becomes.
pub open spec fn tr_char(c: char) -> Seq<char> {
    match latin_of(c) {
        Some(rep) => rep,
        None => upper_of(c),
    }
}

/// The transliteration of a whole text, character by character.
pub open spec fn spec_transliterate(s: Seq<char>) -> Seq<char>
    decreases s.len(),
{
    if s.len() == 0 {
        Seq::empty()
    } else {
        spec_transliterate(s.drop_last()) + tr_char(s.last())
    }
}

/// Relies on `char::to_uppercase`: the Unicode uppercase mapping of a
/// character, one or more characters determined by the character alone.
#[verifier::external_body]
fn char_upper(c: char) -> (r: String)
    ensures
        r@ == upper_of(c),
{
    c.to_uppercase().to_string()
}

/// The uppercase Latin transliteration of one character: one or two
/// characters for a Cyrillic letter, nothing for any other character.
fn map_cyrillic(c: char) -> (r: Option<(char, Option<char>)>)
    ensures
        match r {
            Some((c1, Some(c2))) => latin_of(c) == Some(seq![c1, c2]),
            Some((c1, None)) => latin_of(c) == Some(seq![c1]),
            None => latin_of(c) is None,
        },
{
    match c {
        '\u{0410}' | '\u{0430}' => Some(('A', None)),
        '\u{0411}' | '\u{0431}' => Some(('B', None)),
        '\u{0412}' | '\u{0432}' => Some(('V', None)),
        '\u{0413}' | '\u{0433}' => Some(('G', None)),
        '\u{0414}' | '\u{0434}' => Some(('D', None)),
        '\u{0402}' | '\u{0452}' => Some(('\u{0110}', None)),
        '\u{0415}' | '\u{0435}' => Some(('E', None)),
        '\u{0416}' | '\u{0436}' => Some(('\u{017D}', None)),
        '\u{0417}' | '\u{0437}' => Some(('Z', None)),
        '\u{0418}' | '\u{0438}' => Some(('I', None)),
        '\u{0408}' | '\u{0458}' => Some(('J', None)),
        '\u{041A}' | '\u{043A}' => Some(('K', None)),
        '\u{041B}' | '\u{043B}' => Some(('L', None)),
        '\u{0409}' | '\u{0459}' => Some(('L', Some('J'))),
        '\u{041C}' | '\u{043C}' => Some(('M', None)),
        '\u{041D}' | '\u{043D}' => Some(('N', None)),
        '\u{040A}' | '\u{045A}' => Some(('N', Some('J'))),
        '\u{041E}' | '\u{043E}' => Some(('O', None)),
        '\u{041F}' | '\u{043F}' => Some(('P', None)),
        '\u{0420}' | '\u{0440}' => Some(('R', None)),
        '\u{0421}' | '\u{0441}' => Some(('S', None)),
        '\u{0422}' | '\u{0442}' => Some(('T', None)),
        '\u{040B}' | '\u{045B}' => Some(('\u{0106}', None)),
        '\u{0423}' | '\u{0443}' => Some(('U', None)),
        '\u{0424}' | '\u{0444}' => Some(('F', None)),
        '\u{0425}' | '\u{0445}' => Some(('H', None)),
        '\u{0426}' | '\u{0446}' => Some(('C', None)),
        '\u{0427}' | '\u{0447}' => Some(('\u{010C}', None)),
        '\u{040F}' | '\u{045F}' => Some(('D', Some('\u{017D}'))),
        '\u{0428}' | '\u{0448}' => Some(('\u{0160}', None)),
        _ => None,
    }
}

/// Transliterates text to uppercase Latin script.
pub struct Mapper {}

impl Mapper {
    pub fn new() -> (m: Mapper)
        ensures
            m == (Mapper {  }),
    {
        Mapper {  }
    }

    /// Maps each Cyrillic letter to its uppercase Latin transliteration and
    /// uppercases everything else.
    pub fn transoform(&self, input: &str) -> (r: String)
        ensures
            r@ == spec_transliterate(input@),
    {
        let chars: Vec<char> = str_to_chars(input);
        let mut out: Vec<char> = Vec::new();
        let mut i: usize = 0;
        while i < chars.len()
            invariant
                0 <= i <= chars.len(),
                chars@ == input@,
                out@ == spec_transliterate(chars@.take(i as int)),
            decreases chars.len() - i,
        {
            let c: char = chars[i];
            match map_cyrillic(c) {
                Some((c1, more)) => {
                    out.push(c1);
                    match more {
                        Some(c2) => {
                            out.push(c2);
                            proof {
                                assert(out@ =~= spec_transliterate(chars@.take(i as int)) + seq![
                                    c1,
                                    c2,
                                ]);
                            }
                        },
                        None => {
                            proof {
                                assert(out@ =~= spec_transliterate(chars@.take(i as int))
                                    + seq![c1]);
                            }
                        },
                    }
                },
                None => {
                    let up: String = char_upper(c);
                    let mut upc: Vec<char> = str_to_chars(up.as_str());
                    out.append(&mut upc);
                },
            }
            proof {
                assert(chars@.take(i + 1 as int).drop_last() =~= chars@.take(i as int));
                assert(chars@.take(i + 1 as int).last() == chars@[i as int]);
            }
            i = i + 1;
        }
        proof {
            assert(chars@.take(chars@.len() as int) =~= chars@);
        }
        chars_to_string(&out)
    }
}

impl Default for Mapper {
    fn default() -> (m: Mapper)
        ensures
            m == (Mapper {  }),
    {
        Mapper::new()
    }
}

} // verus!
