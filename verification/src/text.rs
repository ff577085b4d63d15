//! Character classes and low-level scanning shared by the grammars of this
//! crate: maximal character runs, decimal digit runs and their numeric value,
//! and conversions between `&str` and `Vec<char>`.

use vstd::prelude::*;

verus! {

// ===== character classes =====

/// ASCII decimal digit.
pub open spec fn is_digit_char(c: char) -> bool {
    48 <= c as u32 && c as u32 <= 57
}

/// ASCII alphabetic character.
pub open spec fn is_alpha_char(c: char) -> bool {
    (65 <= c as u32 && c as u32 <= 90) || (97 <= c as u32 && c as u32 <= 122)
}

/// The whitespace accepted inside a number list: space, tab, carriage
/// return and line feed.
pub open spec fn is_list_space_char(c: char) -> bool {
    c == ' ' || c == '\t' || c == '\r' || c == '\n'
}

/// A character with the Unicode `White_Space` property; this is the set that
/// street names are trimmed by.
pub open spec fn is_trim_space_char(c: char) -> bool {
    ||| (9 <= c as u32 && c as u32 <= 13)
    ||| c == ' '
    ||| c == '\u{0085}'
    ||| c == '\u{00A0}'
    ||| c == '\u{1680}'
    ||| (0x2000 <= c as u32 && c as u32 <= 0x200A)
    ||| c == '\u{2028}'
    ||| c == '\u{2029}'
    ||| c == '\u{202F}'
    ||| c == '\u{205F}'
    ||| c == '\u{3000}'
}

/// Numeric value of an ASCII decimal digit.
pub open spec fn digit_val(c: char) -> int {
    c as u32 - 48
}

pub fn is_digit(c: char) -> (b: bool)
    ensures
        b == is_digit_char(c),
{
    let u: u32 = c as u32;
    48 <= u && u <= 57
}

pub fn is_alpha(c: char) -> (b: bool)
    ensures
        b == is_alpha_char(c),
{
    let u: u32 = c as u32;
    (65 <= u && u <= 90) || (97 <= u && u <= 122)
}

pub fn is_list_space(c: char) -> (b: bool)
    ensures
        b == is_list_space_char(c),
{
    c == ' ' || c == '\t' || c == '\r' || c == '\n'
}

pub fn is_trim_space(c: char) -> (b: bool)
    ensures
        b == is_trim_space_char(c),
{
    let u: u32 = c as u32;
    (9 <= u && u <= 13) || c == ' ' || c == '\u{0085}' || c == '\u{00A0}' || c == '\u{1680}' || (
    0x2000 <= u && u <= 0x200A) || c == '\u{2028}' || c == '\u{2029}' || c == '\u{202F}' || c
        == '\u{205F}' || c == '\u{3000}'
}

// ===== maximal runs =====

/// Length of the longest prefix of `s` whose characters all satisfy `p`.
pub open spec fn run_len(s: Seq<char>, p: spec_fn(char) -> bool) -> int
    decreases s.len(),
{
    if s.len() > 0 && p(s[0]) {
        1 + run_len(s.skip(1), p)
    } else {
        0
    }
}

pub proof fn lemma_run_len_bounds(s: Seq<char>, p: spec_fn(char) -> bool)
    ensures
        0 <= run_len(s, p) <= s.len(),
        forall|i: int| 0 <= i < run_len(s, p) ==> p(#[trigger] s[i]),
        run_len(s, p) < s.len() ==> !p(s[run_len(s, p)]),
    decreases s.len(),
{
    if s.len() > 0 && p(s[0]) {
        lemma_run_len_bounds(s.skip(1), p);
        assert forall|i: int| 0 <= i < run_len(s, p) implies p(#[trigger] s[i]) by {
            if i > 0 {
                assert(s[i] == s.skip(1)[i - 1]);
            }
        }
        if run_len(s, p) < s.len() {
            assert(s[run_len(s, p)] == s.skip(1)[run_len(s, p) - 1]);
        }
    }
}

/// The run length is the unique cut `k` with `p` holding before it and
/// failing at it (or the sequence ending there).
pub proof fn lemma_run_len_is(s: Seq<char>, p: spec_fn(char) -> bool, k: int)
    requires
        0 <= k <= s.len(),
        forall|i: int| 0 <= i < k ==> p(#[trigger] s[i]),
        k < s.len() ==> !p(s[k]),
    ensures
        run_len(s, p) == k,
    decreases s.len(),
{
    if s.len() > 0 && p(s[0]) {
        assert(k > 0);
        assert forall|i: int| 0 <= i < k - 1 implies p(#[trigger] s.skip(1)[i]) by {
            assert(s.skip(1)[i] == s[i + 1]);
        }
        if k - 1 < s.skip(1).len() {
            assert(s.skip(1)[k - 1] == s[k]);
        }
        lemma_run_len_is(s.skip(1), p, k - 1);
    } else {
        assert(k == 0);
    }
}

/// Length of the longest suffix of `s` whose characters all satisfy `p`.
pub open spec fn rev_run_len(s: Seq<char>, p: spec_fn(char) -> bool) -> int
    decreases s.len(),
{
    if s.len() > 0 && p(s.last()) {
        1 + rev_run_len(s.drop_last(), p)
    } else {
        0
    }
}

/// The suffix run length is the unique cut.
pub proof fn lemma_rev_run_len_is(s: Seq<char>, p: spec_fn(char) -> bool, k: int)
    requires
        0 <= k <= s.len(),
        forall|i: int| s.len() - k <= i < s.len() ==> p(#[trigger] s[i]),
        k < s.len() ==> !p(s[s.len() - k - 1]),
    ensures
        rev_run_len(s, p) == k,
    decreases s.len(),
{
    if s.len() > 0 && p(s.last()) {
        assert(k > 0);
        assert forall|i: int| s.drop_last().len() - (k - 1) <= i < s.drop_last().len() implies p(
            #[trigger] s.drop_last()[i],
        ) by {
            assert(s.drop_last()[i] == s[i]);
        }
        if k - 1 < s.drop_last().len() {
            assert(s.drop_last()[s.drop_last().len() - (k - 1) - 1] == s[s.len() - k - 1]);
        }
        lemma_rev_run_len_is(s.drop_last(), p, k - 1);
    } else {
        assert(k == 0);
    }
}

// ===== named character predicates, as spec closures =====

pub open spec fn digitp() -> spec_fn(char) -> bool {
    |c: char| is_digit_char(c)
}

pub open spec fn alphap() -> spec_fn(char) -> bool {
    |c: char| is_alpha_char(c)
}

pub open spec fn lspacep() -> spec_fn(char) -> bool {
    |c: char| is_list_space_char(c)
}

pub open spec fn tspacep() -> spec_fn(char) -> bool {
    |c: char| is_trim_space_char(c)
}

// ===== decimal digit sequences =====

/// Value of a sequence of decimal digits, most significant first.
pub open spec fn digits_val(s: Seq<char>) -> int
    decreases s.len(),
{
    if s.len() == 0 {
        0
    } else {
        digits_val(s.drop_last()) * 10 + digit_val(s.last())
    }
}

/// On all-digit sequences the value is non-negative and grows (weakly) with
/// every digit appended.
pub proof fn lemma_digits_val_nonneg(s: Seq<char>)
    requires
        forall|i: int| 0 <= i < s.len() ==> is_digit_char(#[trigger] s[i]),
    ensures
        digits_val(s) >= 0,
    decreases s.len(),
{
    if s.len() > 0 {
        lemma_digits_val_nonneg(s.drop_last());
    }
}

pub proof fn lemma_digits_val_prefix_le(s: Seq<char>, i: int, j: int)
    requires
        0 <= i <= j <= s.len(),
        forall|k: int| 0 <= k < s.len() ==> is_digit_char(#[trigger] s[k]),
    ensures
        digits_val(s.subrange(0, i)) <= digits_val(s.subrange(0, j)),
    decreases j - i,
{
    if i < j {
        lemma_digits_val_prefix_le(s, i, j - 1);
        let a = s.subrange(0, j - 1);
        let b = s.subrange(0, j);
        assert(b.drop_last() =~= a);
        lemma_digits_val_nonneg(a);
        assert(digits_val(b) == digits_val(a) * 10 + digit_val(b.last()));
        assert(digits_val(a) * 10 >= digits_val(a));
    }
}

// ===== executable scanners =====

/// Advances over the maximal run of digits starting at `pos`.
pub fn skip_digits(s: &Vec<char>, pos: usize) -> (r: usize)
    requires
        pos <= s.len(),
    ensures
        pos <= r <= s.len(),
        r - pos == run_len(s@.skip(pos as int), digitp()),
{
    let mut i: usize = pos;
    while i < s.len() && is_digit(s[i])
        invariant
            pos <= i <= s.len(),
            forall|j: int| pos <= j < i ==> is_digit_char(#[trigger] s@[j]),
        decreases s.len() - i,
    {
        i = i + 1;
    }
    proof {
        let t = s@.skip(pos as int);
        assert forall|j: int| 0 <= j < i - pos implies digitp()(#[trigger] t[j]) by {
            assert(t[j] == s@[pos + j]);
        }
        if i - pos < t.len() {
            assert(t[i - pos] == s@[i as int]);
        }
        lemma_run_len_is(t, digitp(), i - pos);
    }
    i
}

/// Advances over the maximal run of ASCII letters starting at `pos`.
pub fn skip_alpha(s: &Vec<char>, pos: usize) -> (r: usize)
    requires
        pos <= s.len(),
    ensures
        pos <= r <= s.len(),
        r - pos == run_len(s@.skip(pos as int), alphap()),
{
    let mut i: usize = pos;
    while i < s.len() && is_alpha(s[i])
        invariant
            pos <= i <= s.len(),
            forall|j: int| pos <= j < i ==> is_alpha_char(#[trigger] s@[j]),
        decreases s.len() - i,
    {
        i = i + 1;
    }
    proof {
        let t = s@.skip(pos as int);
        assert forall|j: int| 0 <= j < i - pos implies alphap()(#[trigger] t[j]) by {
            assert(t[j] == s@[pos + j]);
        }
        if i - pos < t.len() {
            assert(t[i - pos] == s@[i as int]);
        }
        lemma_run_len_is(t, alphap(), i - pos);
    }
    i
}

/// Advances over the maximal run of list whitespace starting at `pos`.
pub fn skip_list_spaces(s: &Vec<char>, pos: usize) -> (r: usize)
    requires
        pos <= s.len(),
    ensures
        pos <= r <= s.len(),
        r - pos == run_len(s@.skip(pos as int), lspacep()),
{
    let mut i: usize = pos;
    while i < s.len() && is_list_space(s[i])
        invariant
            pos <= i <= s.len(),
            forall|j: int| pos <= j < i ==> is_list_space_char(#[trigger] s@[j]),
        decreases s.len() - i,
    {
        i = i + 1;
    }
    proof {
        let t = s@.skip(pos as int);
        assert forall|j: int| 0 <= j < i - pos implies lspacep()(#[trigger] t[j]) by {
            assert(t[j] == s@[pos + j]);
        }
        if i - pos < t.len() {
            assert(t[i - pos] == s@[i as int]);
        }
        lemma_run_len_is(t, lspacep(), i - pos);
    }
    i
}

/// Value of the digits between `from` and `to`, or `None` when it exceeds
/// `usize::MAX`.
pub fn digits_to_usize(s: &Vec<char>, from: usize, to: usize) -> (r: Option<usize>)
    requires
        from <= to <= s.len(),
        forall|i: int| from <= i < to ==> is_digit_char(#[trigger] s@[i]),
    ensures
        ({
            let dv = digits_val(s@.subrange(from as int, to as int));
            match r {
                Some(v) => v == dv,
                None => dv > usize::MAX,
            }
        }),
{
    let ghost full = s@.subrange(from as int, to as int);
    proof {
        assert forall|k: int| 0 <= k < full.len() implies is_digit_char(#[trigger] full[k]) by {
            assert(full[k] == s@[from + k]);
        }
    }
    let mut acc: usize = 0;
    let mut i: usize = from;
    while i < to
        invariant
            from <= i <= to <= s.len(),
            forall|k: int| from <= k < to ==> is_digit_char(#[trigger] s@[k]),
            forall|k: int| 0 <= k < full.len() ==> is_digit_char(#[trigger] full[k]),
            full == s@.subrange(from as int, to as int),
            acc == digits_val(s@.subrange(from as int, i as int)),
        decreases to - i,
    {
        let u: u32 = s[i] as u32;
        let d: u32 = u - 48;
        proof {
            assert(s@.subrange(from as int, i + 1 as int).drop_last() =~= s@.subrange(
                from as int,
                i as int,
            ));
            assert(full.subrange(0, i + 1 - from as int) =~= s@.subrange(from as int, i + 1 as int));
            assert(full.subrange(0, full.len() as int) =~= full);
        }
        let step: Option<usize> = match acc.checked_mul(10) {
            Some(m) => m.checked_add(d as usize),
            None => None,
        };
        match step {
            Some(v) => {
                acc = v;
            },
            None => {
                proof {
                    // the value of the digits seen so far already exceeds
                    // usize::MAX, and more digits only increase it
                    assert(digits_val(s@.subrange(from as int, i + 1 as int)) == acc * 10 + d);
                    lemma_digits_val_prefix_le(full, i + 1 - from as int, full.len() as int);
                }
                return None;
            },
        }
        i = i + 1;
    }
    proof {
        assert(s@.subrange(from as int, to as int) =~= s@.subrange(from as int, i as int));
    }
    Some(acc)
}

// ===== string conversions =====

/// Decodes a string into its sequence of characters.
pub fn str_to_chars(s: &str) -> (r: Vec<char>)
    ensures
        r@ == s@,
{
    let n: usize = s.unicode_len();
    let mut out: Vec<char> = Vec::new();
    let mut i: usize = 0;
    while i < n
        invariant
            n == s@.len(),
            0 <= i <= n,
            out@ == s@.take(i as int),
        decreases n - i,
    {
        out.push(s.get_char(i));
        proof {
            assert(out@ =~= s@.take(i + 1 as int));
        }
        i = i + 1;
    }
    proof {
        assert(out@ =~= s@);
    }
    out
}

/// Relies on `Iterator::collect` for `String` (`FromIterator<char>`): the
/// collected string consists of exactly the characters of the iterator, in
/// order.
#[verifier::external_body]
pub(crate) fn chars_to_string(v: &Vec<char>) -> (r: String)
    ensures
        r@ == v@,
{
    v.iter().collect()
}

/// Copies the characters of `s` between `from` and `to` into a fresh string.
pub fn string_of_range(s: &Vec<char>, from: usize, to: usize) -> (r: String)
    requires
        from <= to <= s.len(),
    ensures
        r@ == s@.subrange(from as int, to as int),
{
    let mut part: Vec<char> = Vec::new();
    let mut i: usize = from;
    while i < to
        invariant
            from <= i <= to <= s.len(),
            part@ == s@.subrange(from as int, i as int),
        decreases to - i,
    {
        part.push(s[i]);
        proof {
            assert(part@ =~= s@.subrange(from as int, i + 1 as int));
        }
        i = i + 1;
    }
    chars_to_string(&part)
}

} // verus!
