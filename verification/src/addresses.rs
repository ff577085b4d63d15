//! The address-range grammar.
//!
//! One line of an outage schedule lists street entries, each of the form
//! `<street name>:<number list>`.  A number list is a comma-separated
//! sequence of specifications — the case-insensitive marker `BB` ("no
//! number"), a single house number with an optional extension, or a range of
//! two such numbers joined by `-` — tolerating whitespace at the list
//! boundaries and a single trailing comma.
//!
//! The grammar is specified by the `spec_*` functions below, each of which
//! maps the remaining input to the consumed length and the parsed value; the
//! executable parsers are verified against them.

use vstd::prelude::*;

use crate::text::{
    alphap, digit_val, digits_val, digits_to_usize, digitp, is_alpha_char, is_digit, is_digit_char,
    is_list_space_char, is_trim_space, is_trim_space_char, lemma_rev_run_len_is,
    lemma_run_len_bounds, lemma_run_len_is, lspacep, rev_run_len, run_len, skip_alpha, skip_digits,
    skip_list_spaces, str_to_chars, string_of_range, tspacep,
};

verus! {

// ===== data model =====

/// A house number: its numeric value and an optional verbatim extension
/// (letters, letters followed by `/` and digits, or `/` and digits alone).
#[derive(Debug, PartialEq, Eq, Clone)]
pub struct BrojNumber {
    pub value: usize,
    pub extension: Option<String>,
}

/// A range of house numbers.  Nothing constrains `from` relative to `to`;
/// an inverted or degenerate range is structurally valid.
#[derive(Debug, PartialEq, Eq, Clone)]
pub struct BrojRange {
    pub from: BrojNumber,
    pub to: BrojNumber,
}

/// One comma-separated item of a street's number list.
#[derive(Debug, PartialEq, Eq, Clone)]
pub enum Broj {
    /// The textual marker `BB`: no street number assigned.
    Bez,
    Number(BrojNumber),
    Range(BrojRange),
}

/// One street entry: the trimmed street name and its ordered number list.
#[derive(Debug, PartialEq, Eq, Clone)]
pub struct AddressRecord {
    pub street: String,
    pub numbers: Vec<Broj>,
}

// ===== mathematical views =====

pub struct BrojNumberV {
    pub value: int,
    pub extension: Option<Seq<char>>,
}

pub struct BrojRangeV {
    pub from: BrojNumberV,
    pub to: BrojNumberV,
}

pub enum BrojV {
    Bez,
    Number(BrojNumberV),
    Range(BrojRangeV),
}

pub struct AddressRecordV {
    pub street: Seq<char>,
    pub numbers: Seq<BrojV>,
}

impl View for BrojNumber {
    type V = BrojNumberV;

    open spec fn view(&self) -> BrojNumberV {
        BrojNumberV {
            value: self.value as int,
            extension: match self.extension {
                Some(e) => Some(e@),
                None => None,
            },
        }
    }
}

impl View for BrojRange {
    type V = BrojRangeV;

    open spec fn view(&self) -> BrojRangeV {
        BrojRangeV { from: self.from@, to: self.to@ }
    }
}

impl View for Broj {
    type V = BrojV;

    open spec fn view(&self) -> BrojV {
        match self {
            Broj::Bez => BrojV::Bez,
            Broj::Number(n) => BrojV::Number(n@),
            Broj::Range(r) => BrojV::Range(r@),
        }
    }
}

/// View of a sequence of specifications.
pub open spec fn brojs_view(v: Seq<Broj>) -> Seq<BrojV> {
    v.map_values(|b: Broj| b@)
}

/// View of a sequence of street entries.
pub open spec fn records_view(v: Seq<AddressRecord>) -> Seq<AddressRecordV> {
    v.map_values(|a: AddressRecord| a@)
}

impl View for AddressRecord {
    type V = AddressRecordV;

    open spec fn view(&self) -> AddressRecordV {
        AddressRecordV { street: self.street@, numbers: brojs_view(self.numbers@) }
    }
}

// ===== the grammar, as specification functions =====
//
// Each `spec_*` function takes the remaining input and yields the number of
// characters consumed together with the parsed value, or `None` on failure.

/// The extension span after a number's digits: zero or more letters, then
/// optionally `/` followed by one or more digits.  Always succeeds; an empty
/// span means "no extension".
pub open spec fn spec_ext_len(s: Seq<char>) -> int {
    let a = run_len(s, alphap());
    let rest = s.skip(a);
    if rest.len() >= 2 && rest[0] == '/' && is_digit_char(rest[1]) {
        a + 1 + run_len(rest.skip(1), digitp())
    } else {
        a
    }
}

/// A number token: one or more digits (whose value must fit in `usize`),
/// then the extension span, captured verbatim when non-empty.
pub open spec fn spec_number(s: Seq<char>) -> Option<(int, BrojNumberV)> {
    let d = run_len(s, digitp());
    if d == 0 {
        None
    } else if digits_val(s.subrange(0, d)) > usize::MAX {
        None
    } else {
        let rest = s.skip(d);
        let e = spec_ext_len(rest);
        Some(
            (
                d + e,
                BrojNumberV {
                    value: digits_val(s.subrange(0, d)),
                    extension: if e == 0 {
                        None
                    } else {
                        Some(rest.subrange(0, e))
                    },
                },
            ),
        )
    }
}

/// A range: number token, literal `-`, number token, with no whitespace
/// tolerated around the separator.
pub open spec fn spec_range(s: Seq<char>) -> Option<(int, BrojRangeV)> {
    match spec_number(s) {
        None => None,
        Some((n1, from)) => {
            let rest = s.skip(n1);
            if rest.len() > 0 && rest[0] == '-' {
                match spec_number(rest.skip(1)) {
                    None => None,
                    Some((n2, to)) => Some((n1 + 1 + n2, BrojRangeV { from, to })),
                }
            } else {
                None
            }
        },
    }
}

/// The case-insensitive marker `BB`.
pub open spec fn spec_bb(s: Seq<char>) -> bool {
    s.len() >= 2 && (s[0] == 'B' || s[0] == 'b') && (s[1] == 'B' || s[1] == 'b')
}

/// One specification, trying the alternatives in their fixed order:
/// the `BB` marker, then a range, then a single number.  The order is
/// load-bearing: a range must be recognized before the single number that
/// forms its left half.
pub open spec fn spec_broj(s: Seq<char>) -> Option<(int, BrojV)> {
    if spec_bb(s) {
        Some((2, BrojV::Bez))
    } else {
        match spec_range(s) {
            Some((n, r)) => Some((n, BrojV::Range(r))),
            None => match spec_number(s) {
                Some((n, v)) => Some((n, BrojV::Number(v))),
                None => None,
            },
        }
    }
}

/// After a first specification: as many `,`-prefixed further specifications
/// as will match.  A comma not followed by a specification is left
/// unconsumed (it may be the trailing comma).
pub open spec fn spec_list_rest(s: Seq<char>) -> (int, Seq<BrojV>)
    decreases s.len(),
{
    if s.len() > 0 && s[0] == ',' {
        match spec_broj(s.skip(1)) {
            Some((n, b)) => {
                if 0 <= n && 1 + n <= s.len() {
                    let (m, items) = spec_list_rest(s.skip(1 + n));
                    (1 + n + m, seq![b] + items)
                } else {
                    // a specification never consumes more than the input;
                    // see `lemma_spec_broj_bounds`
                    (0, Seq::empty())
                }
            },
            None => (0, Seq::empty()),
        }
    } else {
        (0, Seq::empty())
    }
}

/// A number list: optional leading whitespace, one or more specifications
/// separated by commas, an optional single trailing comma, optional trailing
/// whitespace.  Fails when no specification is recognized.
pub open spec fn spec_broj_list(s: Seq<char>) -> Option<(int, Seq<BrojV>)> {
    let w = run_len(s, lspacep());
    match spec_broj(s.skip(w)) {
        None => None,
        Some((n, b)) => {
            let (m, items) = spec_list_rest(s.skip(w).skip(n));
            let p = w + n + m;
            let s2 = s.skip(p);
            let c: int = if s2.len() > 0 && s2[0] == ',' {
                1
            } else {
                0
            };
            let w2 = run_len(s2.skip(c), lspacep());
            Some((p + c + w2, seq![b] + items))
        },
    }
}

/// Index of the first `:` in `s`, if any.
pub open spec fn find_colon(s: Seq<char>) -> Option<int>
    decreases s.len(),
{
    if s.len() == 0 {
        None
    } else if s[0] == ':' {
        Some(0)
    } else {
        match find_colon(s.skip(1)) {
            None => None,
            Some(i) => Some(1 + i),
        }
    }
}

/// Street names are trimmed of leading and trailing Unicode whitespace.
pub open spec fn spec_trim(s: Seq<char>) -> Seq<char> {
    let l = run_len(s, tspacep());
    let core = s.skip(l);
    core.take(core.len() - rev_run_len(core, tspacep()))
}

/// One street entry: a non-empty span before the first `:` (trimmed to form
/// the street name), the colon, then a number list.
pub open spec fn spec_entry(s: Seq<char>) -> Option<(int, AddressRecordV)> {
    match find_colon(s) {
        None => None,
        Some(k) => {
            if k == 0 {
                None
            } else {
                match spec_broj_list(s.skip(k + 1)) {
                    None => None,
                    Some((n, items)) => Some(
                        (
                            k + 1 + n,
                            AddressRecordV { street: spec_trim(s.subrange(0, k)), numbers: items },
                        ),
                    ),
                }
            }
        },
    }
}

/// As many street entries as will match, in source order.
pub open spec fn spec_entries(s: Seq<char>) -> (int, Seq<AddressRecordV>)
    decreases s.len(),
{
    match spec_entry(s) {
        None => (0, Seq::empty()),
        Some((n, rec)) => {
            if 1 <= n <= s.len() {
                let (m, rest) = spec_entries(s.skip(n));
                (n + m, seq![rec] + rest)
            } else {
                // an entry never consumes more than the input;
                // see `lemma_spec_entry_bounds`
                (0, Seq::empty())
            }
        },
    }
}

/// A whole row: at least one entry must be recognized; any text after the
/// last recognized entry is left unconsumed.
pub open spec fn spec_addresses(s: Seq<char>) -> Option<(int, Seq<AddressRecordV>)> {
    let (n, recs) = spec_entries(s);
    if recs.len() == 0 {
        None
    } else {
        Some((n, recs))
    }
}

// ===== consumption bounds =====

pub proof fn lemma_spec_ext_len_bounds(s: Seq<char>)
    ensures
        0 <= spec_ext_len(s) <= s.len(),
{
    lemma_run_len_bounds(s, alphap());
    let a = run_len(s, alphap());
    let rest = s.skip(a);
    if rest.len() >= 2 && rest[0] == '/' && is_digit_char(rest[1]) {
        lemma_run_len_bounds(rest.skip(1), digitp());
    }
}

pub proof fn lemma_spec_number_bounds(s: Seq<char>)
    ensures
        spec_number(s) matches Some(r) ==> 1 <= r.0 <= s.len(),
{
    lemma_run_len_bounds(s, digitp());
    let d = run_len(s, digitp());
    if d > 0 {
        lemma_spec_ext_len_bounds(s.skip(d));
    }
}

pub proof fn lemma_spec_range_bounds(s: Seq<char>)
    ensures
        spec_range(s) matches Some(r) ==> 3 <= r.0 <= s.len(),
{
    lemma_spec_number_bounds(s);
    if let Some((n1, _)) = spec_number(s) {
        let rest = s.skip(n1);
        if rest.len() > 0 && rest[0] == '-' {
            lemma_spec_number_bounds(rest.skip(1));
        }
    }
}

pub proof fn lemma_spec_broj_bounds(s: Seq<char>)
    ensures
        spec_broj(s) matches Some(r) ==> 1 <= r.0 <= s.len(),
{
    lemma_spec_range_bounds(s);
    lemma_spec_number_bounds(s);
}

pub proof fn lemma_spec_list_rest_bounds(s: Seq<char>)
    ensures
        0 <= spec_list_rest(s).0 <= s.len(),
    decreases s.len(),
{
    if s.len() > 0 && s[0] == ',' {
        lemma_spec_broj_bounds(s.skip(1));
        if let Some((n, _)) = spec_broj(s.skip(1)) {
            if 0 <= n && 1 + n <= s.len() {
                lemma_spec_list_rest_bounds(s.skip(1 + n));
            }
        }
    }
}

pub proof fn lemma_spec_broj_list_bounds(s: Seq<char>)
    ensures
        spec_broj_list(s) matches Some(r) ==> 1 <= r.0 <= s.len() && r.1.len() >= 1,
{
    lemma_run_len_bounds(s, lspacep());
    let w = run_len(s, lspacep());
    lemma_spec_broj_bounds(s.skip(w));
    if let Some((n, _)) = spec_broj(s.skip(w)) {
        assert(s.skip(w).skip(n) =~= s.skip(w + n));
        lemma_spec_list_rest_bounds(s.skip(w).skip(n));
        let m = spec_list_rest(s.skip(w).skip(n)).0;
        let p = w + n + m;
        let s2 = s.skip(p);
        let c: int = if s2.len() > 0 && s2[0] == ',' {
            1
        } else {
            0
        };
        assert(s2.skip(c) =~= s.skip(p + c));
        lemma_run_len_bounds(s2.skip(c), lspacep());
    }
}

pub proof fn lemma_find_colon_spec(s: Seq<char>)
    ensures
        find_colon(s) matches Some(k) ==> 0 <= k < s.len() && s[k] == ':' && forall|j: int|
            0 <= j < k ==> s[j] != ':',
        find_colon(s) is None ==> forall|j: int| 0 <= j < s.len() ==> s[j] != ':',
    decreases s.len(),
{
    if s.len() == 0 {
    } else if s[0] == ':' {
    } else {
        lemma_find_colon_spec(s.skip(1));
        match find_colon(s.skip(1)) {
            None => {
                assert forall|j: int| 0 <= j < s.len() implies s[j] != ':' by {
                    if j > 0 {
                        assert(s[j] == s.skip(1)[j - 1]);
                    }
                }
            },
            Some(i) => {
                assert(s[1 + i] == s.skip(1)[i]);
                assert forall|j: int| 0 <= j < 1 + i implies s[j] != ':' by {
                    if j > 0 {
                        assert(s[j] == s.skip(1)[j - 1]);
                    }
                }
            },
        }
    }
}

pub proof fn lemma_spec_entry_bounds(s: Seq<char>)
    ensures
        spec_entry(s) matches Some(r) ==> 3 <= r.0 <= s.len(),
{
    lemma_find_colon_spec(s);
    if let Some(k) = find_colon(s) {
        if k > 0 {
            lemma_spec_broj_list_bounds(s.skip(k + 1));
        }
    }
}

/// `find_colon` is determined by where the first `:` stands.
pub proof fn lemma_find_colon_is(s: Seq<char>, k: int)
    requires
        0 <= k < s.len(),
        s[k] == ':',
        forall|j: int| 0 <= j < k ==> s[j] != ':',
    ensures
        find_colon(s) == Some(k),
    decreases s.len(),
{
    if s[0] == ':' {
        assert(k == 0);
    } else {
        assert(k > 0);
        assert(s.skip(1)[k - 1] == s[k]);
        assert forall|j: int| 0 <= j < k - 1 implies s.skip(1)[j] != ':' by {
            assert(s.skip(1)[j] == s[j + 1]);
        }
        lemma_find_colon_is(s.skip(1), k - 1);
    }
}

pub proof fn lemma_find_colon_none(s: Seq<char>)
    requires
        forall|j: int| 0 <= j < s.len() ==> s[j] != ':',
    ensures
        find_colon(s) is None,
    decreases s.len(),
{
    if s.len() > 0 {
        assert forall|j: int| 0 <= j < s.skip(1).len() implies s.skip(1)[j] != ':' by {
            assert(s.skip(1)[j] == s[j + 1]);
        }
        lemma_find_colon_none(s.skip(1));
    }
}

// ===== failure reporting =====

/// What a failed parse was looking for, following the grammar's error
/// taxonomy.
#[derive(Debug, PartialEq, Eq, Clone, Copy)]
pub enum AddressErrorKind {
    /// Digits were expected and none were found (or the number overflows).
    MalformedToken,
    /// A range's separator or right-hand side is missing or malformed.
    MalformedRange,
    /// No specification was recognized where at least one is required.
    MalformedList,
    /// No colon was found, or the street span before it is empty.
    MalformedEntry,
}

/// A parse failure: the unconsumed input and an expectation description.
#[derive(Debug, PartialEq, Eq, Clone)]
pub struct AddressError {
    pub remaining: String,
    pub kind: AddressErrorKind,
}

pub struct AddressErrorV {
    pub remaining: Seq<char>,
    pub kind: AddressErrorKind,
}

impl View for AddressError {
    type V = AddressErrorV;

    open spec fn view(&self) -> AddressErrorV {
        AddressErrorV { remaining: self.remaining@, kind: self.kind }
    }
}

/// The error reported when a range fails: the left-hand number's own failure
/// when there is one, otherwise the missing separator or right-hand side.
pub open spec fn spec_range_fail_kind(s: Seq<char>) -> AddressErrorKind {
    if spec_number(s) is None {
        AddressErrorKind::MalformedToken
    } else {
        AddressErrorKind::MalformedRange
    }
}

/// The error reported when an entry fails: a missing colon or empty street
/// span is a malformed entry, otherwise its list failed.
pub open spec fn spec_entry_fail_kind(s: Seq<char>) -> AddressErrorKind {
    match find_colon(s) {
        None => AddressErrorKind::MalformedEntry,
        Some(k) => if k == 0 {
            AddressErrorKind::MalformedEntry
        } else {
            AddressErrorKind::MalformedList
        },
    }
}

// ===== executable parsers =====
//
// Each scanner works on the decoded characters of the whole line and a
// current position, and is verified to agree with its `spec_*` function on
// the input's remainder.

fn scan_number(s: &Vec<char>, pos: usize) -> (r: Option<(usize, BrojNumber)>)
    requires
        pos <= s.len(),
    ensures
        ({
            let sp = spec_number(s@.skip(pos as int));
            match r {
                None => sp is None,
                Some(pr) => pos < pr.0 <= s.len() && sp == Some(((pr.0 - pos) as int, pr.1@)),
            }
        }),
{
    let ghost t = s@.skip(pos as int);
    let d_end: usize = skip_digits(s, pos);
    if d_end == pos {
        return None;
    }
    proof {
        assert forall|i: int| pos <= i < d_end implies is_digit_char(#[trigger] s@[i]) by {
            lemma_run_len_bounds(t, digitp());
            assert(t[i - pos] == s@[i]);
        }
        assert(t.subrange(0, d_end - pos) =~= s@.subrange(pos as int, d_end as int));
    }
    let value: usize = match digits_to_usize(s, pos, d_end) {
        Some(v) => v,
        None => {
            return None;
        },
    };
    let a_end: usize = skip_alpha(s, d_end);
    proof {
        assert(t.skip(d_end - pos) =~= s@.skip(d_end as int));
        assert(s@.skip(d_end as int).skip(a_end - d_end) =~= s@.skip(a_end as int));
    }
    let e_end: usize = if s.len() - a_end >= 2 && s[a_end] == '/' && is_digit(s[a_end + 1]) {
        skip_digits(s, a_end + 1)
    } else {
        a_end
    };
    proof {
        let rest = s@.skip(d_end as int);
        let rest2 = s@.skip(a_end as int);
        assert(rest2.len() >= 2 ==> rest2[0] == s@[a_end as int] && rest2[1] == s@[a_end + 1]);
        if rest2.len() >= 2 && rest2[0] == '/' && is_digit_char(rest2[1]) {
            assert(rest2.skip(1) =~= s@.skip(a_end + 1));
        }
        assert(spec_ext_len(rest) == e_end - d_end);
    }
    let extension: Option<String> = if e_end == d_end {
        None
    } else {
        Some(string_of_range(s, d_end, e_end))
    };
    proof {
        assert(s@.subrange(d_end as int, e_end as int) =~= s@.skip(d_end as int).subrange(
            0,
            e_end - d_end,
        ));
    }
    Some((e_end, BrojNumber { value, extension }))
}

fn scan_range(s: &Vec<char>, pos: usize) -> (r: Option<(usize, BrojRange)>)
    requires
        pos <= s.len(),
    ensures
        ({
            let sp = spec_range(s@.skip(pos as int));
            match r {
                None => sp is None,
                Some(pr) => pos < pr.0 <= s.len() && sp == Some(((pr.0 - pos) as int, pr.1@)),
            }
        }),
{
    let ghost t = s@.skip(pos as int);
    match scan_number(s, pos) {
        None => None,
        Some((p1, from)) => {
            proof {
                assert(t.skip(p1 - pos) =~= s@.skip(p1 as int));
            }
            if p1 < s.len() && s[p1] == '-' {
                proof {
                    assert(s@.skip(p1 as int).skip(1) =~= s@.skip(p1 + 1));
                }
                match scan_number(s, p1 + 1) {
                    None => None,
                    Some((p2, to)) => Some((p2, BrojRange { from, to })),
                }
            } else {
                None
            }
        },
    }
}

fn scan_broj(s: &Vec<char>, pos: usize) -> (r: Option<(usize, Broj)>)
    requires
        pos <= s.len(),
    ensures
        ({
            let sp = spec_broj(s@.skip(pos as int));
            match r {
                None => sp is None,
                Some(pr) => pos < pr.0 <= s.len() && sp == Some(((pr.0 - pos) as int, pr.1@)),
            }
        }),
{
    let ghost t = s@.skip(pos as int);
    if s.len() - pos >= 2 && (s[pos] == 'B' || s[pos] == 'b') && (s[pos + 1] == 'B' || s[pos + 1]
        == 'b') {
        proof {
            assert(t[0] == s@[pos as int] && t[1] == s@[pos + 1]);
        }
        return Some((pos + 2, Broj::Bez));
    }
    proof {
        assert(t.len() >= 2 ==> t[0] == s@[pos as int] && t[1] == s@[pos + 1]);
        assert(!spec_bb(t));
    }
    match scan_range(s, pos) {
        Some((p, r)) => Some((p, Broj::Range(r))),
        None => match scan_number(s, pos) {
            Some((p, n)) => Some((p, Broj::Number(n))),
            None => None,
        },
    }
}

fn scan_broj_list(s: &Vec<char>, pos: usize) -> (r: Option<(usize, Vec<Broj>)>)
    requires
        pos <= s.len(),
    ensures
        ({
            let sp = spec_broj_list(s@.skip(pos as int));
            match r {
                None => sp is None,
                Some(pr) => match sp {
                    Some(q) => pos < pr.0 <= s.len() && q.0 == pr.0 - pos && q.1 == brojs_view(
                        pr.1@,
                    ),
                    None => false,
                },
            }
        }),
{
    let ghost t = s@.skip(pos as int);
    let w_end: usize = skip_list_spaces(s, pos);
    proof {
        assert(t.skip(w_end - pos) =~= s@.skip(w_end as int));
    }
    match scan_broj(s, w_end) {
        None => None,
        Some((p0, b0)) => {
            let mut items: Vec<Broj> = Vec::new();
            items.push(b0);
            let mut cur: usize = p0;
            let mut done: bool = false;
            while !done
                invariant
                    p0 <= cur <= s.len(),
                    items@.len() >= 1,
                    items@[0] == b0,
                    ({
                        let r0 = spec_list_rest(s@.skip(p0 as int));
                        let rc = if done {
                            (0int, Seq::<BrojV>::empty())
                        } else {
                            spec_list_rest(s@.skip(cur as int))
                        };
                        r0.0 == (cur - p0) + rc.0 && r0.1 == brojs_view(items@.skip(1)) + rc.1
                    }),
                decreases s.len() - cur + (if done {
                    0int
                } else {
                    1int
                }),
            {
                let ghost u = s@.skip(cur as int);
                if cur < s.len() && s[cur] == ',' {
                    proof {
                        assert(u[0] == s@[cur as int]);
                        assert(u.skip(1) =~= s@.skip(cur + 1));
                    }
                    match scan_broj(s, cur + 1) {
                        Some((q, b)) => {
                            proof {
                                let n = q - (cur + 1);
                                assert(u.skip(1 + n) =~= s@.skip(q as int));
                                let prev = items@;
                                assert(brojs_view(prev.push(b).skip(1)) =~= brojs_view(
                                    prev.skip(1),
                                ).push(b@));
                                assert(seq![b@] + spec_list_rest(s@.skip(q as int)).1
                                    =~= spec_list_rest(u).1);
                                assert(brojs_view(prev.skip(1)).push(b@) + spec_list_rest(
                                    s@.skip(q as int),
                                ).1 =~= brojs_view(prev.skip(1)) + spec_list_rest(u).1);
                            }
                            items.push(b);
                            cur = q;
                        },
                        None => {
                            proof {
                                assert(spec_list_rest(u).0 == 0);
                                assert(brojs_view(items@.skip(1)) + Seq::<BrojV>::empty()
                                    =~= brojs_view(items@.skip(1)));
                            }
                            done = true;
                        },
                    }
                } else {
                    proof {
                        assert(spec_list_rest(u).0 == 0);
                        assert(brojs_view(items@.skip(1)) + Seq::<BrojV>::empty() =~= brojs_view(
                            items@.skip(1),
                        ));
                    }
                    done = true;
                }
            }
            let c_end: usize = if cur < s.len() && s[cur] == ',' {
                cur + 1
            } else {
                cur
            };
            let w2_end: usize = skip_list_spaces(s, c_end);
            proof {
                let w = w_end - pos;
                let n = p0 - w_end;
                let m = cur - p0;
                assert(t.skip(w).skip(n) =~= s@.skip(p0 as int));
                let s2 = t.skip(w + n + m);
                assert(s2 =~= s@.skip(cur as int));
                let c: int = if s2.len() > 0 && s2[0] == ',' {
                    1
                } else {
                    0
                };
                assert(s2.len() > 0 ==> s2[0] == s@[cur as int]);
                assert(c == c_end - cur);
                assert(s2.skip(c) =~= s@.skip(c_end as int));
                assert(brojs_view(items@) =~= seq![b0@] + brojs_view(items@.skip(1)));
            }
            Some((w2_end, items))
        },
    }
}

fn scan_entry(s: &Vec<char>, pos: usize) -> (r: Result<(usize, AddressRecord), AddressErrorKind>)
    requires
        pos <= s.len(),
    ensures
        ({
            let sp = spec_entry(s@.skip(pos as int));
            match r {
                Err(k) => sp is None && k == spec_entry_fail_kind(s@.skip(pos as int)),
                Ok(pr) => match sp {
                    Some(q) => pos < pr.0 <= s.len() && q.0 == pr.0 - pos && q.1 == pr.1@,
                    None => false,
                },
            }
        }),
{
    let ghost t = s@.skip(pos as int);
    // find the first ':'
    let mut k: usize = pos;
    while k < s.len() && s[k] != ':'
        invariant
            pos <= k <= s.len(),
            forall|j: int| pos <= j < k ==> s@[j] != ':',
        decreases s.len() - k,
    {
        k = k + 1;
    }
    proof {
        assert forall|j: int| 0 <= j < k - pos implies t[j] != ':' by {
            assert(t[j] == s@[pos + j]);
        }
    }
    if k == s.len() {
        proof {
            lemma_find_colon_none(t);
        }
        return Err(AddressErrorKind::MalformedEntry);
    }
    proof {
        assert(t[k - pos] == s@[k as int]);
        lemma_find_colon_is(t, k - pos);
    }
    if k == pos {
        return Err(AddressErrorKind::MalformedEntry);
    }
    // trim the street span
    let mut lo: usize = pos;
    while lo < k && is_trim_space(s[lo])
        invariant
            pos <= lo <= k < s.len(),
            forall|j: int| pos <= j < lo ==> is_trim_space_char(#[trigger] s@[j]),
        decreases k - lo,
    {
        lo = lo + 1;
    }
    let mut hi: usize = k;
    while hi > lo && is_trim_space(s[hi - 1])
        invariant
            lo <= hi <= k < s.len(),
            forall|j: int| hi <= j < k ==> is_trim_space_char(#[trigger] s@[j]),
        decreases hi,
    {
        hi = hi - 1;
    }
    let street: String = string_of_range(s, lo, hi);
    proof {
        let raw = t.subrange(0, k - pos);
        assert(raw =~= s@.subrange(pos as int, k as int));
        assert forall|j: int| 0 <= j < lo - pos implies tspacep()(#[trigger] raw[j]) by {
            assert(raw[j] == s@[pos + j]);
        }
        if lo - pos < raw.len() {
            assert(raw[lo - pos] == s@[lo as int]);
        }
        lemma_run_len_is(raw, tspacep(), lo - pos);
        let core = raw.skip(lo - pos);
        assert(core =~= s@.subrange(lo as int, k as int));
        assert forall|j: int| core.len() - (k - hi) <= j < core.len() implies tspacep()(
            #[trigger] core[j],
        ) by {
            assert(core[j] == s@[lo + j]);
        }
        if k - hi < core.len() {
            assert(core[core.len() - (k - hi) - 1] == s@[hi - 1]);
        }
        lemma_rev_run_len_is(core, tspacep(), k - hi);
        assert(core.take(core.len() - (k - hi)) =~= s@.subrange(lo as int, hi as int));
        assert(spec_trim(raw) == s@.subrange(lo as int, hi as int));
        assert(t.skip((k - pos) + 1) =~= s@.skip(k + 1));
    }
    match scan_broj_list(s, k + 1) {
        None => Err(AddressErrorKind::MalformedList),
        Some((e, numbers)) => Ok((e, AddressRecord { street, numbers })),
    }
}

fn scan_entries(s: &Vec<char>, pos: usize) -> (r: (usize, Vec<AddressRecord>, AddressErrorKind))
    requires
        pos <= s.len(),
    ensures
        ({
            let sp = spec_entries(s@.skip(pos as int));
            &&& pos <= r.0 <= s.len()
            &&& sp.0 == r.0 - pos
            &&& sp.1 == records_view(r.1@)
            &&& spec_entry(s@.skip(r.0 as int)) is None
            &&& r.2 == spec_entry_fail_kind(s@.skip(r.0 as int))
        }),
{
    let mut recs: Vec<AddressRecord> = Vec::new();
    let mut cur: usize = pos;
    let mut fail: AddressErrorKind = AddressErrorKind::MalformedEntry;
    let mut done: bool = false;
    while !done
        invariant
            pos <= cur <= s.len(),
            ({
                let r0 = spec_entries(s@.skip(pos as int));
                let rc = if done {
                    (0int, Seq::<AddressRecordV>::empty())
                } else {
                    spec_entries(s@.skip(cur as int))
                };
                r0.0 == (cur - pos) + rc.0 && r0.1 == records_view(recs@) + rc.1
            }),
            done ==> spec_entry(s@.skip(cur as int)) is None && fail == spec_entry_fail_kind(
                s@.skip(cur as int),
            ),
        decreases s.len() - cur + (if done {
            0int
        } else {
            1int
        }),
    {
        let ghost u = s@.skip(cur as int);
        match scan_entry(s, cur) {
            Ok((q, rec)) => {
                proof {
                    lemma_spec_entry_bounds(u);
                    assert(u.skip(q - cur) =~= s@.skip(q as int));
                    let prev = recs@;
                    assert(records_view(prev.push(rec)) =~= records_view(prev).push(rec@));
                    assert(seq![rec@] + spec_entries(s@.skip(q as int)).1 =~= spec_entries(u).1);
                    assert(records_view(prev).push(rec@) + spec_entries(s@.skip(q as int)).1
                        =~= records_view(prev) + spec_entries(u).1);
                }
                recs.push(rec);
                cur = q;
            },
            Err(kind) => {
                proof {
                    assert(spec_entries(u).0 == 0);
                    assert(records_view(recs@) + Seq::<AddressRecordV>::empty() =~= records_view(
                        recs@,
                    ));
                }
                fail = kind;
                done = true;
            },
        }
    }
    (cur, recs, fail)
}

// ===== the public parsers =====
//
// Each takes one line of pre-normalized text and returns the unconsumed
// remainder together with the parsed value, or the failure with the whole
// input and an expectation description.

/// Parses a house number with its optional extension.
pub fn address_number(input: &str) -> (r: Result<(String, BrojNumber), AddressError>)
    ensures
        ({
            let sp = spec_number(input@);
            match r {
                Ok(pr) => match sp {
                    Some(q) => pr.1@ == q.1 && pr.0@ == input@.skip(q.0),
                    None => false,
                },
                Err(e) => sp is None && e@.remaining == input@ && e@.kind
                    == AddressErrorKind::MalformedToken,
            }
        }),
{
    let chars: Vec<char> = str_to_chars(input);
    proof {
        assert(chars@.skip(0) =~= input@);
    }
    match scan_number(&chars, 0) {
        Some((p, tok)) => {
            let rest: String = string_of_range(&chars, p, chars.len());
            proof {
                assert(chars@.subrange(p as int, chars@.len() as int) =~= input@.skip(p as int));
            }
            Ok((rest, tok))
        },
        None => Err(
            AddressError { remaining: input.to_owned(), kind: AddressErrorKind::MalformedToken },
        ),
    }
}

/// Parses a range of two house numbers joined by `-`.
pub fn address_number_range(input: &str) -> (r: Result<(String, BrojRange), AddressError>)
    ensures
        ({
            let sp = spec_range(input@);
            match r {
                Ok(pr) => match sp {
                    Some(q) => pr.1@ == q.1 && pr.0@ == input@.skip(q.0),
                    None => false,
                },
                Err(e) => sp is None && e@.remaining == input@ && e@.kind == spec_range_fail_kind(
                    input@,
                ),
            }
        }),
{
    let chars: Vec<char> = str_to_chars(input);
    proof {
        assert(chars@.skip(0) =~= input@);
    }
    match scan_range(&chars, 0) {
        Some((p, rng)) => {
            let rest: String = string_of_range(&chars, p, chars.len());
            proof {
                assert(chars@.subrange(p as int, chars@.len() as int) =~= input@.skip(p as int));
            }
            Ok((rest, rng))
        },
        None => {
            let kind: AddressErrorKind = match scan_number(&chars, 0) {
                Some(_) => AddressErrorKind::MalformedRange,
                None => AddressErrorKind::MalformedToken,
            };
            Err(AddressError { remaining: input.to_owned(), kind })
        },
    }
}

/// Parses one specification: the `BB` marker, a range, or a single number,
/// tried in that order.
pub fn broj(input: &str) -> (r: Result<(String, Broj), AddressError>)
    ensures
        ({
            let sp = spec_broj(input@);
            match r {
                Ok(pr) => match sp {
                    Some(q) => pr.1@ == q.1 && pr.0@ == input@.skip(q.0),
                    None => false,
                },
                Err(e) => sp is None && e@.remaining == input@ && e@.kind
                    == AddressErrorKind::MalformedToken,
            }
        }),
{
    let chars: Vec<char> = str_to_chars(input);
    proof {
        assert(chars@.skip(0) =~= input@);
    }
    match scan_broj(&chars, 0) {
        Some((p, b)) => {
            let rest: String = string_of_range(&chars, p, chars.len());
            proof {
                assert(chars@.subrange(p as int, chars@.len() as int) =~= input@.skip(p as int));
            }
            Ok((rest, b))
        },
        None => Err(
            AddressError { remaining: input.to_owned(), kind: AddressErrorKind::MalformedToken },
        ),
    }
}

/// Parses a comma-separated list of specifications, tolerating whitespace at
/// the list boundaries and a single trailing comma.
pub fn broj_list(input: &str) -> (r: Result<(String, Vec<Broj>), AddressError>)
    ensures
        ({
            let sp = spec_broj_list(input@);
            match r {
                Ok(pr) => match sp {
                    Some(q) => brojs_view(pr.1@) == q.1 && pr.0@ == input@.skip(q.0),
                    None => false,
                },
                Err(e) => sp is None && e@.remaining == input@ && e@.kind
                    == AddressErrorKind::MalformedList,
            }
        }),
{
    let chars: Vec<char> = str_to_chars(input);
    proof {
        assert(chars@.skip(0) =~= input@);
    }
    match scan_broj_list(&chars, 0) {
        Some((p, items)) => {
            let rest: String = string_of_range(&chars, p, chars.len());
            proof {
                assert(chars@.subrange(p as int, chars@.len() as int) =~= input@.skip(p as int));
            }
            Ok((rest, items))
        },
        None => Err(
            AddressError { remaining: input.to_owned(), kind: AddressErrorKind::MalformedList },
        ),
    }
}

/// Parses one street entry: the span before the first colon, trimmed, then
/// the entry's number list.
pub fn address_number_pair(input: &str) -> (r: Result<(String, AddressRecord), AddressError>)
    ensures
        ({
            let sp = spec_entry(input@);
            match r {
                Ok(pr) => match sp {
                    Some(q) => pr.1@ == q.1 && pr.0@ == input@.skip(q.0),
                    None => false,
                },
                Err(e) => sp is None && e@.remaining == input@ && e@.kind == spec_entry_fail_kind(
                    input@,
                ),
            }
        }),
{
    let chars: Vec<char> = str_to_chars(input);
    proof {
        assert(chars@.skip(0) =~= input@);
    }
    match scan_entry(&chars, 0) {
        Ok((p, rec)) => {
            let rest: String = string_of_range(&chars, p, chars.len());
            proof {
                assert(chars@.subrange(p as int, chars@.len() as int) =~= input@.skip(p as int));
            }
            Ok((rest, rec))
        },
        Err(kind) => Err(AddressError { remaining: input.to_owned(), kind }),
    }
}

/// Parses a whole row: as many street entries as will match, in source
/// order.  At least one entry must be recognized; the unmatched tail is
/// returned unconsumed.
pub fn addresses(input: &str) -> (r: Result<(String, Vec<AddressRecord>), AddressError>)
    ensures
        ({
            let sp = spec_addresses(input@);
            match r {
                Ok(pr) => match sp {
                    Some(q) => records_view(pr.1@) == q.1 && pr.0@ == input@.skip(q.0),
                    None => false,
                },
                Err(e) => sp is None && e@.remaining == input@ && e@.kind == spec_entry_fail_kind(
                    input@,
                ),
            }
        }),
{
    let chars: Vec<char> = str_to_chars(input);
    proof {
        assert(chars@.skip(0) =~= input@);
    }
    let (p, recs, fail) = scan_entries(&chars, 0);
    if recs.len() == 0 {
        proof {
            assert(records_view(recs@) =~= Seq::<AddressRecordV>::empty());
            assert(p == 0);
        }
        Err(AddressError { remaining: input.to_owned(), kind: fail })
    } else {
        let rest: String = string_of_range(&chars, p, chars.len());
        proof {
            assert(chars@.subrange(p as int, chars@.len() as int) =~= input@.skip(p as int));
        }
        Ok((rest, recs))
    }
}

// ===== the facade =====

/// The parsed form of one row: its street entries, in source order.
#[derive(Debug, PartialEq, Eq)]
pub struct Addresses {
    items: Vec<AddressRecord>,
}

impl View for Addresses {
    type V = Seq<AddressRecordV>;

    closed spec fn view(&self) -> Seq<AddressRecordV> {
        records_view(self.items@)
    }
}

impl Addresses {
    /// Parses one row, discarding any unmatched tail after the last
    /// recognized entry.
    pub fn parse(input: &str) -> (r: Result<Addresses, AddressError>)
        ensures
            ({
                let sp = spec_addresses(input@);
                match r {
                    Ok(a) => match sp {
                        Some(q) => a@ == q.1,
                        None => false,
                    },
                    Err(e) => sp is None && e@.remaining == input@ && e@.kind
                        == spec_entry_fail_kind(input@),
                }
            }),
    {
        match addresses(input) {
            Ok((_, items)) => Ok(Addresses { items }),
            Err(e) => Err(e),
        }
    }

    /// The entries, as a read-only sequence.
    pub fn items(&self) -> (r: &Vec<AddressRecord>)
        ensures
            records_view(r@) == self@,
    {
        &self.items
    }

    /// Gives up the entries for by-value consumption.
    pub fn into_items(self) -> (r: Vec<AddressRecord>)
        ensures
            records_view(r@) == self@,
    {
        self.items
    }
}

impl AddressRecord {
    pub fn new(street: String, numbers: Vec<Broj>) -> (r: AddressRecord)
        ensures
            r@.street == street@,
            r@.numbers == brojs_view(numbers@),
    {
        AddressRecord { street, numbers }
    }
}

// ===== laws of the grammar =====

/// The character of one decimal digit.
pub open spec fn digit_char(d: int) -> char {
    if d == 0 {
        '0'
    } else if d == 1 {
        '1'
    } else if d == 2 {
        '2'
    } else if d == 3 {
        '3'
    } else if d == 4 {
        '4'
    } else if d == 5 {
        '5'
    } else if d == 6 {
        '6'
    } else if d == 7 {
        '7'
    } else if d == 8 {
        '8'
    } else {
        '9'
    }
}

/// The decimal rendering of a non-negative integer, most significant digit
/// first.
pub open spec fn spec_render_number(v: int) -> Seq<char>
    decreases v,
{
    if v < 10 {
        seq![digit_char(v)]
    } else {
        spec_render_number(v / 10).push(digit_char(v % 10))
    }
}

/// Membership in the extension grammar: letters, optionally followed by `/`
/// and one or more digits (the letters may be absent).  The empty sequence
/// stands for "no extension".
pub open spec fn is_extension(e: Seq<char>) -> bool {
    let a = run_len(e, alphap());
    let rest = e.skip(a);
    rest.len() == 0 || (rest.len() >= 2 && rest[0] == '/' && (forall|i: int|
        1 <= i < rest.len() ==> is_digit_char(#[trigger] rest[i])))
}

pub proof fn lemma_render_number_digits(v: int)
    requires
        v >= 0,
    ensures
        spec_render_number(v).len() >= 1,
        forall|i: int|
            0 <= i < spec_render_number(v).len() ==> is_digit_char(
                #[trigger] spec_render_number(v)[i],
            ),
        digits_val(spec_render_number(v)) == v,
    decreases v,
{
    if v < 10 {
        assert(spec_render_number(v) =~= seq![digit_char(v)]);
        assert(spec_render_number(v).drop_last() =~= Seq::<char>::empty());
        assert(spec_render_number(v).last() == digit_char(v));
        assert(digit_val(digit_char(v)) == v);
        assert(digits_val(Seq::<char>::empty()) == 0);
        assert(digits_val(spec_render_number(v)) == digits_val(Seq::<char>::empty()) * 10
            + digit_val(digit_char(v)));
    } else {
        lemma_render_number_digits(v / 10);
        let r = spec_render_number(v);
        assert(r.drop_last() =~= spec_render_number(v / 10));
        assert forall|i: int| 0 <= i < r.len() implies is_digit_char(#[trigger] r[i]) by {
            if i < r.len() - 1 {
                assert(r[i] == spec_render_number(v / 10)[i]);
            }
        }
        assert(r.last() == digit_char(v % 10));
        assert(digit_val(digit_char(v % 10)) == v % 10);
        assert(digits_val(r) == (v / 10) * 10 + (v % 10));
        assert((v / 10) * 10 + (v % 10) == v) by {
            vstd::arithmetic::div_mod::lemma_fundamental_div_mod(v, 10);
        }
    }
}

/// An extension is consumed whole when it ends the input.
pub proof fn lemma_extension_consumed(e: Seq<char>)
    requires
        is_extension(e),
    ensures
        spec_ext_len(e) == e.len(),
{
    lemma_run_len_bounds(e, alphap());
    let a = run_len(e, alphap());
    let rest = e.skip(a);
    if rest.len() == 0 {
    } else {
        assert forall|i: int| 0 <= i < rest.skip(1).len() implies digitp()(
            #[trigger] rest.skip(1)[i],
        ) by {
            assert(rest.skip(1)[i] == rest[i + 1]);
        }
        lemma_run_len_is(rest.skip(1), digitp(), rest.len() - 1);
    }
}

/// Rendering a number token and parsing it back recovers it exactly: for
/// every value `v` and every extension `e` of the extension grammar, the
/// token `{v}{e}` parses back to `value == v` with extension `e` (or none
/// when `e` is empty), consuming the whole token.
pub proof fn lemma_number_token_round_trip(v: usize, e: Seq<char>)
    requires
        is_extension(e),
    ensures
        ({
            let s = spec_render_number(v as int) + e;
            spec_number(s) == Some(
                (
                    s.len() as int,
                    BrojNumberV {
                        value: v as int,
                        extension: if e.len() == 0 {
                            None
                        } else {
                            Some(e)
                        },
                    },
                ),
            )
        }),
{
    lemma_render_number_digits(v as int);
    let r = spec_render_number(v as int);
    let s = r + e;
    // the digit run stops exactly at the rendered digits: an extension never
    // begins with a digit
    assert forall|i: int| 0 <= i < r.len() implies digitp()(#[trigger] s[i]) by {
        assert(s[i] == r[i]);
    }
    lemma_run_len_bounds(e, alphap());
    if r.len() < s.len() {
        assert(s[r.len() as int] == e[0]);
        let a = run_len(e, alphap());
        if a > 0 {
            assert(is_alpha_char(e[0]));
        } else {
            assert(e.skip(0) =~= e);
            assert(e[0] == '/');
        }
        assert(!digitp()(s[r.len() as int]));
    }
    lemma_run_len_is(s, digitp(), r.len() as int);
    assert(s.subrange(0, r.len() as int) =~= r);
    assert(s.skip(r.len() as int) =~= e);
    lemma_extension_consumed(e);
    if e.len() > 0 {
        assert(e.subrange(0, e.len() as int) =~= e);
    }
}

/// Alternation is order-sensitive: wherever a range parse succeeds, the
/// specification alternation yields that whole range, never the single
/// number that forms its left half.
pub proof fn lemma_range_wins_over_single(s: Seq<char>, n: int, rg: BrojRangeV)
    requires
        spec_range(s) == Some((n, rg)),
    ensures
        spec_broj(s) == Some((n, BrojV::Range(rg))),
{
    // a range starts with a digit, so the `BB` marker cannot match
    lemma_run_len_bounds(s, digitp());
    assert(run_len(s, digitp()) >= 1);
    assert(is_digit_char(s[0]));
}

/// A row parse succeeds exactly when its first entry parses: a failure
/// after at least one recognized entry is not surfaced, it only ends the
/// row.
pub proof fn lemma_row_succeeds_iff_first_entry(s: Seq<char>)
    ensures
        spec_addresses(s) is Some <==> spec_entry(s) is Some,
{
    lemma_spec_entry_bounds(s);
}

// ----- insensitivity to a single trailing comma -----

/// Appending a character that no run accepts leaves the run unchanged.
pub proof fn lemma_run_len_push(s: Seq<char>, p: spec_fn(char) -> bool, c: char)
    requires
        !p(c),
    ensures
        run_len(s.push(c), p) == run_len(s, p),
{
    lemma_run_len_bounds(s, p);
    let k = run_len(s, p);
    assert forall|i: int| 0 <= i < k implies p(#[trigger] s.push(c)[i]) by {
        assert(s.push(c)[i] == s[i]);
    }
    if k < s.len() {
        assert(s.push(c)[k] == s[k]);
    } else {
        assert(s.push(c)[k] == c);
    }
    lemma_run_len_is(s.push(c), p, k);
}

/// Appending a comma never changes the extension span.
pub proof fn lemma_ext_len_push_comma(s: Seq<char>)
    ensures
        spec_ext_len(s.push(',')) == spec_ext_len(s),
{
    lemma_run_len_push(s, alphap(), ',');
    lemma_run_len_bounds(s, alphap());
    let a = run_len(s, alphap());
    let rest = s.skip(a);
    assert(s.push(',').skip(a) =~= rest.push(','));
    if rest.len() >= 2 {
        assert(rest.push(',')[0] == rest[0] && rest.push(',')[1] == rest[1]);
        if rest[0] == '/' && is_digit_char(rest[1]) {
            assert(rest.push(',').skip(1) =~= rest.skip(1).push(','));
            lemma_run_len_push(rest.skip(1), digitp(), ',');
        }
    } else if rest.len() == 1 {
        assert(rest.push(',')[0] == rest[0] && rest.push(',')[1] == ',');
    }
}

/// Appending a comma never changes a number token.
pub proof fn lemma_number_push_comma(s: Seq<char>)
    ensures
        spec_number(s.push(',')) == spec_number(s),
{
    lemma_run_len_push(s, digitp(), ',');
    lemma_run_len_bounds(s, digitp());
    let d = run_len(s, digitp());
    if d > 0 {
        assert(s.push(',').subrange(0, d) =~= s.subrange(0, d));
        assert(s.push(',').skip(d) =~= s.skip(d).push(','));
        lemma_ext_len_push_comma(s.skip(d));
        lemma_spec_ext_len_bounds(s.skip(d));
        let e = spec_ext_len(s.skip(d));
        if e > 0 {
            assert(s.skip(d).push(',').subrange(0, e) =~= s.skip(d).subrange(0, e));
        }
    }
}

/// Appending a comma never changes a range.
pub proof fn lemma_range_push_comma(s: Seq<char>)
    ensures
        spec_range(s.push(',')) == spec_range(s),
{
    lemma_number_push_comma(s);
    lemma_spec_number_bounds(s);
    if let Some((n1, _)) = spec_number(s) {
        let rest = s.skip(n1);
        assert(s.push(',').skip(n1) =~= rest.push(','));
        if rest.len() > 0 {
            assert(rest.push(',')[0] == rest[0]);
        }
        if rest.len() > 0 && rest[0] == '-' {
            assert(rest.push(',').skip(1) =~= rest.skip(1).push(','));
            lemma_number_push_comma(rest.skip(1));
        } else if rest.len() == 0 {
            // the appended comma is not a separator, and nothing follows it
            assert(rest.push(',')[0] == ',');
        }
    }
}

/// Appending a comma never changes a specification.
pub proof fn lemma_broj_push_comma(s: Seq<char>)
    ensures
        spec_broj(s.push(',')) == spec_broj(s),
{
    if s.len() >= 1 {
        assert(s.push(',')[0] == s[0]);
    }
    if s.len() >= 2 {
        assert(s.push(',')[1] == s[1]);
    }
    if s.len() == 1 {
        assert(s.push(',')[1] == ',');
    }
    if s.len() == 0 {
        assert(s.push(',')[0] == ',');
    }
    lemma_range_push_comma(s);
    lemma_number_push_comma(s);
}

/// A fully consumed tail of comma-separated specifications is unchanged by
/// one more trailing comma: the comma is left unconsumed.
pub proof fn lemma_list_rest_push_comma(u: Seq<char>)
    requires
        spec_list_rest(u).0 == u.len(),
    ensures
        spec_list_rest(u.push(',')) == spec_list_rest(u),
    decreases u.len(),
{
    if u.len() == 0 {
        assert(u.push(',')[0] == ',');
        assert(u.push(',').skip(1) =~= Seq::<char>::empty());
    } else {
        assert(u[0] == ',');
        assert(u.push(',')[0] == ',');
        assert(u.push(',').skip(1) =~= u.skip(1).push(','));
        lemma_broj_push_comma(u.skip(1));
        lemma_spec_broj_bounds(u.skip(1));
        let (n, b) = spec_broj(u.skip(1))->Some_0;
        assert(u.push(',').skip(1 + n) =~= u.skip(1 + n).push(','));
        lemma_list_rest_push_comma(u.skip(1 + n));
    }
}

/// A list that parses to completion and does not already end in a comma or
/// in whitespace parses to the same items when a single trailing comma is
/// appended.
pub proof fn lemma_trailing_comma_insensitive(s: Seq<char>, items: Seq<BrojV>)
    requires
        spec_broj_list(s) == Some((s.len() as int, items)),
        s.len() > 0 && !is_list_space_char(s.last()) && s.last() != ',',
    ensures
        spec_broj_list(s.push(',')) == Some(((s.len() + 1) as int, items)),
{
    lemma_run_len_bounds(s, lspacep());
    let w = run_len(s, lspacep());
    lemma_spec_broj_bounds(s.skip(w));
    let (n, b0) = spec_broj(s.skip(w))->Some_0;
    assert(s.skip(w).skip(n) =~= s.skip(w + n));
    lemma_spec_list_rest_bounds(s.skip(w + n));
    let m = spec_list_rest(s.skip(w + n)).0;
    let p = w + n + m;
    let s2 = s.skip(p);
    let c: int = if s2.len() > 0 && s2[0] == ',' {
        1
    } else {
        0
    };
    let w2 = run_len(s2.skip(c), lspacep());
    lemma_run_len_bounds(s2.skip(c), lspacep());
    assert(p + c + w2 == s.len());
    // nothing may follow the items: a trailing comma or space would be the
    // last character, which the premise excludes
    if w2 > 0 {
        assert(is_list_space_char(s2.skip(c)[w2 - 1]));
        assert(s2.skip(c)[w2 - 1] == s[s.len() - 1]);
        assert(false);
    }
    if c == 1 {
        assert(s2[0] == s[s.len() - 1]);
        assert(false);
    }
    assert(p == s.len());
    assert(m == s.skip(w + n).len());
    // now parse the extended input
    let s_ = s.push(',');
    lemma_run_len_push(s, lspacep(), ',');
    assert(s_.skip(w) =~= s.skip(w).push(','));
    lemma_broj_push_comma(s.skip(w));
    assert(s_.skip(w).skip(n) =~= s.skip(w + n).push(','));
    lemma_list_rest_push_comma(s.skip(w + n));
    let s2_ = s_.skip(p);
    assert(s2_ =~= seq![',']);
    assert(s2_[0] == ',');
    assert(s2_.skip(1) =~= Seq::<char>::empty());
    assert(run_len(s2_.skip(1), lspacep()) == 0);
    assert(seq![b0] + spec_list_rest(s.skip(w + n)).1 == items);
}

} // verus!
