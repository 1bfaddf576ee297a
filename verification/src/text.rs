//! The textual grammar for version and range literals:
//!
//! ```text
//! version    := uint "." uint "." uint
//! relation   := "<=" | "<"
//! range      := version relation "v" relation version   (spaces around tokens)
//! constraint := range | version
//! ```
//!
//! Parsing reads a literal prefix and ignores what follows it; displaying
//! produces the canonical text, and parsing a displayed value returns the
//! value itself.

use crate::version::{DependencyVersion, Relation, SemVer, VersionRange};
use vstd::prelude::*;
use vstd::string::StrSliceExecFns;
use vstd::string::StringExecFns;

verus! {

/// The decimal digit characters.
pub open spec fn is_digit(c: char) -> bool {
    c == '0' || c == '1' || c == '2' || c == '3' || c == '4' || c == '5' || c == '6' || c == '7'
        || c == '8' || c == '9'
}

/// The numeric value of a decimal digit character.
pub open spec fn digit_val(c: char) -> int {
    if c == '0' {
        0
    } else if c == '1' {
        1
    } else if c == '2' {
        2
    } else if c == '3' {
        3
    } else if c == '4' {
        4
    } else if c == '5' {
        5
    } else if c == '6' {
        6
    } else if c == '7' {
        7
    } else if c == '8' {
        8
    } else {
        9
    }
}

/// Whether `c` counts as skippable whitespace around range tokens.
pub open spec fn is_space(c: char) -> bool {
    c == ' ' || c == '\t'
}

/// The first position at or after `i` holding no space character.
pub open spec fn space_end(s: Seq<char>, i: int) -> int
    decreases s.len() - i,
{
    if 0 <= i < s.len() && is_space(s[i]) {
        space_end(s, i + 1)
    } else {
        i
    }
}

/// The first position at or after `i` holding no digit character.
pub open spec fn digits_end(s: Seq<char>, i: int) -> int
    decreases s.len() - i,
{
    if 0 <= i < s.len() && is_digit(s[i]) {
        digits_end(s, i + 1)
    } else {
        i
    }
}

/// The value of the decimal digit run `s[i..j]`, read left to right.
pub open spec fn num_val(s: Seq<char>, i: int, j: int) -> int
    decreases j - i,
{
    if j <= i {
        0
    } else {
        num_val(s, i, j - 1) * 10 + digit_val(s[j - 1])
    }
}

/// A digit run stays within the text.
pub proof fn lemma_digits_end_bounds(s: Seq<char>, i: int)
    requires
        0 <= i <= s.len(),
    ensures
        i <= digits_end(s, i) <= s.len(),
    decreases s.len() - i,
{
    if i < s.len() && is_digit(s[i]) {
        lemma_digits_end_bounds(s, i + 1);
    }
}

/// A digit-run value is never negative.
pub proof fn lemma_num_val_nonneg(s: Seq<char>, i: int, j: int)
    ensures
        num_val(s, i, j) >= 0,
    decreases j - i,
{
    if j > i {
        lemma_num_val_nonneg(s, i, j - 1);
        assert(digit_val(s[j - 1]) >= 0);
    }
}

/// Extending a digit run never shrinks its value.
pub proof fn lemma_num_val_monotone(s: Seq<char>, i: int, j: int, j2: int)
    requires
        i <= j <= j2,
    ensures
        num_val(s, i, j2) >= num_val(s, i, j),
    decreases j2 - j,
{
    if j2 > j {
        lemma_num_val_monotone(s, i, j, j2 - 1);
        lemma_num_val_nonneg(s, i, j2 - 1);
        assert(digit_val(s[j2 - 1]) >= 0);
        assert(num_val(s, i, j2) == num_val(s, i, j2 - 1) * 10 + digit_val(s[j2 - 1]));
        assert(num_val(s, i, j2 - 1) * 10 >= num_val(s, i, j2 - 1)) by (nonlinear_arith)
            requires
                num_val(s, i, j2 - 1) >= 0,
        ;
    }
}

/// Parses a decimal number: the maximal digit run at `i`, failing when
/// there is no digit or the value exceeds the component type.
pub open spec fn spec_parse_u64(s: Seq<char>, i: int) -> Option<(u64, int)> {
    let j = digits_end(s, i);
    if j == i {
        None
    } else if num_val(s, i, j) > u64::MAX {
        None
    } else {
        Some((num_val(s, i, j) as u64, j))
    }
}

/// Consumes the single character `c` at `i`.
pub open spec fn expect_char(s: Seq<char>, i: int, c: char) -> Option<int> {
    if 0 <= i < s.len() && s[i] == c {
        Some(i + 1)
    } else {
        None
    }
}

/// Parses a version literal `uint "." uint "." uint` at `i`.
pub open spec fn spec_parse_semver(s: Seq<char>, i: int) -> Option<(SemVer, int)> {
    match spec_parse_u64(s, i) {
        None => None,
        Some((major, i1)) => match expect_char(s, i1, '.') {
            None => None,
            Some(i2) => match spec_parse_u64(s, i2) {
                None => None,
                Some((minor, i3)) => match expect_char(s, i3, '.') {
                    None => None,
                    Some(i4) => match spec_parse_u64(s, i4) {
                        None => None,
                        Some((patch, i5)) => Some((SemVer { major, minor, patch }, i5)),
                    },
                },
            },
        },
    }
}

/// Parses a relation: `"<="` when the `<` is followed by `=`, else `"<"`.
pub open spec fn spec_parse_relation(s: Seq<char>, i: int) -> Option<(Relation, int)> {
    if 0 <= i < s.len() && s[i] == '<' {
        if i + 1 < s.len() && s[i + 1] == '=' {
            Some((Relation::LTE, i + 2))
        } else {
            Some((Relation::LT, i + 1))
        }
    } else {
        None
    }
}

/// Parses a range literal `version relation "v" relation version`, with
/// spaces allowed around every token and consumed after the last.
pub open spec fn spec_parse_range(s: Seq<char>, i: int) -> Option<(VersionRange, int)> {
    match spec_parse_semver(s, space_end(s, i)) {
        None => None,
        Some((lower, i1)) => match spec_parse_relation(s, space_end(s, i1)) {
            None => None,
            Some((lower_relation, i2)) => match expect_char(s, space_end(s, i2), 'v') {
                None => None,
                Some(i3) => match spec_parse_relation(s, space_end(s, i3)) {
                    None => None,
                    Some((higher_relation, i4)) => match spec_parse_semver(s, space_end(s, i4)) {
                        None => None,
                        Some((higher, i5)) => Some(
                            (
                                VersionRange { lower, lower_relation, higher_relation, higher },
                                space_end(s, i5),
                            ),
                        ),
                    },
                },
            },
        },
    }
}

/// Parses a constraint: a range when one can be read at `i`, otherwise a
/// bare version. The range is attempted first because a bare version is a
/// strict prefix of a range and must not be matched early.
pub open spec fn spec_parse_constraint(s: Seq<char>, i: int) -> Option<(DependencyVersion, int)> {
    match spec_parse_range(s, i) {
        Some((r, j)) => Some((DependencyVersion::VersionRange(r), j)),
        None => match spec_parse_semver(s, i) {
            Some((v, j)) => Some((DependencyVersion::SpecificVersion(v), j)),
            None => None,
        },
    }
}

/// The digit value of `c`, when `c` is a decimal digit.
fn digit_of(c: char) -> (r: Option<u64>)
    ensures
        r matches Some(d) ==> is_digit(c) && d == digit_val(c),
        r is None ==> !is_digit(c),
{
    match c {
        '0' => Some(0),
        '1' => Some(1),
        '2' => Some(2),
        '3' => Some(3),
        '4' => Some(4),
        '5' => Some(5),
        '6' => Some(6),
        '7' => Some(7),
        '8' => Some(8),
        '9' => Some(9),
        _ => None,
    }
}

/// Advances past spaces and tabs.
fn skip_spaces(s: &str, i: usize) -> (r: usize)
    requires
        i <= s@.len(),
    ensures
        r == space_end(s@, i as int),
        i <= r <= s@.len(),
{
    let n = s.unicode_len();
    let mut j = i;
    while j < n
        invariant
            i <= j <= n,
            n == s@.len(),
            space_end(s@, i as int) == space_end(s@, j as int),
        ensures
            i <= j <= n,
            space_end(s@, i as int) == space_end(s@, j as int),
            j == n || !is_space(s@[j as int]),
        decreases n - j,
    {
        let c = s.get_char(j);
        if !(c == ' ' || c == '\t') {
            break ;
        }
        j += 1;
    }
    proof {
        assert(space_end(s@, j as int) == j);
    }
    j
}

/// Reads the maximal decimal digit run at `i` as a component value.
fn parse_u64_at(s: &str, i: usize) -> (r: Option<(u64, usize)>)
    requires
        i <= s@.len(),
    ensures
        r matches Some(p) ==> spec_parse_u64(s@, i as int) == Some((p.0, p.1 as int)) && i < p.1
            <= s@.len(),
        r is None ==> spec_parse_u64(s@, i as int) is None,
{
    let n = s.unicode_len();
    let mut j = i;
    let mut val: u64 = 0;
    while j < n
        invariant
            i <= j <= n,
            n == s@.len(),
            digits_end(s@, i as int) == digits_end(s@, j as int),
            val == num_val(s@, i as int, j as int),
            forall|k: int| i <= k < j ==> is_digit(s@[k]),
        ensures
            i <= j <= n,
            n == s@.len(),
            val == num_val(s@, i as int, j as int),
            digits_end(s@, i as int) == digits_end(s@, j as int),
            j == n || !is_digit(s@[j as int]),
        decreases n - j,
    {
        let c = s.get_char(j);
        let d = match digit_of(c) {
            Some(d) => d,
            None => {
                break ;
            },
        };
        if val > (u64::MAX - d) / 10 {
            // The run's value exceeds the component type: the whole
            // literal is rejected.
            proof {
                let g = s@;
                let gi = i as int;
                let gj = j as int;
                assert(num_val(g, gi, gj + 1) == val * 10 + digit_val(g[gj]));
                assert(val * 10 + d > u64::MAX);
                lemma_digits_end_bounds(g, gj + 1);
                assert(digits_end(g, gj) == digits_end(g, gj + 1));
                lemma_num_val_monotone(g, gi, gj + 1, digits_end(g, gi));
            }
            return None;
        }
        val = val * 10 + d;
        j += 1;
    }
    proof {
        assert(digits_end(s@, j as int) == j);
    }
    if j == i {
        None
    } else {
        Some((val, j))
    }
}

/// A rejected literal, carrying the offending text.
#[derive(Debug, Clone, PartialEq, Eq)]
pub struct ParseError {
    pub input: String,
}

/// Reads a version literal `uint "." uint "." uint` at `i`.
fn parse_semver_at(s: &str, i: usize) -> (r: Option<(SemVer, usize)>)
    requires
        i <= s@.len(),
    ensures
        r matches Some(p) ==> spec_parse_semver(s@, i as int) == Some((p.0, p.1 as int)) && p.1
            <= s@.len(),
        r is None ==> spec_parse_semver(s@, i as int) is None,
{
    let n = s.unicode_len();
    let (major, i1) = match parse_u64_at(s, i) {
        Some(p) => p,
        None => {
            return None;
        },
    };
    if i1 >= n || s.get_char(i1) != '.' {
        return None;
    }
    let (minor, i3) = match parse_u64_at(s, i1 + 1) {
        Some(p) => p,
        None => {
            return None;
        },
    };
    if i3 >= n || s.get_char(i3) != '.' {
        return None;
    }
    let (patch, i5) = match parse_u64_at(s, i3 + 1) {
        Some(p) => p,
        None => {
            return None;
        },
    };
    Some((SemVer { major, minor, patch }, i5))
}

/// Reads a relation at `i`: `"<="` when the `<` is followed by `=`, else `"<"`.
fn parse_relation_at(s: &str, i: usize) -> (r: Option<(Relation, usize)>)
    requires
        i <= s@.len(),
    ensures
        r matches Some(p) ==> spec_parse_relation(s@, i as int) == Some((p.0, p.1 as int)) && p.1
            <= s@.len(),
        r is None ==> spec_parse_relation(s@, i as int) is None,
{
    let n = s.unicode_len();
    if i < n && s.get_char(i) == '<' {
        if i + 1 < n && s.get_char(i + 1) == '=' {
            Some((Relation::LTE, i + 2))
        } else {
            Some((Relation::LT, i + 1))
        }
    } else {
        None
    }
}

/// Reads a range literal at `i`, spaces allowed around every token.
fn parse_range_at(s: &str, i: usize) -> (r: Option<(VersionRange, usize)>)
    requires
        i <= s@.len(),
    ensures
        r matches Some(p) ==> spec_parse_range(s@, i as int) == Some((p.0, p.1 as int)) && p.1
            <= s@.len(),
        r is None ==> spec_parse_range(s@, i as int) is None,
{
    let n = s.unicode_len();
    let i0 = skip_spaces(s, i);
    let (lower, i1) = match parse_semver_at(s, i0) {
        Some(p) => p,
        None => {
            return None;
        },
    };
    let (lower_relation, i2) = match parse_relation_at(s, skip_spaces(s, i1)) {
        Some(p) => p,
        None => {
            return None;
        },
    };
    let i2b = skip_spaces(s, i2);
    if i2b >= n || s.get_char(i2b) != 'v' {
        return None;
    }
    let (higher_relation, i4) = match parse_relation_at(s, skip_spaces(s, i2b + 1)) {
        Some(p) => p,
        None => {
            return None;
        },
    };
    let (higher, i5) = match parse_semver_at(s, skip_spaces(s, i4)) {
        Some(p) => p,
        None => {
            return None;
        },
    };
    Some((VersionRange { lower, lower_relation, higher_relation, higher }, skip_spaces(s, i5)))
}

/// Reads a constraint at `i`: a range when one can be read, else a bare
/// version.
fn parse_constraint_at(s: &str, i: usize) -> (r: Option<(DependencyVersion, usize)>)
    requires
        i <= s@.len(),
    ensures
        r matches Some(p) ==> spec_parse_constraint(s@, i as int) == Some((p.0, p.1 as int)) && p.1
            <= s@.len(),
        r is None ==> spec_parse_constraint(s@, i as int) is None,
{
    match parse_range_at(s, i) {
        Some((rg, j)) => Some((DependencyVersion::VersionRange(rg), j)),
        None => match parse_semver_at(s, i) {
            Some((v, j)) => Some((DependencyVersion::SpecificVersion(v), j)),
            None => None,
        },
    }
}

impl SemVer {
    /// Parses a version literal, ignoring any text after it. Fails exactly
    /// when no version literal starts the text.
    pub fn parse(s: &str) -> (r: Result<SemVer, ParseError>)
        ensures
            (spec_parse_semver(s@, 0) matches Some(p) ==> r == Ok::<SemVer, ParseError>(p.0)),
            (spec_parse_semver(s@, 0) is None ==> (r matches Err(e) && e.input@ == s@)),
    {
        match parse_semver_at(s, 0) {
            Some((v, _)) => Ok(v),
            None => Err(ParseError { input: s.to_owned() }),
        }
    }
}

impl VersionRange {
    /// Parses a range literal, ignoring any text after it. Fails exactly
    /// when no range literal starts the text.
    pub fn parse(s: &str) -> (r: Result<VersionRange, ParseError>)
        ensures
            (spec_parse_range(s@, 0) matches Some(p) ==> r == Ok::<VersionRange, ParseError>(p.0)),
            (spec_parse_range(s@, 0) is None ==> (r matches Err(e) && e.input@ == s@)),
    {
        match parse_range_at(s, 0) {
            Some((rg, _)) => Ok(rg),
            None => Err(ParseError { input: s.to_owned() }),
        }
    }
}

impl DependencyVersion {
    /// Parses a constraint: a range literal when one starts the text,
    /// otherwise a bare version literal; any text after the match is
    /// ignored. Fails exactly when neither starts the text.
    pub fn parse(s: &str) -> (r: Result<DependencyVersion, ParseError>)
        ensures
            (spec_parse_constraint(s@, 0) matches Some(p) ==> r == Ok::<
                DependencyVersion,
                ParseError,
            >(p.0)),
            (spec_parse_constraint(s@, 0) is None ==> (r matches Err(e) && e.input@ == s@)),
    {
        match parse_constraint_at(s, 0) {
            Some((c, _)) => Ok(c),
            None => Err(ParseError { input: s.to_owned() }),
        }
    }
}

/// The character of one decimal digit value.
pub open spec fn digit_char(d: int) -> char {
    if d == 0 {
        '0'
    } else if d == 1 {
        '1'
    } else if d == 2 {
        '2'
    } else if d == 3 {
        '3'
    } else if d == 4 {
        '4'
    } else if d == 5 {
        '5'
    } else if d == 6 {
        '6'
    } else if d == 7 {
        '7'
    } else if d == 8 {
        '8'
    } else {
        '9'
    }
}

/// The decimal digits of `n`, most significant first, without leading
/// zeros (zero itself is the single digit `0`).
pub open spec fn dec_digits(n: int) -> Seq<char>
    decreases n,
{
    if n <= 9 {
        seq![digit_char(n)]
    } else {
        dec_digits(n / 10).push(digit_char(n % 10))
    }
}

/// Appends the decimal digits of `n` to `out`.
fn push_digits(out: &mut String, n: u64)
    ensures
        final (out)@ == old(out)@ + dec_digits(n as int),
    decreases n,
{
    let ghost prefix = out@;
    if n >= 10 {
        push_digits(out, n / 10);
    }
    let d = n % 10;
    match d {
        0 => out.append("0"),
        1 => out.append("1"),
        2 => out.append("2"),
        3 => out.append("3"),
        4 => out.append("4"),
        5 => out.append("5"),
        6 => out.append("6"),
        7 => out.append("7"),
        8 => out.append("8"),
        _ => out.append("9"),
    }
    proof {
        reveal_strlit("0");
        reveal_strlit("1");
        reveal_strlit("2");
        reveal_strlit("3");
        reveal_strlit("4");
        reveal_strlit("5");
        reveal_strlit("6");
        reveal_strlit("7");
        reveal_strlit("8");
        reveal_strlit("9");
        if n >= 10 {
            assert(out@ =~= prefix + dec_digits(n as int / 10).push(digit_char(n as int % 10)));
        } else {
            assert(out@ =~= prefix + seq![digit_char(n as int)]);
        }
    }
}

/// The canonical text of a version, `major.minor.patch`.
pub open spec fn spec_display_semver(v: SemVer) -> Seq<char> {
    dec_digits(v.major as int) + seq!['.'] + dec_digits(v.minor as int) + seq!['.'] + dec_digits(
        v.patch as int,
    )
}

/// The canonical text of a relation, `<=` or `<`.
pub open spec fn spec_display_relation(r: Relation) -> Seq<char> {
    match r {
        Relation::LTE => seq!['<', '='],
        Relation::LT => seq!['<'],
    }
}

/// The canonical text of a range,
/// `lower lower_relation v higher_relation higher`.
pub open spec fn spec_display_range(r: VersionRange) -> Seq<char> {
    spec_display_semver(r.lower) + seq![' '] + spec_display_relation(r.lower_relation) + seq![
        ' ',
        'v',
        ' ',
    ] + spec_display_relation(r.higher_relation) + seq![' '] + spec_display_semver(r.higher)
}

/// The canonical text of a constraint.
pub open spec fn spec_display_constraint(c: DependencyVersion) -> Seq<char> {
    match c {
        DependencyVersion::SpecificVersion(v) => spec_display_semver(v),
        DependencyVersion::VersionRange(r) => spec_display_range(r),
    }
}

impl SemVer {
    /// The canonical text of this version, `major.minor.patch`.
    pub fn display(&self) -> (r: String)
        ensures
            r@ == spec_display_semver(*self),
    {
        let mut out = String::new();
        push_digits(&mut out, self.major);
        out.append(".");
        push_digits(&mut out, self.minor);
        out.append(".");
        push_digits(&mut out, self.patch);
        proof {
            reveal_strlit(".");
            assert(out@ =~= spec_display_semver(*self));
        }
        out
    }
}

impl Relation {
    /// The canonical text of this relation, `<=` or `<`.
    pub fn display(&self) -> (r: String)
        ensures
            r@ == spec_display_relation(*self),
    {
        proof {
            reveal_strlit("<=");
            reveal_strlit("<");
        }
        let out = match self {
            Relation::LTE => String::from_str("<="),
            Relation::LT => String::from_str("<"),
        };
        proof {
            assert(out@ =~= spec_display_relation(*self));
        }
        out
    }
}

impl VersionRange {
    /// The canonical text of this range, with single spaces between the
    /// tokens.
    pub fn display(&self) -> (r: String)
        ensures
            r@ == spec_display_range(*self),
    {
        let mut out = self.lower.display();
        out.append(" ");
        out.append(self.lower_relation.display().as_str());
        out.append(" v ");
        out.append(self.higher_relation.display().as_str());
        out.append(" ");
        out.append(self.higher.display().as_str());
        proof {
            reveal_strlit(" ");
            reveal_strlit(" v ");
            assert(out@ =~= spec_display_range(*self));
        }
        out
    }
}

impl DependencyVersion {
    /// The canonical text of this constraint.
    pub fn display(&self) -> (r: String)
        ensures
            r@ == spec_display_constraint(*self),
    {
        match self {
            DependencyVersion::SpecificVersion(v) => v.display(),
            DependencyVersion::VersionRange(rg) => rg.display(),
        }
    }
}

/// Decimal digit text is nonempty and consists of digit characters.
proof fn lemma_dec_digits_props(n: int)
    requires
        n >= 0,
    ensures
        dec_digits(n).len() >= 1,
        forall|k: int| 0 <= k < dec_digits(n).len() ==> is_digit(#[trigger] dec_digits(n)[k]),
    decreases n,
{
    if n <= 9 {
        assert(is_digit(digit_char(n)));
    } else {
        lemma_dec_digits_props(n / 10);
        assert(is_digit(digit_char(n % 10)));
        assert(forall|k: int|
            0 <= k < dec_digits(n / 10).len() ==> dec_digits(n)[k] == dec_digits(n / 10)[k]);
    }
}

/// Digit-run values only depend on the characters of the run.
proof fn lemma_num_val_shift(s: Seq<char>, t: Seq<char>, si: int, ti: int, len: int)
    requires
        len >= 0,
        forall|k: int| 0 <= k < len ==> s[si + k] == #[trigger] t[ti + k],
    ensures
        num_val(s, si, si + len) == num_val(t, ti, ti + len),
    decreases len,
{
    if len > 0 {
        lemma_num_val_shift(s, t, si, ti, len - 1);
        assert(s[si + (len - 1)] == t[ti + (len - 1)]);
    }
}

/// Reading back the decimal digits of `n` gives `n`.
proof fn lemma_dec_num_val(n: int)
    requires
        n >= 0,
    ensures
        num_val(dec_digits(n), 0, dec_digits(n).len() as int) == n,
    decreases n,
{
    if n <= 9 {
        assert(dec_digits(n)[0] == digit_char(n));
        assert(num_val(dec_digits(n), 0, 0) == 0);
        assert(num_val(dec_digits(n), 0, 1) == 0 * 10 + digit_val(dec_digits(n)[0]));
        assert(digit_val(digit_char(n)) == n);
    } else {
        lemma_dec_num_val(n / 10);
        let d = dec_digits(n / 10);
        let s = dec_digits(n);
        let l = s.len() as int;
        assert(s == d.push(digit_char(n % 10)));
        assert(forall|k: int| 0 <= k < l - 1 ==> s[0 + k] == #[trigger] d[0 + k]);
        lemma_num_val_shift(s, d, 0, 0, l - 1);
        assert(num_val(s, 0, l) == num_val(s, 0, l - 1) * 10 + digit_val(s[l - 1]));
        assert(digit_val(digit_char(n % 10)) == n % 10);
    }
}

/// A digit run bounded by a non-digit (or the end of the text) ends
/// exactly at that boundary.
proof fn lemma_digits_end_exact(s: Seq<char>, i: int, j: int)
    requires
        0 <= i <= j <= s.len(),
        forall|k: int| i <= k < j ==> is_digit(s[k]),
        j == s.len() || !is_digit(s[j]),
    ensures
        digits_end(s, i) == j,
    decreases j - i,
{
    if i < j {
        lemma_digits_end_exact(s, i + 1, j);
    }
}

/// A run of spaces bounded by a non-space (or the end) ends exactly at
/// that boundary.
proof fn lemma_space_end_exact(s: Seq<char>, i: int, j: int)
    requires
        0 <= i <= j <= s.len(),
        forall|k: int| i <= k < j ==> is_space(s[k]),
        j == s.len() || !is_space(s[j]),
    ensures
        space_end(s, i) == j,
    decreases j - i,
{
    if i < j {
        lemma_space_end_exact(s, i + 1, j);
    }
}

/// Parsing a number at a position holding the decimal digits of `n`,
/// bounded by a non-digit, yields `n` and stops at the boundary.
proof fn lemma_parse_u64_at_digits(s: Seq<char>, i: int, n: int)
    requires
        0 <= i,
        0 <= n <= u64::MAX,
        i + dec_digits(n).len() <= s.len(),
        forall|k: int| 0 <= k < dec_digits(n).len() ==> s[i + k] == #[trigger] dec_digits(n)[k],
        i + dec_digits(n).len() == s.len() || !is_digit(s[i + dec_digits(n).len()]),
    ensures
        spec_parse_u64(s, i) == Some((n as u64, i + dec_digits(n).len())),
{
    let d = dec_digits(n);
    let l = d.len() as int;
    lemma_dec_digits_props(n);
    assert forall|k: int| i <= k < i + l implies is_digit(s[k]) by {
        let k2 = k - i;
        assert(s[i + k2] == d[k2]);
        assert(is_digit(d[k2]));
    }
    lemma_digits_end_exact(s, i, i + l);
    lemma_num_val_shift(s, d, i, 0, l);
    lemma_dec_num_val(n);
    assert(num_val(s, i, i + l) == n);
}

/// Parsing a version at a position holding its canonical text, bounded by
/// a non-digit, yields the version and stops at the boundary.
proof fn lemma_parse_semver_at_display(s: Seq<char>, i: int, v: SemVer)
    requires
        0 <= i,
        i + spec_display_semver(v).len() <= s.len(),
        forall|k: int|
            0 <= k < spec_display_semver(v).len() ==> s[i + k] == #[trigger] spec_display_semver(
                v,
            )[k],
        i + spec_display_semver(v).len() == s.len() || !is_digit(
            s[i + spec_display_semver(v).len()],
        ),
    ensures
        spec_parse_semver(s, i) == Some((v, i + spec_display_semver(v).len())),
{
    let dmaj = dec_digits(v.major as int);
    let dmin = dec_digits(v.minor as int);
    let dpat = dec_digits(v.patch as int);
    let disp = spec_display_semver(v);
    let lmaj = dmaj.len() as int;
    let lmin = dmin.len() as int;
    let lpat = dpat.len() as int;
    lemma_dec_digits_props(v.major as int);
    lemma_dec_digits_props(v.minor as int);
    lemma_dec_digits_props(v.patch as int);
    assert(disp.len() == lmaj + 1 + lmin + 1 + lpat);
    assert(forall|k: int| 0 <= k < lmaj ==> disp[k] == dmaj[k]);
    assert(disp[lmaj] == '.');
    assert(forall|k: int| 0 <= k < lmin ==> disp[lmaj + 1 + k] == dmin[k]);
    assert(disp[lmaj + 1 + lmin] == '.');
    assert(forall|k: int| 0 <= k < lpat ==> disp[lmaj + 1 + lmin + 1 + k] == dpat[k]);
    assert(forall|k: int| 0 <= k < lmaj ==> s[i + k] == dmaj[k]);
    assert(!is_digit('.'));
    assert(s[i + lmaj] == '.');
    lemma_parse_u64_at_digits(s, i, v.major as int);
    let i2 = i + lmaj + 1;
    assert(forall|k: int| 0 <= k < lmin ==> s[i2 + k] == dmin[k]);
    assert(s[i2 + lmin] == '.');
    lemma_parse_u64_at_digits(s, i2, v.minor as int);
    let i4 = i2 + lmin + 1;
    assert(forall|k: int| 0 <= k < lpat ==> s[i4 + k] == dpat[k]);
    lemma_parse_u64_at_digits(s, i4, v.patch as int);
    assert(spec_parse_u64(s, i) == Some((v.major, i + lmaj)));
    assert(expect_char(s, i + lmaj, '.') == Some(i2));
    assert(spec_parse_u64(s, i2) == Some((v.minor, i2 + lmin)));
    assert(expect_char(s, i2 + lmin, '.') == Some(i4));
    assert(spec_parse_u64(s, i4) == Some((v.patch, i4 + lpat)));
    assert(SemVer { major: v.major, minor: v.minor, patch: v.patch } == v);
}

/// Parsing the canonical text of a version alone yields the version and
/// consumes the whole text.
pub proof fn lemma_parse_semver_display(v: SemVer)
    ensures
        spec_parse_semver(spec_display_semver(v), 0) == Some(
            (v, spec_display_semver(v).len() as int),
        ),
{
    let s = spec_display_semver(v);
    lemma_parse_semver_at_display(s, 0, v);
}

/// Parsing a relation at a position holding its canonical text yields the
/// relation; a strict relation must not be followed by `=`.
proof fn lemma_parse_relation_at_display(s: Seq<char>, i: int, r: Relation)
    requires
        0 <= i,
        i + spec_display_relation(r).len() <= s.len(),
        forall|k: int|
            0 <= k < spec_display_relation(r).len() ==> s[i + k] == #[trigger] spec_display_relation(
                r,
            )[k],
        r is LT ==> (i + 1 == s.len() || s[i + 1] != '='),
    ensures
        spec_parse_relation(s, i) == Some((r, i + spec_display_relation(r).len())),
{
    match r {
        Relation::LTE => {
            assert(s[i + 0] == spec_display_relation(r)[0]);
            assert(s[i + 1] == spec_display_relation(r)[1]);
            assert(s[i] == '<' && s[i + 1] == '=');
        },
        Relation::LT => {
            assert(s[i + 0] == spec_display_relation(r)[0]);
            assert(s[i] == '<');
        },
    }
}

/// Parsing the canonical text of a range alone yields the range and
/// consumes the whole text.
#[verifier::rlimit(100)]
pub proof fn lemma_parse_range_display(r0: VersionRange)
    ensures
        spec_parse_range(spec_display_range(r0), 0) == Some(
            (r0, spec_display_range(r0).len() as int),
        ),
{
    let dl = spec_display_semver(r0.lower);
    let rl = spec_display_relation(r0.lower_relation);
    let rh = spec_display_relation(r0.higher_relation);
    let dh = spec_display_semver(r0.higher);
    let s = spec_display_range(r0);
    let p1 = dl.len() as int;
    let p2 = p1 + 1;
    let p3 = p2 + rl.len() as int;
    let p4 = p3 + 3;
    let p5 = p4 + rh.len() as int;
    let p6 = p5 + 1;
    let n = s.len() as int;
    assert(n == p6 + dh.len());
    assert(forall|k: int| 0 <= k < dl.len() ==> s[k] == #[trigger] dl[k]);
    assert(s[p1] == ' ');
    assert(forall|k: int| 0 <= k < rl.len() ==> s[p2 + k] == #[trigger] rl[k]);
    assert(s[p3] == ' ');
    assert(s[p3 + 1] == 'v');
    assert(s[p3 + 2] == ' ');
    assert(forall|k: int| 0 <= k < rh.len() ==> s[p4 + k] == #[trigger] rh[k]);
    assert(s[p5] == ' ');
    assert(forall|k: int| 0 <= k < dh.len() ==> s[p6 + k] == #[trigger] dh[k]);
    lemma_dec_digits_props(r0.lower.major as int);
    assert(dl[0] == dec_digits(r0.lower.major as int)[0]);
    assert(is_digit(s[0]));
    lemma_space_end_exact(s, 0, 0);
    lemma_parse_semver_at_display(s, 0, r0.lower);
    assert(rl[0] == '<');
    assert(s[p2] == '<');
    lemma_space_end_exact(s, p1, p2);
    lemma_parse_relation_at_display(s, p2, r0.lower_relation);
    lemma_space_end_exact(s, p3, p3 + 1);
    assert(expect_char(s, p3 + 1, 'v') == Some(p3 + 2));
    assert(rh[0] == '<');
    assert(s[p4] == '<');
    lemma_space_end_exact(s, p3 + 2, p4);
    lemma_parse_relation_at_display(s, p4, r0.higher_relation);
    lemma_dec_digits_props(r0.higher.major as int);
    assert(dh[0] == dec_digits(r0.higher.major as int)[0]);
    assert(is_digit(s[p6]));
    lemma_space_end_exact(s, p5, p6);
    lemma_parse_semver_at_display(s, p6, r0.higher);
    lemma_space_end_exact(s, n, n);
    assert(spec_parse_range(s, 0) == Some(
        (
            VersionRange {
                lower: r0.lower,
                lower_relation: r0.lower_relation,
                higher_relation: r0.higher_relation,
                higher: r0.higher,
            },
            n,
        ),
    ));
    assert(VersionRange {
        lower: r0.lower,
        lower_relation: r0.lower_relation,
        higher_relation: r0.higher_relation,
        higher: r0.higher,
    } == r0);
}

/// The canonical text of a bare version is not a range literal: reading a
/// range from it fails at the missing relation.
proof fn lemma_range_none_on_semver(v: SemVer)
    ensures
        spec_parse_range(spec_display_semver(v), 0) is None,
{
    let s = spec_display_semver(v);
    let n = s.len() as int;
    lemma_dec_digits_props(v.major as int);
    assert(s[0] == dec_digits(v.major as int)[0]);
    assert(is_digit(s[0]));
    lemma_space_end_exact(s, 0, 0);
    lemma_parse_semver_at_display(s, 0, v);
    lemma_space_end_exact(s, n, n);
    assert(spec_parse_relation(s, n) is None);
}

/// Round-trip law: parsing the canonical text of any constraint yields
/// exactly that constraint and consumes the whole text. Hence, for every
/// text that parses as a constraint, displaying the parsed value and
/// parsing it again gives the same value.
pub proof fn lemma_parse_display_roundtrip(c: DependencyVersion)
    ensures
        spec_parse_constraint(spec_display_constraint(c), 0) == Some(
            (c, spec_display_constraint(c).len() as int),
        ),
{
    match c {
        DependencyVersion::SpecificVersion(v) => {
            lemma_range_none_on_semver(v);
            lemma_parse_semver_display(v);
        },
        DependencyVersion::VersionRange(r0) => {
            lemma_parse_range_display(r0);
        },
    }
}

/// Round-trip law over texts: whatever constraint a text parses to, the
/// canonical text of that constraint parses back to the same constraint.
pub proof fn lemma_roundtrip_text(s: Seq<char>)
    ensures
        (spec_parse_constraint(s, 0) matches Some(p) ==> spec_parse_constraint(
            spec_display_constraint(p.0),
            0,
        ) matches Some(p2) && p2.0 == p.0),
{
    match spec_parse_constraint(s, 0) {
        Some(p) => {
            lemma_parse_display_roundtrip(p.0);
        },
        None => {},
    }
}

} // verus!
