//! Semantic versions: `MAJOR.MINOR.PATCH(-PRERELEASE)?(+BUILD)?`.
//!
//! A version is parsed by first splitting on the first `+` (the build
//! metadata), then splitting the remainder on the first `-` (the
//! pre-release tag), then requiring exactly three dot-separated numeric
//! segments. Each numeric component is held in an `i16`, so a component
//! larger than 32767 is rejected as out of range.

use crate::chars::chars_of;
use crate::chars::find;
use crate::chars::find_char;
use crate::chars::lemma_find_append;
use crate::chars::lemma_find_props;
use crate::chars::push_char;
use crate::chars::string_from_chars;
use vstd::prelude::*;
use vstd::slice::slice_index_get;
use vstd::string::StringExecFns;
use vstd::slice::slice_subrange;

verus! {

/// Largest value a version component can hold (the `i16` ceiling).
pub const COMPONENT_MAX: i16 = 32767;

/// A decimal digit.
pub open spec fn is_digit(c: char) -> bool {
    48 <= c as u32 && c as u32 <= 57
}

/// Numeric value of a decimal digit.
pub open spec fn digit_val(c: char) -> int {
    c as u32 - 48
}

/// The decimal digit with the given value.
pub open spec fn digit_char(d: int) -> char {
    if d == 0 {
        '0'
    } else if d == 1 {
        '1'
    } else if d == 2 {
        '2'
    } else if d == 3 {
        '3'
    } else if d == 4 {
        '4'
    } else if d == 5 {
        '5'
    } else if d == 6 {
        '6'
    } else if d == 7 {
        '7'
    } else if d == 8 {
        '8'
    } else {
        '9'
    }
}

/// Every character is a decimal digit.
pub open spec fn all_digits(s: Seq<char>) -> bool {
    forall|i: int| 0 <= i < s.len() ==> is_digit(s[i])
}

/// Decimal rendering of a non-negative number, most significant digit
/// first.
pub open spec fn dec_str(n: nat) -> Seq<char>
    decreases n,
{
    if n < 10 {
        seq![digit_char(n as int)]
    } else {
        dec_str(n / 10).push(digit_char((n % 10) as int))
    }
}

/// Value of a digit sequence read as a decimal number.
pub open spec fn dec_val(s: Seq<char>) -> int
    decreases s.len(),
{
    if s.len() == 0 {
        0
    } else {
        dec_val(s.drop_last()) * 10 + digit_val(s.last())
    }
}

/// A numeric segment the parser accepts: non-empty, all digits, and in
/// range for a version component.
pub open spec fn is_num(s: Seq<char>) -> bool {
    s.len() > 0 && all_digits(s) && dec_val(s) <= COMPONENT_MAX as int
}

/// `dec_str` produces a non-empty digit sequence whose value is the
/// number it was built from.
pub proof fn lemma_dec_str_props(n: nat)
    ensures
        dec_str(n).len() >= 1,
        all_digits(dec_str(n)),
        dec_val(dec_str(n)) == n,
    decreases n,
{
    if n < 10 {
        let s = dec_str(n);
        assert(s.drop_last() =~= Seq::<char>::empty());
        assert(s.last() == digit_char(n as int));
        assert(digit_val(digit_char(n as int)) == n);
        assert(dec_val(s.drop_last()) == 0);
        assert(dec_val(s) == dec_val(s.drop_last()) * 10 + digit_val(s.last()));
    } else {
        lemma_dec_str_props(n / 10);
        let t = dec_str(n / 10);
        let d = digit_char((n % 10) as int);
        let s = t.push(d);
        assert(s.drop_last() =~= t);
        assert(s.last() == d);
        assert(digit_val(d) == n % 10);
        assert(dec_val(s) == dec_val(t) * 10 + n % 10);
        assert(dec_val(s) == n);
        assert forall|i: int| 0 <= i < s.len() implies is_digit(s[i]) by {
            if i < t.len() {
                assert(s[i] == t[i]);
            } else {
                assert(s[i] == d);
            }
        }
    }
}

/// A digit sequence has a non-negative value.
pub proof fn lemma_dec_val_nonneg(s: Seq<char>)
    requires
        all_digits(s),
    ensures
        dec_val(s) >= 0,
    decreases s.len(),
{
    if s.len() > 0 {
        assert(all_digits(s.drop_last())) by {
            assert(forall|i: int| 0 <= i < s.len() - 1 ==> s.drop_last()[i] == s[i]);
        }
        lemma_dec_val_nonneg(s.drop_last());
        assert(is_digit(s.last()));
    }
}

/// Reading more digits never makes the value smaller.
pub proof fn lemma_dec_val_mono(s: Seq<char>, i: int)
    requires
        all_digits(s),
        0 <= i <= s.len(),
    ensures
        dec_val(s.take(i)) <= dec_val(s),
    decreases s.len() - i,
{
    if i == s.len() {
        assert(s.take(i) =~= s);
    } else {
        lemma_dec_val_mono(s, i + 1);
        let t = s.take(i + 1);
        assert(t.drop_last() =~= s.take(i));
        assert(t.last() == s[i]);
        assert(all_digits(s.take(i))) by {
            assert(forall|j: int| 0 <= j < i ==> s.take(i)[j] == s[j]);
        }
        lemma_dec_val_nonneg(s.take(i));
        assert(is_digit(s[i]));
        assert(dec_val(t) == dec_val(s.take(i)) * 10 + digit_val(s[i]));
        assert(dec_val(s.take(i)) * 10 >= dec_val(s.take(i)));
    }
}

/// A digit sequence holds none of the separator characters of the
/// version and configuration grammars.
pub proof fn lemma_digits_no_sep(s: Seq<char>, c: char)
    requires
        all_digits(s),
        !is_digit(c),
    ensures
        find(s, c) is None,
{
    lemma_find_props(s, c);
    assert forall|j: int| 0 <= j < s.len() implies s[j] != c by {
        assert(is_digit(s[j]));
    }
}

/// `find` on a one-character sequence.
pub proof fn lemma_find_single(c1: char, c2: char)
    ensures
        find(seq![c1], c2) == if c1 == c2 {
            Some(0int)
        } else {
            None::<int>
        },
{
    let s = seq![c1];
    assert(s[0] == c1);
    if c1 != c2 {
        assert(s.drop_first().len() == 0);
        assert(find(s.drop_first(), c2) is None);
        assert(find(s, c2) is None);
    }
}

/// Concatenating sequences free of `c` yields a sequence free of `c`.
pub proof fn lemma_find_none_concat(x: Seq<char>, y: Seq<char>, c: char)
    requires
        find(x, c) is None,
        find(y, c) is None,
    ensures
        find(x + y, c) is None,
{
    lemma_find_append(x, y, c);
}

/// Splits a sequence at the first occurrence of `c`: the part before
/// it, and—when `c` occurs—the part after it.
pub open spec fn split_once(s: Seq<char>, c: char) -> (Seq<char>, Option<Seq<char>>) {
    match find(s, c) {
        None => (s, None),
        Some(i) => (s.take(i), Some(s.skip(i + 1))),
    }
}

/// Why a version string was rejected.
#[derive(Clone, Copy, Debug, PartialEq, Eq)]
pub enum VersionParseError {
    /// More than one `+` separates the build metadata.
    TooManyPluses,
    /// More than one `-` appears before the build metadata.
    TooManyHyphens,
    /// The numeric core is not three dot-separated segments.
    NotThreeSegments,
    /// A segment is empty, has a non-digit, or is out of range.
    InvalidNumber,
}

/// Mathematical model of a semantic version.
pub ghost struct SemVerView {
    pub major: int,
    pub minor: int,
    pub patch: int,
    pub pre_release: Option<Seq<char>>,
    pub build: Option<Seq<char>>,
}

impl SemVerView {
    /// The numeric components sit in the range a component can hold.
    pub open spec fn scalars_ok(self) -> bool {
        &&& 0 <= self.major <= COMPONENT_MAX as int
        &&& 0 <= self.minor <= COMPONENT_MAX as int
        &&& 0 <= self.patch <= COMPONENT_MAX as int
    }

    /// A version whose rendering parses back to itself: components in
    /// range, no `+` or `-` inside the pre-release tag, no `+` inside
    /// the build metadata.
    pub open spec fn wf(self) -> bool {
        &&& self.scalars_ok()
        &&& match self.pre_release {
            Some(p) => find(p, '+') is None && find(p, '-') is None,
            None => true,
        }
        &&& match self.build {
            Some(b) => find(b, '+') is None,
            None => true,
        }
    }

    /// The rendering stays on one line of a configuration file.
    pub open spec fn line_clean(self) -> bool {
        &&& match self.pre_release {
            Some(p) => find(p, '\n') is None,
            None => true,
        }
        &&& match self.build {
            Some(b) => find(b, '\n') is None,
            None => true,
        }
    }
}

/// Decimal rendering of a component value, with a sign when negative.
pub open spec fn num_str(n: int) -> Seq<char> {
    if n < 0 {
        seq!['-'] + dec_str((-n) as nat)
    } else {
        dec_str(n as nat)
    }
}

/// Canonical rendering of a version:
/// `MAJOR.MINOR.PATCH(-PRERELEASE)?(+BUILD)?`.
pub open spec fn sv_format(v: SemVerView) -> Seq<char> {
    num_str(v.major) + seq!['.'] + num_str(v.minor) + seq!['.'] + num_str(v.patch) + (match v
        .pre_release {
        Some(p) => seq!['-'] + p,
        None => Seq::<char>::empty(),
    }) + (match v.build {
        Some(b) => seq!['+'] + b,
        None => Seq::<char>::empty(),
    })
}

/// What parsing a version string yields: the parsed version, or the
/// first grammar error, checked in the order build split, pre-release
/// split, segment count, numeric segments.
pub open spec fn sv_parse(s: Seq<char>) -> Result<SemVerView, VersionParseError> {
    let (core_pre, build) = split_once(s, '+');
    if build matches Some(b) && find(b, '+') is Some {
        Err(VersionParseError::TooManyPluses)
    } else {
        let (core, pre) = split_once(core_pre, '-');
        if pre matches Some(p) && find(p, '-') is Some {
            Err(VersionParseError::TooManyHyphens)
        } else {
            let (seg_a, rest1) = split_once(core, '.');
            match rest1 {
                None => Err(VersionParseError::NotThreeSegments),
                Some(r1) => {
                    let (seg_b, rest2) = split_once(r1, '.');
                    match rest2 {
                        None => Err(VersionParseError::NotThreeSegments),
                        Some(seg_c) => {
                            if find(seg_c, '.') is Some {
                                Err(VersionParseError::NotThreeSegments)
                            } else if !is_num(seg_a) || !is_num(seg_b) || !is_num(seg_c) {
                                Err(VersionParseError::InvalidNumber)
                            } else {
                                Ok(
                                    SemVerView {
                                        major: dec_val(seg_a),
                                        minor: dec_val(seg_b),
                                        patch: dec_val(seg_c),
                                        pre_release: pre,
                                        build: build,
                                    },
                                )
                            }
                        },
                    }
                },
            }
        }
    }
}

/// A semantic version: three numeric components, an optional
/// pre-release tag, and optional build metadata. The build metadata
/// takes no part in ordering or in the numeric core.
#[derive(Clone, Debug, PartialEq, Eq)]
pub struct SemanticVersion {
    pub major: i16,
    pub minor: i16,
    pub patch: i16,
    pub pre_release: Option<String>,
    pub build: Option<String>,
}

impl View for SemanticVersion {
    type V = SemVerView;

    open spec fn view(&self) -> SemVerView {
        SemVerView {
            major: self.major as int,
            minor: self.minor as int,
            patch: self.patch as int,
            pre_release: match self.pre_release {
                Some(p) => Some(p@),
                None => None,
            },
            build: match self.build {
                Some(b) => Some(b@),
                None => None,
            },
        }
    }
}

impl DeepView for SemanticVersion {
    type V = SemVerView;

    open spec fn deep_view(&self) -> SemVerView {
        self.view()
    }
}

/// The digit with the given value.
fn digit_exec(d: u32) -> (r: char)
    requires
        d < 10,
    ensures
        r == digit_char(d as int),
{
    if d == 0 {
        '0'
    } else if d == 1 {
        '1'
    } else if d == 2 {
        '2'
    } else if d == 3 {
        '3'
    } else if d == 4 {
        '4'
    } else if d == 5 {
        '5'
    } else if d == 6 {
        '6'
    } else if d == 7 {
        '7'
    } else if d == 8 {
        '8'
    } else {
        '9'
    }
}

/// Appends the decimal rendering of `n`.
fn push_dec(out: &mut String, n: u32)
    ensures
        final(out)@ == old(out)@ + dec_str(n as nat),
    decreases n,
{
    if n < 10 {
        push_char(out, digit_exec(n));
        assert(out@ =~= old(out)@ + dec_str(n as nat));
    } else {
        push_dec(out, n / 10);
        push_char(out, digit_exec(n % 10));
        assert(out@ =~= old(out)@ + dec_str(n as nat));
    }
}

/// Appends the rendering of a component value, signed when negative.
pub(crate) fn push_num(out: &mut String, n: i16)
    ensures
        final(out)@ == old(out)@ + num_str(n as int),
{
    if n < 0 {
        push_char(out, '-');
        let m: u32 = (-(n as i32)) as u32;
        push_dec(out, m);
        assert(out@ =~= old(out)@ + num_str(n as int));
    } else {
        push_dec(out, n as u32);
    }
}

/// Reads a numeric segment; `None` when it is empty, has a non-digit,
/// or overflows a component.
fn parse_num(s: &[char]) -> (r: Option<i16>)
    ensures
        r is Some <==> is_num(s@),
        r matches Some(v) ==> v as int == dec_val(s@) && 0 <= v,
{
    let n = s.len();
    if n == 0 {
        return None;
    }
    let mut acc: u32 = 0;
    let mut i: usize = 0;
    while i < n
        invariant
            n == s@.len(),
            i <= n,
            all_digits(s@.take(i as int)),
            acc as int == dec_val(s@.take(i as int)),
            acc <= COMPONENT_MAX as int,
        decreases n - i,
    {
        let c = *slice_index_get(s, i);
        let u = c as u32;
        if u < 48 || u > 57 {
            proof {
                assert(s@[i as int] == c);
                assert(!is_digit(c));
                assert(!all_digits(s@));
            }

            return None;
        }
        proof {
            assert(is_digit(c));
            let t = s@.take(i + 1);
            assert(t.drop_last() =~= s@.take(i as int));
            assert(t.last() == c);
            assert forall|j: int| 0 <= j < t.len() implies is_digit(t[j]) by {
                if j < i {
                    assert(t[j] == s@.take(i as int)[j]);
                } else {
                    assert(t[j] == c);
                }
            }
            assert(dec_val(t) == dec_val(s@.take(i as int)) * 10 + digit_val(c));
        }
        acc = acc * 10 + (u - 48);
        proof {
            assert(acc as int == dec_val(s@.take(i + 1)));
        }
        if acc > COMPONENT_MAX as u32 {
            proof {
                if is_num(s@) {
                    lemma_dec_val_mono(s@, i + 1);
                    assert(false);
                }
            }
            return None;
        }
        i = i + 1;
    }
    proof {
        assert(s@.take(n as int) =~= s@);
    }
    Some(acc as i16)
}

impl SemanticVersion {
    /// Parses a version from its characters; see `sv_parse` for the
    /// grammar and the error reported for each way a string can break
    /// it.
    pub fn parse_chars(s: &[char]) -> (r: Result<SemanticVersion, VersionParseError>)
        ensures
            match sv_parse(s@) {
                Ok(v) => r matches Ok(sv) && sv@ == v,
                Err(e) => r matches Err(e2) && e2 == e,
            },
    {
        let n = s.len();
        // Split off the build metadata at the first '+'.
        let (cp_end, build_sl): (usize, Option<&[char]>) = match find_char(s, '+') {
            None => {
                proof {
                    assert(split_once(s@, '+') == (s@, None::<Seq<char>>));
                }
                (n, None)
            },
            Some(i) => {
                let b = slice_subrange(s, i + 1, n);
                proof {
                    assert(b@ =~= s@.skip(i + 1));
                    assert(split_once(s@, '+') == (s@.take(i as int), Some(b@)));
                }
                if find_char(b, '+').is_some() {
                    return Err(VersionParseError::TooManyPluses);
                }
                (i, Some(b))
            },
        };
        let core_pre = slice_subrange(s, 0, cp_end);
        proof {
            assert(core_pre@ =~= split_once(s@, '+').0);
        }
        // Split off the pre-release tag at the first '-'.
        let cp_n = core_pre.len();
        let (core_end, pre_sl): (usize, Option<&[char]>) = match find_char(core_pre, '-') {
            None => {
                proof {
                    assert(split_once(core_pre@, '-') == (core_pre@, None::<Seq<char>>));
                }
                (cp_n, None)
            },
            Some(i) => {
                let p = slice_subrange(core_pre, i + 1, cp_n);
                proof {
                    assert(p@ =~= core_pre@.skip(i + 1));
                    assert(split_once(core_pre@, '-') == (core_pre@.take(i as int), Some(p@)));
                }
                if find_char(p, '-').is_some() {
                    return Err(VersionParseError::TooManyHyphens);
                }
                (i, Some(p))
            },
        };
        let core = slice_subrange(core_pre, 0, core_end);
        proof {
            assert(core@ =~= split_once(core_pre@, '-').0);
        }
        // The numeric core: exactly three dot-separated segments.
        let core_n = core.len();
        let i1 = match find_char(core, '.') {
            None => {
                proof {
                    assert(split_once(core@, '.').1 is None);
                }
                return Err(VersionParseError::NotThreeSegments);
            },
            Some(i) => i,
        };
        let rest1 = slice_subrange(core, i1 + 1, core_n);
        proof {
            assert(rest1@ =~= core@.skip(i1 + 1));
            assert(split_once(core@, '.') == (core@.take(i1 as int), Some(rest1@)));
        }
        let rest1_n = rest1.len();
        let i2 = match find_char(rest1, '.') {
            None => {
                proof {
                    assert(split_once(rest1@, '.').1 is None);
                }
                return Err(VersionParseError::NotThreeSegments);
            },
            Some(i) => i,
        };
        let seg_c = slice_subrange(rest1, i2 + 1, rest1_n);
        proof {
            assert(seg_c@ =~= rest1@.skip(i2 + 1));
            assert(split_once(rest1@, '.') == (rest1@.take(i2 as int), Some(seg_c@)));
        }
        if find_char(seg_c, '.').is_some() {
            return Err(VersionParseError::NotThreeSegments);
        }
        let seg_a = slice_subrange(core, 0, i1);
        let seg_b = slice_subrange(rest1, 0, i2);
        proof {
            assert(seg_a@ =~= core@.take(i1 as int));
            assert(seg_b@ =~= rest1@.take(i2 as int));
        }
        let major = match parse_num(seg_a) {
            Some(x) => x,
            None => {
                return Err(VersionParseError::InvalidNumber);
            },
        };
        let minor = match parse_num(seg_b) {
            Some(x) => x,
            None => {
                return Err(VersionParseError::InvalidNumber);
            },
        };
        let patch = match parse_num(seg_c) {
            Some(x) => x,
            None => {
                return Err(VersionParseError::InvalidNumber);
            },
        };
        let pre_release = match pre_sl {
            Some(p) => Some(string_from_chars(p)),
            None => None,
        };
        let build = match build_sl {
            Some(b) => Some(string_from_chars(b)),
            None => None,
        };
        Ok(SemanticVersion { major, minor, patch, pre_release, build })
    }

    /// Parses a version string.
    pub fn parse(input: &str) -> (r: Result<SemanticVersion, VersionParseError>)
        ensures
            match sv_parse(input@) {
                Ok(v) => r matches Ok(sv) && sv@ == v,
                Err(e) => r matches Err(e2) && e2 == e,
            },
    {
        let v = chars_of(input);
        Self::parse_chars(v.as_slice())
    }

    /// Appends this version's canonical rendering.
    pub(crate) fn push_format(&self, out: &mut String)
        ensures
            final(out)@ == old(out)@ + sv_format(self@),
    {
        push_num(out, self.major);
        push_char(out, '.');
        push_num(out, self.minor);
        push_char(out, '.');
        push_num(out, self.patch);
        match &self.pre_release {
            Some(p) => {
                push_char(out, '-');
                out.append(p.as_str());
            },
            None => {},
        }
        match &self.build {
            Some(b) => {
                push_char(out, '+');
                out.append(b.as_str());
            },
            None => {},
        }
        assert(out@ =~= old(out)@ + sv_format(self@));
    }

    /// Canonical rendering: `MAJOR.MINOR.PATCH`, then `-PRERELEASE` if
    /// present, then `+BUILD` if present.
    pub fn format(&self) -> (r: String)
        ensures
            r@ == sv_format(self@),
    {
        let mut out = String::new();
        self.push_format(&mut out);
        assert(out@ =~= sv_format(self@));
        out
    }
}


/// Law: parsing the canonical rendering of a well-formed version gives
/// back exactly that version.
#[verifier::rlimit(100)]
#[verifier::spinoff_prover]
pub proof fn lemma_format_then_parse(v: SemVerView)
    requires
        v.wf(),
    ensures
        sv_parse(sv_format(v)) == Ok::<SemVerView, VersionParseError>(v),
{
    let a = dec_str(v.major as nat);
    let b = dec_str(v.minor as nat);
    let c0 = dec_str(v.patch as nat);
    lemma_dec_str_props(v.major as nat);
    lemma_dec_str_props(v.minor as nat);
    lemma_dec_str_props(v.patch as nat);
    let dot = seq!['.'];
    let core = a + dot + b + dot + c0;
    let pre_part = match v.pre_release {
        Some(p) => seq!['-'] + p,
        None => Seq::<char>::empty(),
    };
    let build_part = match v.build {
        Some(bd) => seq!['+'] + bd,
        None => Seq::<char>::empty(),
    };
    let s = sv_format(v);
    assert(num_str(v.major) == a);
    assert(num_str(v.minor) == b);
    assert(num_str(v.patch) == c0);
    assert(s =~= core + pre_part + build_part);
    let cp = core + pre_part;

    // None of the separators occur inside a digit segment.
    lemma_digits_no_sep(a, '+');
    lemma_digits_no_sep(a, '-');
    lemma_digits_no_sep(a, '.');
    lemma_digits_no_sep(b, '+');
    lemma_digits_no_sep(b, '-');
    lemma_digits_no_sep(b, '.');
    lemma_digits_no_sep(c0, '+');
    lemma_digits_no_sep(c0, '-');
    lemma_digits_no_sep(c0, '.');
    lemma_find_single('.', '+');
    lemma_find_single('.', '-');
    lemma_find_single('-', '+');
    assert(find(Seq::<char>::empty(), '+') is None);
    assert(find(Seq::<char>::empty(), '-') is None);

    // The numeric core holds no '+' and no '-'.
    lemma_find_none_concat(a, dot, '+');
    lemma_find_none_concat(a + dot, b, '+');
    lemma_find_none_concat(a + dot + b, dot, '+');
    lemma_find_none_concat(a + dot + b + dot, c0, '+');
    lemma_find_none_concat(a, dot, '-');
    lemma_find_none_concat(a + dot, b, '-');
    lemma_find_none_concat(a + dot + b, dot, '-');
    lemma_find_none_concat(a + dot + b + dot, c0, '-');

    // Everything before the build metadata holds no '+'.
    match v.pre_release {
        Some(p) => {
            lemma_find_none_concat(seq!['-'], p, '+');
            lemma_find_none_concat(core, pre_part, '+');
        },
        None => {
            lemma_find_none_concat(core, pre_part, '+');
        },
    }

    // Splitting at the first '+' recovers the build metadata.
    match v.build {
        Some(bd) => {
            assert(build_part[0] == '+');
            assert(find(build_part, '+') == Some(0int));
            lemma_find_append(cp, build_part, '+');
            assert(find(s, '+') == Some(cp.len() as int));
            assert(s.take(cp.len() as int) =~= cp);
            assert(s.skip(cp.len() as int + 1) =~= bd);
            assert(split_once(s, '+') == (cp, Some(bd)));
        },
        None => {
            assert(build_part.len() == 0);
            assert(s =~= cp);
            assert(split_once(s, '+') == (cp, None::<Seq<char>>));
        },
    }

    // Splitting the remainder at the first '-' recovers the
    // pre-release tag.
    match v.pre_release {
        Some(p) => {
            assert(pre_part[0] == '-');
            assert(find(pre_part, '-') == Some(0int));
            lemma_find_append(core, pre_part, '-');
            assert(find(cp, '-') == Some(core.len() as int));
            assert(cp.take(core.len() as int) =~= core);
            assert(cp.skip(core.len() as int + 1) =~= p);
            assert(split_once(cp, '-') == (core, Some(p)));
        },
        None => {
            assert(pre_part.len() == 0);
            assert(cp =~= core);
            assert(split_once(cp, '-') == (core, None::<Seq<char>>));
        },
    }

    // The two dots split the core into its three segments.
    let tail1 = dot + b + dot + c0;
    assert(core =~= a + tail1);
    assert(tail1[0] == '.');
    assert(find(tail1, '.') == Some(0int));
    lemma_find_append(a, tail1, '.');
    assert(find(core, '.') == Some(a.len() as int));
    let r1 = b + dot + c0;
    assert(core.take(a.len() as int) =~= a);
    assert(core.skip(a.len() as int + 1) =~= r1);
    assert(split_once(core, '.') == (a, Some(r1)));
    let tail2 = dot + c0;
    assert(r1 =~= b + tail2);
    assert(tail2[0] == '.');
    assert(find(tail2, '.') == Some(0int));
    lemma_find_append(b, tail2, '.');
    assert(find(r1, '.') == Some(b.len() as int));
    assert(r1.take(b.len() as int) =~= b);
    assert(r1.skip(b.len() as int + 1) =~= c0);
    assert(split_once(r1, '.') == (b, Some(c0)));

    // The three segments are in-range numbers with the right values.
    assert(is_num(a));
    assert(is_num(b));
    assert(is_num(c0));
    assert(dec_val(a) == v.major);
    assert(dec_val(b) == v.minor);
    assert(dec_val(c0) == v.patch);
}

/// Law: rendering, parsing, and rendering again reproduces the first
/// rendering exactly.
pub proof fn lemma_render_round_trip(v: SemVerView)
    requires
        v.wf(),
    ensures
        sv_parse(sv_format(v)) matches Ok(w) && sv_format(w) == sv_format(v),
{
    lemma_format_then_parse(v);
}


/// The rendering of a version that fits on one line holds no newline.
pub proof fn lemma_sv_format_clean(v: SemVerView)
    requires
        v.scalars_ok(),
        v.line_clean(),
    ensures
        find(sv_format(v), '\n') is None,
{
    let a = dec_str(v.major as nat);
    let b = dec_str(v.minor as nat);
    let c0 = dec_str(v.patch as nat);
    lemma_dec_str_props(v.major as nat);
    lemma_dec_str_props(v.minor as nat);
    lemma_dec_str_props(v.patch as nat);
    lemma_digits_no_sep(a, '\n');
    lemma_digits_no_sep(b, '\n');
    lemma_digits_no_sep(c0, '\n');
    let dot = seq!['.'];
    lemma_find_single('.', '\n');
    lemma_find_none_concat(a, dot, '\n');
    lemma_find_none_concat(a + dot, b, '\n');
    lemma_find_none_concat(a + dot + b, dot, '\n');
    lemma_find_none_concat(a + dot + b + dot, c0, '\n');
    let core = a + dot + b + dot + c0;
    assert(num_str(v.major) == a);
    let pre_part = match v.pre_release {
        Some(p) => seq!['-'] + p,
        None => Seq::<char>::empty(),
    };
    let build_part = match v.build {
        Some(bd) => seq!['+'] + bd,
        None => Seq::<char>::empty(),
    };
    match v.pre_release {
        Some(p) => {
            lemma_find_single('-', '\n');
            lemma_find_none_concat(seq!['-'], p, '\n');
        },
        None => {
            assert(find(pre_part, '\n') is None);
        },
    }
    lemma_find_none_concat(core, pre_part, '\n');
    match v.build {
        Some(bd) => {
            lemma_find_single('+', '\n');
            lemma_find_none_concat(seq!['+'], bd, '\n');
        },
        None => {
            assert(find(build_part, '\n') is None);
        },
    }
    lemma_find_none_concat(core + pre_part, build_part, '\n');
    assert(sv_format(v) =~= core + pre_part + build_part);
}


impl VersionParseError {
    /// The human-readable reason the version string was rejected.
    pub fn message(&self) -> (r: String)
        ensures
            match self {
                VersionParseError::TooManyPluses => r@ == "Too many '+' symbols in version string"@,
                VersionParseError::TooManyHyphens => r@
                    == "Too many '-' symbols in version string"@,
                VersionParseError::NotThreeSegments => r@
                    == "Expected format: [0-9]+.[0-9]+.[0-9]+"@,
                VersionParseError::InvalidNumber => r@
                    == "Expected a number between 0 and 32767 in each segment"@,
            },
    {
        match self {
            VersionParseError::TooManyPluses => String::from_str(
                "Too many '+' symbols in version string",
            ),
            VersionParseError::TooManyHyphens => String::from_str(
                "Too many '-' symbols in version string",
            ),
            VersionParseError::NotThreeSegments => String::from_str(
                "Expected format: [0-9]+.[0-9]+.[0-9]+",
            ),
            VersionParseError::InvalidNumber => String::from_str(
                "Expected a number between 0 and 32767 in each segment",
            ),
        }
    }
}


/// Characters taken from a sequence free of `c` are free of `c`.
pub proof fn lemma_subrange_clean(s: Seq<char>, a: int, b: int, c: char)
    requires
        find(s, c) is None,
        0 <= a <= b <= s.len(),
    ensures
        find(s.subrange(a, b), c) is None,
{
    lemma_find_props(s, c);
    let t = s.subrange(a, b);
    assert forall|j: int| 0 <= j < t.len() implies t[j] != c by {
        assert(t[j] == s[a + j]);
    }
    lemma_find_props(t, c);
}

/// A parsed version is well formed, and renders onto one line when
/// the parsed text held no newline.
pub proof fn lemma_sv_parse_wf(s: Seq<char>)
    ensures
        sv_parse(s) matches Ok(v) ==> v.wf() && (find(s, '\n') is None ==> v.line_clean()),
{
    if sv_parse(s) matches Ok(v) {
        lemma_find_props(s, '+');
        let (core_pre, build) = split_once(s, '+');
        // Everything before the first '+' is free of '+'.
        assert(find(core_pre, '+') is None) by {
            match find(s, '+') {
                None => {},
                Some(i) => {
                    assert(core_pre == s.take(i));
                    assert forall|j: int| 0 <= j < core_pre.len() implies core_pre[j] != '+' by {
                        assert(core_pre[j] == s[j]);
                    }
                    lemma_find_props(core_pre, '+');
                },
            }
        }
        lemma_find_props(core_pre, '-');
        let (core, pre) = split_once(core_pre, '-');
        match pre {
            Some(p) => {
                match find(core_pre, '-') {
                    None => {
                        assert(false);
                    },
                    Some(i) => {
                        assert(p == core_pre.skip(i + 1));
                        assert(find(p, '+') is None) by {
                            lemma_find_props(core_pre, '+');
                            assert forall|j: int| 0 <= j < p.len() implies p[j] != '+' by {
                                assert(p[j] == core_pre[i + 1 + j]);
                            }
                            lemma_find_props(p, '+');
                        }
                    },
                }
            },
            None => {},
        }
        // The numeric components are in range.
        let (seg_a, rest1) = split_once(core, '.');
        match rest1 {
            None => {
                assert(false);
            },
            Some(r1) => {
                let (seg_b, rest2) = split_once(r1, '.');
                match rest2 {
                    None => {
                        assert(false);
                    },
                    Some(seg_c) => {
                        lemma_dec_val_nonneg(seg_a);
                        lemma_dec_val_nonneg(seg_b);
                        lemma_dec_val_nonneg(seg_c);
                    },
                }
            },
        }
        // When the whole text sits on one line, so do the tag parts.
        if find(s, '\n') is None {
            match find(s, '+') {
                None => {},
                Some(i) => {
                    assert(build == Some(s.skip(i + 1)));
                    lemma_subrange_clean(s, i + 1, s.len() as int, '\n');
                    assert(s.skip(i + 1) == s.subrange(i + 1, s.len() as int));
                },
            }
            assert(find(core_pre, '\n') is None) by {
                match find(s, '+') {
                    None => {},
                    Some(i) => {
                        lemma_subrange_clean(s, 0, i, '\n');
                        assert(core_pre == s.subrange(0, i));
                    },
                }
            }
            match find(core_pre, '-') {
                None => {},
                Some(i) => {
                    assert(pre == Some(core_pre.skip(i + 1)));
                    lemma_subrange_clean(core_pre, i + 1, core_pre.len() as int, '\n');
                    assert(core_pre.skip(i + 1) == core_pre.subrange(
                        i + 1,
                        core_pre.len() as int,
                    ));
                },
            }
        }
    }
}

} // verus!
