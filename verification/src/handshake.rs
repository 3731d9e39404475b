//! The version banner read at connection time.
//!
//! Before any JSON-RPC happens, the client reads the response characteristic
//! once and gets back a short plain-text banner naming the firmware versions
//! of both processors. Two formats exist, because the older one could only
//! report one processor:
//!
//! ```text
//! S1.2.3_E2.7.0\n     both versions: STM (audio DSP), then ESP (connectivity)
//! @version 2.7.0\n    older firmware: ESP only; STM is implicitly 1.2.2
//! ```
use vstd::prelude::*;

use crate::text::{
    chars_of, find_pair, find_pair_in, lemma_find_pair_bounds, lemma_split_on_nonempty, parse_u16_in, parse_u16_spec,
    push_char, push_decimal, decimal, split_on, lemma_decimal, lemma_parse_u16_decimal,
    lemma_trim_unchanged, lemma_split_on_single, lemma_split_on_push_sep, lemma_split_on_append,
    is_digit, split_ranges, trim, trim_bounds, digits_in, keep_digits, lemma_keep_digits_of_digits,
};

verus! {

/// The implied STM version, 1.2.2, when a device reports only its ESP version.
pub open spec fn implied_stm() -> Version {
    Version { major: 1, minor: 2, patch: 2 }
}

/// The implied STM version when a device reports only its ESP version.
///
/// Firmware old enough to use the `@version` form predates the STM being
/// reported at all, and the vendor's client assumes this value. Adopted so
/// both banner forms yield a complete pair, but it is an assumption inherited
/// from the vendor rather than something the device said.
pub fn implied_stm_version() -> (v: Version)
    ensures
        v == implied_stm(),
{
    Version { major: 1, minor: 2, patch: 2 }
}

/// A three-part firmware version.
#[derive(Debug, Clone, Copy, PartialEq, Eq, PartialOrd, Ord)]
pub struct Version {
    /// Major version.
    pub major: u16,
    /// Minor version.
    pub minor: u16,
    /// Patch version; zero when the device reported only two components.
    pub patch: u16,
}

/// The firmware versions of the guitar's two processors.
#[derive(Debug, Clone, Copy, PartialEq, Eq)]
pub struct Banner {
    /// The audio DSP processor's firmware version.
    pub stm: Version,
    /// The connectivity processor's firmware version.
    pub esp: Version,
    /// Whether `stm` was assumed because the device used the older
    /// single-version banner, rather than reported.
    pub stm_was_implied: bool,
}

/// The number a component spells once every character that is not a decimal
/// digit is dropped, as the vendor's client reads it: `V1` is 1.
pub open spec fn component_value(part: Seq<char>) -> Option<u16> {
    parse_u16_spec(keep_digits(part))
}

/// The value of a minor or patch component: its number, or zero when it has
/// none.
pub open spec fn component_or_zero(part: Seq<char>) -> u16 {
    match component_value(part) {
        Some(n) => n,
        None => 0,
    }
}

/// What `Version::parse` reads from `text`.
///
/// The trimmed text is split on `.`; it must be non-empty, have at most three
/// components, and a first component whose digits make a `u16`. A missing
/// minor or patch component, or one without such digits, reads as zero.
pub open spec fn version_of(text: Seq<char>) -> Option<Version> {
    let t = trim(text);
    let parts = split_on(t, '.');
    if t.len() == 0 || parts.len() > 3 {
        None
    } else {
        match component_value(parts[0]) {
            None => None,
            Some(major) => Some(
                Version {
                    major,
                    minor: if parts.len() > 1 {
                        component_or_zero(parts[1])
                    } else {
                        0
                    },
                    patch: if parts.len() > 2 {
                        component_or_zero(parts[2])
                    } else {
                        0
                    },
                },
            ),
        }
    }
}

/// `s` without the run of `\n` and `\r` that ends it.
pub open spec fn strip_line_end(s: Seq<char>) -> Seq<char>
    decreases s.len(),
{
    if s.len() > 0 && (s.last() == '\n' || s.last() == '\r') {
        strip_line_end(s.drop_last())
    } else {
        s
    }
}

/// The tag that opens the older, single-version banner.
pub open spec fn legacy_tag() -> Seq<char> {
    seq!['@', 'v', 'e', 'r', 's', 'i', 'o', 'n', ' ']
}

/// What `Banner::parse` reads from `text`.
pub open spec fn banner_of(text: Seq<char>) -> Option<Banner> {
    let t = strip_line_end(text);
    if t.len() > 0 && t[0] == 'S' {
        let rest = t.drop_first();
        match find_pair(rest, '_', 'E', 0) {
            None => None,
            Some(i) => match (version_of(rest.take(i)), version_of(rest.skip(i + 2))) {
                (Some(stm), Some(esp)) => Some(Banner { stm, esp, stm_was_implied: false }),
                _ => None,
            },
        }
    } else if t.len() >= 9 && t.take(9) == legacy_tag() {
        match version_of(t.skip(9)) {
            Some(esp) => Some(Banner { stm: implied_stm(), esp, stm_was_implied: true }),
            None => None,
        }
    } else {
        None
    }
}

/// The text `to_string` gives for `v`.
pub open spec fn version_text(v: Version) -> Seq<char> {
    decimal(v.major as nat) + seq!['.'] + decimal(v.minor as nat) + seq!['.'] + decimal(
        v.patch as nat,
    )
}

/// The `Version` read from `v[lo..hi]`.
fn version_in(v: &Vec<char>, lo: usize, hi: usize) -> (r: Option<Version>)
    requires
        lo <= hi <= v@.len(),
    ensures
        r == version_of(v@.subrange(lo as int, hi as int)),
{
    let (a, b) = trim_bounds(v, lo, hi);
    let ghost t = v@.subrange(a as int, b as int);
    if a == b {
        return None;
    }
    let parts = split_ranges(v, a, b, '.');
    proof {
        lemma_split_on_nonempty(t, '.');
    }
    if parts.len() > 3 {
        return None;
    }
    let (p0, q0) = parts[0];
    let d0 = digits_in(v, p0, q0);
    assert(d0@.subrange(0, d0@.len() as int) =~= d0@);
    let major = match parse_u16_in(&d0, 0, d0.len()) {
        Some(n) => n,
        None => return None,
    };
    let mut minor: u16 = 0;
    if parts.len() > 1 {
        let (p1, q1) = parts[1];
        let d1 = digits_in(v, p1, q1);
        assert(d1@.subrange(0, d1@.len() as int) =~= d1@);
        minor = match parse_u16_in(&d1, 0, d1.len()) {
            Some(n) => n,
            None => 0,
        };
    }
    let mut patch: u16 = 0;
    if parts.len() > 2 {
        let (p2, q2) = parts[2];
        let d2 = digits_in(v, p2, q2);
        assert(d2@.subrange(0, d2@.len() as int) =~= d2@);
        patch = match parse_u16_in(&d2, 0, d2.len()) {
            Some(n) => n,
            None => 0,
        };
    }
    Some(Version { major, minor, patch })
}

impl Version {
    /// Parse a dotted version, tolerating missing trailing components.
    ///
    /// `"2.7"` yields `2.7.0`, matching how the vendor's client reads these.
    pub fn parse(text: &str) -> (r: Option<Version>)
        ensures
            r == version_of(text@),
    {
        let v = chars_of(text);
        assert(v@.subrange(0, v@.len() as int) =~= text@);
        version_in(&v, 0, v.len())
    }

    /// The version as `major.minor.patch`.
    pub fn to_string(&self) -> (s: String)
        ensures
            s@ == version_text(*self),
    {
        let mut s = String::new();
        push_decimal(&mut s, self.major as u64);
        push_char(&mut s, '.');
        push_decimal(&mut s, self.minor as u64);
        push_char(&mut s, '.');
        push_decimal(&mut s, self.patch as u64);
        assert(s@ =~= version_text(*self));
        s
    }
}

impl Banner {
    /// Parse a banner read from the response characteristic.
    pub fn parse(text: &str) -> (r: Option<Banner>)
        ensures
            r == banner_of(text@),
    {
        let v = chars_of(text);
        let mut hi = v.len();
        assert(v@.take(hi as int) =~= v@);
        while hi > 0 && (v[hi - 1] == '\n' || v[hi - 1] == '\r')
            invariant
                hi <= v@.len(),
                strip_line_end(text@) == strip_line_end(v@.take(hi as int)),
                v@ == text@,
            decreases hi,
        {
            assert(v@.take(hi as int).drop_last() =~= v@.take(hi - 1));
            hi = hi - 1;
        }
        let ghost t = v@.take(hi as int);
        assert(strip_line_end(t) == t);
        assert(t =~= v@.subrange(0, hi as int));
        if hi > 0 && v[0] == 'S' {
            let ghost rest = t.drop_first();
            assert(rest =~= v@.subrange(1, hi as int));
            let i = match find_pair_in(&v, 1, hi, '_', 'E') {
                Some(i) => i,
                None => return None,
            };
            proof {
                lemma_find_pair_bounds(rest, '_', 'E', 0);
            }
            assert(rest.take(i - 1) =~= v@.subrange(1, i as int));
            assert(rest.skip(i + 1) =~= v@.subrange(i + 2, hi as int));
            let stm = match version_in(&v, 1, i) {
                Some(x) => x,
                None => return None,
            };
            let esp = match version_in(&v, i + 2, hi) {
                Some(x) => x,
                None => return None,
            };
            return Some(Banner { stm, esp, stm_was_implied: false });
        }
        if hi >= 9 && v[0] == '@' && v[1] == 'v' && v[2] == 'e' && v[3] == 'r' && v[4] == 's'
            && v[5] == 'i' && v[6] == 'o' && v[7] == 'n' && v[8] == ' ' {
            assert(t.take(9) =~= legacy_tag());
            assert(t.skip(9) =~= v@.subrange(9, hi as int));
            return match version_in(&v, 9, hi) {
                Some(esp) => Some(Banner { stm: implied_stm_version(), esp, stm_was_implied: true }),
                None => None,
            };
        }
        assert(!(t.len() >= 9 && t.take(9) == legacy_tag())) by {
            if t.len() >= 9 && t.take(9) == legacy_tag() {
                assert(t.take(9)[0] == '@');
                assert(t.take(9)[8] == ' ');
                assert(t.take(9)[1] == 'v');
                assert(t.take(9)[2] == 'e');
                assert(t.take(9)[3] == 'r');
                assert(t.take(9)[4] == 's');
                assert(t.take(9)[5] == 'i');
                assert(t.take(9)[6] == 'o');
                assert(t.take(9)[7] == 'n');
            }
        }
        None
    }
}

// ---------------------------------------------------------------------------
// Laws
// ---------------------------------------------------------------------------

/// A version's text reads back as the same version.
pub proof fn law_version_text_reads_back(v: Version)
    ensures
        version_of(version_text(v)) == Some(v),
{
    let a = decimal(v.major as nat);
    let b = decimal(v.minor as nat);
    let c = decimal(v.patch as nat);
    lemma_decimal(v.major as nat);
    lemma_decimal(v.minor as nat);
    lemma_decimal(v.patch as nat);
    lemma_parse_u16_decimal(v.major);
    lemma_parse_u16_decimal(v.minor);
    lemma_parse_u16_decimal(v.patch);
    assert(is_digit(a[0]) && is_digit(a.last()));
    assert(is_digit(b[0]) && is_digit(b.last()));
    assert(is_digit(c[0]) && is_digit(c.last()));
    lemma_keep_digits_of_digits(a);
    lemma_keep_digits_of_digits(b);
    lemma_keep_digits_of_digits(c);
    assert forall|i: int| 0 <= i < a.len() implies a[i] != '.' by {
        assert(is_digit(a[i]));
    }
    assert forall|i: int| 0 <= i < b.len() implies b[i] != '.' by {
        assert(is_digit(b[i]));
    }
    assert forall|i: int| 0 <= i < c.len() implies c[i] != '.' by {
        assert(is_digit(c[i]));
    }
    let t = version_text(v);
    assert(t[0] == a[0]);
    assert(t.last() == c.last());
    lemma_trim_unchanged(t);
    lemma_split_on_single(a, '.');
    lemma_split_on_push_sep(a, '.');
    lemma_split_on_append(a.push('.'), b, '.');
    lemma_split_on_push_sep(a.push('.') + b, '.');
    lemma_split_on_append((a.push('.') + b).push('.'), c, '.');
    assert(t =~= (a.push('.') + b).push('.') + c);
    assert(split_on(a.push('.'), '.') =~= seq![a, Seq::<char>::empty()]);
    assert(split_on(a.push('.') + b, '.') =~= seq![a, b]);
    assert(split_on((a.push('.') + b).push('.'), '.') =~= seq![a, b, Seq::<char>::empty()]);
    assert(split_on(t, '.') =~= seq![a, b, c]);
}

/// A version's text is decimal digits and dots, and ends in a digit.
proof fn lemma_version_text_chars(v: Version)
    ensures
        version_text(v).len() > 0,
        is_digit(version_text(v).last()),
        forall|i: int|
            0 <= i < version_text(v).len() ==> is_digit(#[trigger] version_text(v)[i])
                || version_text(v)[i] == '.',
{
    let a = decimal(v.major as nat);
    let b = decimal(v.minor as nat);
    let c = decimal(v.patch as nat);
    lemma_decimal(v.major as nat);
    lemma_decimal(v.minor as nat);
    lemma_decimal(v.patch as nat);
    let t = version_text(v);
    assert(t =~= a + seq!['.'] + b + seq!['.'] + c);
    assert(t.last() == c.last());
    assert(is_digit(c[c.len() - 1]));
    assert forall|i: int| 0 <= i < t.len() implies is_digit(#[trigger] t[i]) || t[i] == '.' by {
        if i < a.len() {
            assert(t[i] == a[i]);
            assert(is_digit(a[i]));
        } else if i == a.len() {
        } else if i < a.len() + 1 + b.len() {
            assert(t[i] == b[i - a.len() - 1]);
            assert(is_digit(b[i - a.len() - 1]));
        } else if i == a.len() + 1 + b.len() {
        } else {
            assert(t[i] == c[i - a.len() - 2 - b.len()]);
            assert(is_digit(c[i - a.len() - 2 - b.len()]));
        }
    }
}

/// The first `_E` from `from` on is at `i` when none starts before it.
proof fn lemma_find_pair_first(s: Seq<char>, from: int, i: int)
    requires
        0 <= from <= i,
        i + 1 < s.len(),
        s[i] == '_',
        s[i + 1] == 'E',
        forall|k: int| from <= k < i ==> #[trigger] s[k] != '_',
    ensures
        find_pair(s, '_', 'E', from) == Some(i),
    decreases i - from,
{
    if from < i {
        lemma_find_pair_first(s, from + 1, i);
    }
}

/// A banner written with `S`, the STM version's text, `_E` and the ESP
/// version's text reads back as exactly those two versions, reported; one
/// written as `@version ` and the ESP version's text reads back as that
/// version, with the STM version assumed to be 1.2.2 and flagged as such.
#[verifier::rlimit(30)]
pub proof fn law_a_banner_reads_back(stm: Version, esp: Version)
    ensures
        banner_of(seq!['S'] + version_text(stm) + seq!['_', 'E'] + version_text(esp)) == Some(
            Banner { stm, esp, stm_was_implied: false },
        ),
        banner_of(seq!['@', 'v', 'e', 'r', 's', 'i', 'o', 'n', ' '] + version_text(esp)) == Some(
            Banner { stm: Version { major: 1, minor: 2, patch: 2 }, esp, stm_was_implied: true },
        ),
{
    let a = version_text(stm);
    let b = version_text(esp);
    lemma_version_text_chars(stm);
    lemma_version_text_chars(esp);
    law_version_text_reads_back(stm);
    law_version_text_reads_back(esp);

    let t = seq!['S'] + a + seq!['_', 'E'] + b;
    assert(t.last() == b.last());
    assert(strip_line_end(t) == t);
    let rest = t.drop_first();
    assert(rest =~= a + seq!['_', 'E'] + b);
    assert(rest[a.len() as int] == '_');
    assert(rest[a.len() as int + 1] == 'E');
    assert forall|k: int| 0 <= k < a.len() implies #[trigger] rest[k] != '_' by {
        assert(rest[k] == a[k]);
        assert(is_digit(a[k]) || a[k] == '.');
    }
    lemma_find_pair_first(rest, 0, a.len() as int);
    assert(rest.take(a.len() as int) =~= a);
    assert(rest.skip(a.len() as int + 2) =~= b);
    assert(t[0] == 'S');

    let tag = seq!['@', 'v', 'e', 'r', 's', 'i', 'o', 'n', ' '];
    let u = tag + b;
    assert(u.last() == b.last());
    assert(strip_line_end(u) == u);
    assert(u[0] == '@');
    assert(u.take(9) =~= legacy_tag());
    assert(u.skip(9) =~= b);
}

/// A banner reads the same whether or not the line ending that follows it,
/// `\n` or `\r\n`, was received.
pub proof fn law_a_banner_ignores_its_line_ending(t: Seq<char>)
    ensures
        banner_of(t.push('\n')) == banner_of(t),
        banner_of(t.push('\r').push('\n')) == banner_of(t),
{
    assert(t.push('\n').drop_last() =~= t);
    assert(t.push('\r').push('\n').drop_last() =~= t.push('\r'));
    assert(t.push('\r').drop_last() =~= t);
    assert(strip_line_end(t.push('\r')) == strip_line_end(t));
    assert(strip_line_end(t.push('\r').push('\n')) == strip_line_end(t.push('\r')));
}

/// An STM version that was assumed is always flagged, and is always 1.2.2;
/// it is assumed exactly when the banner is of the older `@version` form.
pub proof fn law_an_assumed_stm_version_is_flagged(t: Seq<char>)
    ensures
        banner_of(t) matches Some(b) ==> {
            &&& b.stm_was_implied ==> b.stm == implied_stm()
            &&& b.stm_was_implied <==> (strip_line_end(t).len() >= 9 && strip_line_end(t).take(9)
                == legacy_tag())
        },
{
    let s = strip_line_end(t);
    if s.len() > 0 && s[0] == 'S' && s.len() >= 9 {
        assert(s.take(9)[0] == 'S');
        assert(legacy_tag()[0] == '@');
    }
}

proof fn lemma_strip_line_end_is_a_prefix(t: Seq<char>)
    ensures
        strip_line_end(t).len() <= t.len(),
        forall|i: int|
            0 <= i < strip_line_end(t).len() ==> #[trigger] strip_line_end(t)[i] == t[i],
    decreases t.len(),
{
    if t.len() > 0 && (t.last() == '\n' || t.last() == '\r') {
        lemma_strip_line_end_is_a_prefix(t.drop_last());
    }
}

/// A JSON-RPC reply is never mistaken for a banner: text that begins `{`
/// reads as no banner at all.
pub proof fn law_a_json_reply_is_never_a_banner(t: Seq<char>)
    requires
        t.len() > 0,
        t[0] == '{',
    ensures
        banner_of(t) is None,
{
    lemma_strip_line_end_is_a_prefix(t);
    let s = strip_line_end(t);
    if s.len() > 0 {
        assert(s[0] == '{');
        if s.len() >= 9 {
            assert(s.take(9)[0] == '{');
            assert(legacy_tag()[0] == '@');
        }
    }
}

} // verus!
