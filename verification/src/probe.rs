//! The decisions of the control-run probe: reading its command line, its
//! call parameters and a device's hex replies, and turning a failure into
//! advice. The probe's Bluetooth session itself stays with the program.
use vstd::prelude::*;
use vstd::string::StringExecFns;

use crate::text::{
    chars_of, find_char, find_char_in, lemma_find_char_bounds, parse_i64_in, parse_i64_spec,
    push_char, push_range, same_text, split_on, split_ranges, string_of, trim, trim_bounds,
};

verus! {

// ---------------------------------------------------------------------------
// Ranges
// ---------------------------------------------------------------------------

/// What `parse_range` reads from `t`: `a-b` split at its first `-`, or a
/// single number `n` standing for `n-n`.
pub open spec fn range_of(t: Seq<char>) -> Result<(i64, i64), Seq<char>> {
    match find_char(t, '-', 0) {
        Some(i) => match parse_i64_spec(trim(t.take(i))) {
            None => Err("range start isn't a number"@),
            Some(first) => match parse_i64_spec(trim(t.skip(i + 1))) {
                None => Err("range end isn't a number"@),
                Some(last) => if last < first {
                    Err("range end is before its start"@)
                } else {
                    Ok((first, last))
                },
            },
        },
        None => match parse_i64_spec(trim(t)) {
            None => Err("--bank isn't a number"@),
            Some(n) => Ok((n, n)),
        },
    }
}

/// Accept either `3` or `0-7`.
pub fn parse_range(text: &str) -> (r: Result<(i64, i64), String>)
    ensures
        match (r, range_of(text@)) {
            (Ok(x), Ok(y)) => x == y,
            (Err(e), Err(m)) => e@ == m,
            _ => false,
        },
{
    let v = chars_of(text);
    let n = v.len();
    assert(v@.subrange(0, n as int) =~= text@);
    match find_char_in(&v, 0, n, '-') {
        Some(i) => {
            proof {
                lemma_find_char_bounds(text@, '-', 0);
            }
            assert(text@.take(i as int) =~= v@.subrange(0, i as int));
            assert(text@.skip(i + 1) =~= v@.subrange(i + 1, n as int));
            let (a0, a1) = trim_bounds(&v, 0, i);
            let first = match parse_i64_in(&v, a0, a1) {
                Some(x) => x,
                None => return Err(String::from_str("range start isn't a number")),
            };
            let (b0, b1) = trim_bounds(&v, i + 1, n);
            let last = match parse_i64_in(&v, b0, b1) {
                Some(x) => x,
                None => return Err(String::from_str("range end isn't a number")),
            };
            if last < first {
                return Err(String::from_str("range end is before its start"));
            }
            Ok((first, last))
        },
        None => {
            let (a0, a1) = trim_bounds(&v, 0, n);
            match parse_i64_in(&v, a0, a1) {
                Some(x) => Ok((x, x)),
                None => Err(String::from_str("--bank isn't a number")),
            }
        },
    }
}

/// A range that reads is never one whose end is before its start.
pub proof fn law_a_range_never_ends_before_it_starts(t: Seq<char>)
    ensures
        range_of(t) matches Ok((first, last)) ==> first <= last,
{
}

// ---------------------------------------------------------------------------
// Unquoted keys
// ---------------------------------------------------------------------------

/// A character that can begin a bare word: an ASCII letter or `_`.
pub open spec fn is_word_start(c: char) -> bool {
    ('a' <= c && c <= 'z') || ('A' <= c && c <= 'Z') || c == '_'
}

/// A character that can continue a bare word: an ASCII letter, digit or `_`.
pub open spec fn is_word_char(c: char) -> bool {
    is_word_start(c) || ('0' <= c && c <= '9')
}

/// The end of the run of word characters starting at `i`.
pub open spec fn word_end(s: Seq<char>, i: int) -> int
    decreases s.len() - i,
{
    if 0 <= i < s.len() && is_word_char(s[i]) {
        word_end(s, i + 1)
    } else {
        i
    }
}

pub proof fn lemma_word_end_bounds(s: Seq<char>, i: int)
    requires
        0 <= i <= s.len(),
    ensures
        i <= word_end(s, i) <= s.len(),
    decreases s.len() - i,
{
    if i < s.len() && is_word_char(s[i]) {
        lemma_word_end_bounds(s, i + 1);
    }
}

/// `true`, `false` and `null`, which are never keys.
pub open spec fn is_json_literal(w: Seq<char>) -> bool {
    ||| w == seq!['t', 'r', 'u', 'e']
    ||| w == seq!['f', 'a', 'l', 's', 'e']
    ||| w == seq!['n', 'u', 'l', 'l']
}

/// What `repair_unquoted_keys` writes for `s` from index `i` on, `in_string`
/// telling whether `i` is inside a quoted string: every bare word outside a
/// string that is directly followed by `:` and is not a JSON literal comes
/// out quoted; everything else is copied.
pub open spec fn repair_from(s: Seq<char>, i: int, in_string: bool) -> Seq<char>
    decreases s.len() - i,
{
    if i < 0 || i >= s.len() {
        Seq::<char>::empty()
    } else if s[i] == '"' {
        seq!['"'] + repair_from(s, i + 1, !in_string)
    } else if !in_string && is_word_start(s[i]) {
        proof {
            lemma_word_end_bounds(s, i + 1);
        }
        let j = word_end(s, i + 1);
        let w = s.subrange(i, j);
        let quote = j < s.len() && s[j] == ':' && !is_json_literal(w);
        (if quote {
            seq!['"'] + w + seq!['"']
        } else {
            w
        }) + repair_from(s, j, in_string)
    } else {
        seq![s[i]] + repair_from(s, i + 1, in_string)
    }
}

fn is_word_start_char(c: char) -> (b: bool)
    ensures
        b == is_word_start(c),
{
    ('a' <= c && c <= 'z') || ('A' <= c && c <= 'Z') || c == '_'
}

fn is_word_char_exec(c: char) -> (b: bool)
    ensures
        b == is_word_char(c),
{
    is_word_start_char(c) || ('0' <= c && c <= '9')
}

/// Whether `v[lo..hi]` is `true`, `false` or `null`.
fn is_json_literal_in(v: &Vec<char>, lo: usize, hi: usize) -> (b: bool)
    requires
        lo <= hi <= v@.len(),
    ensures
        b == is_json_literal(v@.subrange(lo as int, hi as int)),
{
    let ghost w = v@.subrange(lo as int, hi as int);
    let n = hi - lo;
    let b = if n == 4 {
        (v[lo] == 't' && v[lo + 1] == 'r' && v[lo + 2] == 'u' && v[lo + 3] == 'e') || (v[lo]
            == 'n' && v[lo + 1] == 'u' && v[lo + 2] == 'l' && v[lo + 3] == 'l')
    } else if n == 5 {
        v[lo] == 'f' && v[lo + 1] == 'a' && v[lo + 2] == 'l' && v[lo + 3] == 's' && v[lo + 4]
            == 'e'
    } else {
        false
    };
    assert(b == is_json_literal(w)) by {
        assert(seq!['t', 'r', 'u', 'e'].len() == 4);
        assert(seq!['n', 'u', 'l', 'l'].len() == 4);
        assert(seq!['f', 'a', 'l', 's', 'e'].len() == 5);
        assert(w.len() == n);
        if n == 4 {
            assert(w[0] == v@[lo as int] && w[1] == v@[lo + 1] && w[2] == v@[lo + 2] && w[3]
                == v@[lo + 3]);
            if v@[lo as int] == 't' && v@[lo + 1] == 'r' && v@[lo + 2] == 'u' && v@[lo + 3]
                == 'e' {
                assert(w =~= seq!['t', 'r', 'u', 'e']);
            }
            if v@[lo as int] == 'n' && v@[lo + 1] == 'u' && v@[lo + 2] == 'l' && v@[lo + 3]
                == 'l' {
                assert(w =~= seq!['n', 'u', 'l', 'l']);
            }
            if w == seq!['t', 'r', 'u', 'e'] {
                assert(w[0] == 't' && w[1] == 'r' && w[2] == 'u' && w[3] == 'e');
            }
            if w == seq!['n', 'u', 'l', 'l'] {
                assert(w[0] == 'n' && w[1] == 'u' && w[2] == 'l' && w[3] == 'l');
            }
        } else if n == 5 {
            assert(w[0] == v@[lo as int] && w[1] == v@[lo + 1] && w[2] == v@[lo + 2] && w[3]
                == v@[lo + 3] && w[4] == v@[lo + 4]);
            if v@[lo as int] == 'f' && v@[lo + 1] == 'a' && v@[lo + 2] == 'l' && v@[lo + 3]
                == 's' && v@[lo + 4] == 'e' {
                assert(w =~= seq!['f', 'a', 'l', 's', 'e']);
            }
            if w == seq!['f', 'a', 'l', 's', 'e'] {
                assert(w[0] == 'f' && w[1] == 'a' && w[2] == 'l' && w[3] == 's' && w[4] == 'e');
            }
        }
    }
    b
}

/// Put quotes back around bare object keys, undoing what a shell removed.
pub fn repair_unquoted_keys(text: &str) -> (out: String)
    ensures
        out@ == repair_from(text@, 0, false),
{
    let v = chars_of(text);
    let ghost s = v@;
    let mut out = String::new();
    let mut in_string = false;
    let mut i: usize = 0;
    assert(out@ + repair_from(s, 0, false) =~= repair_from(s, 0, false));
    while i < v.len()
        invariant
            s == v@,
            s == text@,
            i <= v@.len(),
            out@ + repair_from(s, i as int, in_string) == repair_from(s, 0, false),
        decreases v@.len() - i,
    {
        let ghost before = out@;
        let c = v[i];
        if c == '"' {
            push_char(&mut out, c);
            assert(before + repair_from(s, i as int, in_string) =~= out@ + repair_from(
                s,
                i + 1,
                !in_string,
            ));
            in_string = !in_string;
            i = i + 1;
        } else if !in_string && is_word_start_char(c) {
            let mut j = i + 1;
            proof {
                lemma_word_end_bounds(s, i + 1);
            }
            while j < v.len() && is_word_char_exec(v[j])
                invariant
                    s == v@,
                    i + 1 <= j <= v@.len(),
                    word_end(s, i + 1) == word_end(s, j as int),
                decreases v@.len() - j,
            {
                j = j + 1;
            }
            assert(word_end(s, j as int) == j);
            let is_key = j < v.len() && v[j] == ':';
            let literal = is_json_literal_in(&v, i, j);
            let ghost w = s.subrange(i as int, j as int);
            if is_key && !literal {
                push_char(&mut out, '"');
                push_range(&mut out, &v, i, j);
                push_char(&mut out, '"');
                assert(out@ =~= before + (seq!['"'] + w + seq!['"']));
            } else {
                push_range(&mut out, &v, i, j);
            }
            assert(before + repair_from(s, i as int, in_string) =~= out@ + repair_from(
                s,
                j as int,
                in_string,
            ));
            i = j;
        } else {
            push_char(&mut out, c);
            assert(before + repair_from(s, i as int, in_string) =~= out@ + repair_from(
                s,
                i + 1,
                in_string,
            ));
            i = i + 1;
        }
    }
    assert(repair_from(s, i as int, in_string) =~= Seq::<char>::empty());
    assert(out@ =~= repair_from(s, 0, false));
    out
}

/// `s` with every `"` deleted.
pub open spec fn drop_quotes(s: Seq<char>) -> Seq<char>
    decreases s.len(),
{
    if s.len() == 0 {
        Seq::<char>::empty()
    } else {
        drop_quotes(s.drop_last()) + (if s.last() == '"' {
            Seq::<char>::empty()
        } else {
            seq![s.last()]
        })
    }
}

proof fn lemma_drop_quotes_add(a: Seq<char>, b: Seq<char>)
    ensures
        drop_quotes(a + b) == drop_quotes(a) + drop_quotes(b),
    decreases b.len(),
{
    if b.len() == 0 {
        assert(a + b =~= a);
        assert(drop_quotes(a) + drop_quotes(b) =~= drop_quotes(a));
    } else {
        assert((a + b).drop_last() =~= a + b.drop_last());
        lemma_drop_quotes_add(a, b.drop_last());
        assert(drop_quotes(a + b) =~= drop_quotes(a) + drop_quotes(b));
    }
}

proof fn lemma_drop_quotes_one(c: char)
    ensures
        drop_quotes(seq![c]) == (if c == '"' {
            Seq::<char>::empty()
        } else {
            seq![c]
        }),
{
    assert(seq![c].drop_last() =~= Seq::<char>::empty());
    assert(drop_quotes(Seq::<char>::empty()) == Seq::<char>::empty());
}

proof fn lemma_word_end_shift(p: Seq<char>, y: Seq<char>, m: int)
    requires
        0 <= m <= y.len(),
    ensures
        word_end(p + y, p.len() + m) == p.len() + word_end(y, m),
    decreases y.len() - m,
{
    if m < y.len() {
        assert((p + y)[p.len() + m] == y[m]);
        if is_word_char(y[m]) {
            lemma_word_end_shift(p, y, m + 1);
        }
    }
}

/// Every character of the run that `word_end` skips is a word character,
/// and the run stops at one that is not.
proof fn lemma_word_run(s: Seq<char>, k: int)
    requires
        0 <= k <= s.len(),
    ensures
        forall|q: int| k <= q < word_end(s, k) ==> is_word_char(#[trigger] s[q]),
        word_end(s, k) < s.len() ==> !is_word_char(s[word_end(s, k)]),
    decreases s.len() - k,
{
    if k < s.len() && is_word_char(s[k]) {
        lemma_word_run(s, k + 1);
    }
}

proof fn lemma_word_end_over_run(s: Seq<char>, k: int, e: int)
    requires
        0 <= k <= e <= s.len(),
        forall|q: int| k <= q < e ==> is_word_char(#[trigger] s[q]),
    ensures
        word_end(s, k) == word_end(s, e),
    decreases e - k,
{
    if k < e {
        lemma_word_end_over_run(s, k + 1, e);
    }
}

/// What the repair writes does not depend on what stands before where it
/// starts.
proof fn lemma_repair_shift(p: Seq<char>, y: Seq<char>, m: int, in_string: bool)
    requires
        0 <= m <= y.len(),
    ensures
        repair_from(p + y, p.len() + m, in_string) == repair_from(y, m, in_string),
    decreases y.len() - m,
{
    let s = p + y;
    let i = p.len() + m;
    if m < y.len() {
        assert(s[i] == y[m]);
        if y[m] == '"' {
            lemma_repair_shift(p, y, m + 1, !in_string);
        } else if !in_string && is_word_start(y[m]) {
            lemma_word_end_shift(p, y, m + 1);
            lemma_word_end_bounds(y, m + 1);
            let j = word_end(y, m + 1);
            assert(s.subrange(i, p.len() + j) =~= y.subrange(m, j));
            if j < y.len() {
                assert(s[p.len() + j] == y[j]);
            }
            lemma_repair_shift(p, y, j, in_string);
        } else {
            lemma_repair_shift(p, y, m + 1, in_string);
        }
    }
}

/// Inside a string, a run without quotes is copied as it is.
proof fn lemma_in_string_copy(t: Seq<char>, k: int, e: int)
    requires
        0 <= k <= e <= t.len(),
        forall|q: int| k <= q < e ==> #[trigger] t[q] != '"',
    ensures
        repair_from(t, k, true) == t.subrange(k, e) + repair_from(t, e, true),
    decreases e - k,
{
    if k < e {
        lemma_in_string_copy(t, k + 1, e);
        assert(seq![t[k]] + t.subrange(k + 1, e) =~= t.subrange(k, e));
    } else {
        assert(t.subrange(k, e) =~= Seq::<char>::empty());
    }
}

/// Repairing what the repair wrote from `i` on changes nothing.
proof fn lemma_repair_fixed(s: Seq<char>, i: int, in_string: bool)
    requires
        0 <= i <= s.len(),
    ensures
        repair_from(repair_from(s, i, in_string), 0, in_string) == repair_from(s, i, in_string),
    decreases s.len() - i,
{
    if i < s.len() {
        let out = repair_from(s, i, in_string);
        if s[i] == '"' {
            let x = repair_from(s, i + 1, !in_string);
            lemma_repair_fixed(s, i + 1, !in_string);
            lemma_repair_shift(seq!['"'], x, 0, !in_string);
            assert(out[0] == '"');
        } else if !in_string && is_word_start(s[i]) {
            lemma_word_end_bounds(s, i + 1);
            lemma_word_run(s, i + 1);
            let j = word_end(s, i + 1);
            let w = s.subrange(i, j);
            let n: int = w.len() as int;
            let x = repair_from(s, j, in_string);
            lemma_repair_fixed(s, j, in_string);
            assert(forall|q: int| 0 <= q < n ==> is_word_char(#[trigger] w[q])) by {
                assert forall|q: int| 0 <= q < n implies is_word_char(#[trigger] w[q]) by {
                    assert(w[q] == s[i + q]);
                }
            }
            if j < s.len() && s[j] == ':' && !is_json_literal(w) {
                let q = seq!['"'] + w + seq!['"'];
                assert(out == q + x);
                assert(out[0] == '"');
                assert forall|k: int| 1 <= k < 1 + n implies #[trigger] out[k] != '"' by {
                    assert(out[k] == w[k - 1]);
                    assert(is_word_char(w[k - 1]));
                }
                lemma_in_string_copy(out, 1, 1 + n);
                assert(out[1 + n] == '"');
                lemma_repair_shift(q, x, 0, in_string);
                assert(out.subrange(1, 1 + n) =~= w);
                assert(seq!['"'] + (w + (seq!['"'] + x)) =~= out);
            } else {
                assert(out == w + x);
                assert forall|k: int| 1 <= k < n implies is_word_char(#[trigger] out[k]) by {
                    assert(out[k] == w[k]);
                }
                lemma_word_end_over_run(out, 1, n);
                lemma_word_end_shift(w, x, 0);
                if j < s.len() {
                    assert(!is_word_char(s[j]));
                    assert(x[0] == s[j]);
                    assert(out[n] == s[j]);
                } else {
                    assert(x.len() == 0);
                }
                assert(word_end(out, 1) == n);
                assert(out.subrange(0, n) =~= w);
                lemma_repair_shift(w, x, 0, in_string);
            }
        } else {
            let x = repair_from(s, i + 1, in_string);
            lemma_repair_fixed(s, i + 1, in_string);
            lemma_repair_shift(seq![s[i]], x, 0, in_string);
            assert(out[0] == s[i]);
        }
    } else {
        assert(repair_from(s, i, in_string) =~= Seq::<char>::empty());
    }
}

/// Repairing a text a second time changes nothing: every key the first
/// repair quoted is now inside a string, and every word it left bare is
/// left bare again.
pub proof fn law_repair_is_idempotent(t: Seq<char>)
    ensures
        repair_from(repair_from(t, 0, false), 0, false) == repair_from(t, 0, false),
{
    lemma_repair_fixed(t, 0, false);
}

proof fn lemma_repair_drops_to_text(s: Seq<char>, i: int, in_string: bool)
    requires
        0 <= i <= s.len(),
    ensures
        drop_quotes(repair_from(s, i, in_string)) == drop_quotes(s.skip(i)),
    decreases s.len() - i,
{
    if i < s.len() {
        assert(s.skip(i) =~= seq![s[i]] + s.skip(i + 1));
        if s[i] == '"' {
            lemma_repair_drops_to_text(s, i + 1, !in_string);
            lemma_drop_quotes_add(seq!['"'], repair_from(s, i + 1, !in_string));
            lemma_drop_quotes_add(seq![s[i]], s.skip(i + 1));
            lemma_drop_quotes_one('"');
            assert(Seq::<char>::empty() + drop_quotes(s.skip(i + 1)) =~= drop_quotes(s.skip(i + 1)));
            assert(Seq::<char>::empty() + drop_quotes(repair_from(s, i + 1, !in_string))
                =~= drop_quotes(repair_from(s, i + 1, !in_string)));
        } else if !in_string && is_word_start(s[i]) {
            lemma_word_end_bounds(s, i + 1);
            let j = word_end(s, i + 1);
            let w = s.subrange(i, j);
            let x = repair_from(s, j, in_string);
            lemma_repair_drops_to_text(s, j, in_string);
            assert(s.skip(i) =~= w + s.skip(j));
            lemma_drop_quotes_add(w, s.skip(j));
            if j < s.len() && s[j] == ':' && !is_json_literal(w) {
                let q = seq!['"'] + w + seq!['"'];
                lemma_drop_quotes_add(q, x);
                lemma_drop_quotes_add(seq!['"'] + w, seq!['"']);
                lemma_drop_quotes_add(seq!['"'], w);
                lemma_drop_quotes_one('"');
                assert(Seq::<char>::empty() + drop_quotes(w) =~= drop_quotes(w));
                assert(drop_quotes(w) + Seq::<char>::empty() =~= drop_quotes(w));
            } else {
                lemma_drop_quotes_add(w, x);
            }
        } else {
            let x = repair_from(s, i + 1, in_string);
            lemma_repair_drops_to_text(s, i + 1, in_string);
            lemma_drop_quotes_add(seq![s[i]], x);
            lemma_drop_quotes_add(seq![s[i]], s.skip(i + 1));
        }
    } else {
        assert(s.skip(i) =~= Seq::<char>::empty());
        assert(repair_from(s, i, in_string) =~= Seq::<char>::empty());
    }
}

/// The repair only ever adds quotes: with every `"` deleted, the repaired
/// text is the text with every `"` deleted.
pub proof fn law_repair_only_adds_quotes(t: Seq<char>)
    ensures
        drop_quotes(repair_from(t, 0, false)) == drop_quotes(t),
{
    lemma_repair_drops_to_text(t, 0, false);
    assert(t.skip(0) =~= t);
}

/// A bare key is quoted whole: a key that begins with an ASCII letter of
/// either case or `_`, continues with ASCII letters, digits or `_`, and is
/// not `true`, `false` or `null`, comes out between quotes when it opens an
/// object and is followed by `:`; what follows the `:` is repaired as it
/// would be on its own.
pub proof fn law_a_bare_key_is_quoted_whole(k: Seq<char>, v: Seq<char>)
    requires
        k.len() > 0,
        ('a' <= k[0] && k[0] <= 'z') || ('A' <= k[0] && k[0] <= 'Z') || k[0] == '_',
        forall|i: int|
            1 <= i < k.len() ==> ('a' <= #[trigger] k[i] && k[i] <= 'z') || ('A' <= k[i] && k[i]
                <= 'Z') || ('0' <= k[i] && k[i] <= '9') || k[i] == '_',
        k != seq!['t', 'r', 'u', 'e'],
        k != seq!['f', 'a', 'l', 's', 'e'],
        k != seq!['n', 'u', 'l', 'l'],
    ensures
        repair_from(seq!['{'] + k + seq![':'] + v, 0, false) == seq!['{', '"'] + k + seq![
            '"',
            ':',
        ] + repair_from(v, 0, false),
{
    let p = seq!['{'] + k + seq![':'];
    let s = p + v;
    let n = k.len() as int;
    let j = n + 1;
    assert(s[0] == '{');
    assert(s[1] == k[0]);
    assert(s[j] == ':');
    assert forall|q: int| 2 <= q < j implies is_word_char(#[trigger] s[q]) by {
        assert(s[q] == k[q - 1]);
    }
    lemma_word_end_over_run(s, 2, j);
    assert(word_end(s, j) == j);
    assert(word_end(s, 2) == j);
    assert(s.subrange(1, j) =~= k);
    lemma_repair_shift(p, v, 0, false);
    assert(repair_from(s, j, false) == seq![':'] + repair_from(s, j + 1, false));
    assert(repair_from(s, 1, false) == seq!['"'] + k + seq!['"'] + repair_from(s, j, false));
    assert(repair_from(s, 0, false) == seq!['{'] + repair_from(s, 1, false));
    assert(seq!['{'] + (seq!['"'] + k + seq!['"'] + (seq![':'] + repair_from(v, 0, false)))
        =~= seq!['{', '"'] + k + seq!['"', ':'] + repair_from(v, 0, false));
}

/// Whether `r` is `t` with some `"` characters inserted, and nothing else
/// changed.
pub open spec fn by_inserting_quotes(t: Seq<char>, r: Seq<char>) -> bool
    decreases r.len(),
{
    if r.len() == 0 {
        t.len() == 0
    } else {
        ||| (t.len() > 0 && r[0] == t[0] && by_inserting_quotes(t.drop_first(), r.drop_first()))
        ||| (r[0] == '"' && by_inserting_quotes(t, r.drop_first()))
    }
}

proof fn lemma_inserting_nothing(s: Seq<char>)
    ensures
        by_inserting_quotes(s, s),
    decreases s.len(),
{
    if s.len() > 0 {
        lemma_inserting_nothing(s.drop_first());
    }
}

proof fn lemma_inserting_one_quote()
    ensures
        by_inserting_quotes(Seq::<char>::empty(), seq!['"']),
{
    assert(seq!['"'].drop_first() =~= Seq::<char>::empty());
    assert(by_inserting_quotes(Seq::<char>::empty(), Seq::<char>::empty()));
}

proof fn lemma_inserting_add(a: Seq<char>, b: Seq<char>, c: Seq<char>, d: Seq<char>)
    requires
        by_inserting_quotes(a, b),
        by_inserting_quotes(c, d),
    ensures
        by_inserting_quotes(a + c, b + d),
    decreases b.len(),
{
    if b.len() == 0 {
        assert(a + c =~= c);
        assert(b + d =~= d);
    } else {
        assert((b + d)[0] == b[0]);
        assert((b + d).drop_first() =~= b.drop_first() + d);
        if a.len() > 0 && b[0] == a[0] && by_inserting_quotes(a.drop_first(), b.drop_first()) {
            assert((a + c)[0] == a[0]);
            assert((a + c).drop_first() =~= a.drop_first() + c);
            lemma_inserting_add(a.drop_first(), b.drop_first(), c, d);
        } else {
            lemma_inserting_add(a, b.drop_first(), c, d);
        }
    }
}

proof fn lemma_repair_inserts(s: Seq<char>, i: int, in_string: bool)
    requires
        0 <= i <= s.len(),
    ensures
        by_inserting_quotes(s.skip(i), repair_from(s, i, in_string)),
    decreases s.len() - i,
{
    if i < s.len() {
        assert(s.skip(i) =~= seq![s[i]] + s.skip(i + 1));
        lemma_inserting_nothing(seq![s[i]]);
        if s[i] == '"' {
            lemma_repair_inserts(s, i + 1, !in_string);
            lemma_inserting_add(
                seq![s[i]],
                seq![s[i]],
                s.skip(i + 1),
                repair_from(s, i + 1, !in_string),
            );
        } else if !in_string && is_word_start(s[i]) {
            lemma_word_end_bounds(s, i + 1);
            let j = word_end(s, i + 1);
            let w = s.subrange(i, j);
            let x = repair_from(s, j, in_string);
            lemma_repair_inserts(s, j, in_string);
            assert(s.skip(i) =~= w + s.skip(j));
            lemma_inserting_nothing(w);
            if j < s.len() && s[j] == ':' && !is_json_literal(w) {
                let e = Seq::<char>::empty();
                lemma_inserting_one_quote();
                lemma_inserting_add(e, seq!['"'], w, w);
                assert(e + w =~= w);
                lemma_inserting_add(w, seq!['"'] + w, e, seq!['"']);
                assert(w + e =~= w);
                lemma_inserting_add(w, seq!['"'] + w + seq!['"'], s.skip(j), x);
            } else {
                lemma_inserting_add(w, w, s.skip(j), x);
            }
        } else {
            lemma_repair_inserts(s, i + 1, in_string);
            lemma_inserting_add(
                seq![s[i]],
                seq![s[i]],
                s.skip(i + 1),
                repair_from(s, i + 1, in_string),
            );
        }
    } else {
        assert(s.skip(i) =~= Seq::<char>::empty());
        assert(repair_from(s, i, in_string) =~= Seq::<char>::empty());
    }
}

/// The repair only ever inserts quotes: the repaired text is the text with
/// some `"` characters added, every other character kept in its order.
pub proof fn law_repair_only_inserts_quotes(t: Seq<char>)
    ensures
        by_inserting_quotes(t, repair_from(t, 0, false)),
{
    lemma_repair_inserts(t, 0, false);
    assert(t.skip(0) =~= t);
}

// ---------------------------------------------------------------------------
// Hex replies
// ---------------------------------------------------------------------------

pub open spec fn is_hex_digit(c: char) -> bool {
    ('0' <= c && c <= '9') || ('a' <= c && c <= 'f') || ('A' <= c && c <= 'F')
}

pub open spec fn hex_value(c: char) -> int {
    if '0' <= c && c <= '9' {
        c as int - '0' as int
    } else if 'a' <= c && c <= 'f' {
        c as int - 'a' as int + 10
    } else {
        c as int - 'A' as int + 10
    }
}

/// The bytes that a string of hex digit pairs spells, first pair first.
pub open spec fn decode_hex(s: Seq<char>) -> Seq<u8> {
    Seq::new(s.len() / 2, |k: int| (hex_value(s[2 * k]) * 16 + hex_value(s[2 * k + 1])) as u8)
}

/// The lowercase hex digit for `d < 16`.
pub open spec fn hex_digit(d: int) -> char {
    if d < 10 {
        ('0' as int + d) as char
    } else {
        ('a' as int + d - 10) as char
    }
}

/// `n` in lowercase hex, without leading zeros.
pub open spec fn hex(n: nat) -> Seq<char>
    decreases n,
{
    if n < 16 {
        seq![hex_digit(n as int)]
    } else {
        hex(n / 16).push(hex_digit((n % 16) as int))
    }
}

/// `c` repeated `n` times.
pub open spec fn repeat(c: char, n: int) -> Seq<char> {
    Seq::new(if n > 0 { n as nat } else { 0 }, |_i: int| c)
}

/// `n` in lowercase hex, zero-padded to at least four digits (`{:04x}`).
pub open spec fn hex_at_least_4(n: nat) -> Seq<char> {
    repeat('0', 4 - hex(n).len()) + hex(n)
}

/// A byte as two lowercase hex digits (`{:02x}`).
pub open spec fn hex_byte(b: u8) -> Seq<char> {
    seq![hex_digit((b / 16) as int), hex_digit((b % 16) as int)]
}

/// The bytes' hex pairs joined by single spaces.
pub open spec fn joined_hex(b: Seq<u8>) -> Seq<char>
    decreases b.len(),
{
    if b.len() == 0 {
        Seq::<char>::empty()
    } else if b.len() == 1 {
        hex_byte(b[0])
    } else {
        joined_hex(b.drop_last()) + seq![' '] + hex_byte(b.last())
    }
}

/// A byte as itself when printable ASCII, otherwise `.`.
pub open spec fn printable(b: u8) -> char {
    if 0x20 <= b && b < 0x7f {
        b as char
    } else {
        '.'
    }
}

/// One row of the dump: the offset, the hex pairs left-aligned in 47
/// columns, and the printable column between bars.
pub open spec fn dump_row(chunk: Seq<u8>, offset: nat) -> Seq<char> {
    let pairs = joined_hex(chunk);
    repeat(' ', 10) + hex_at_least_4(offset) + seq![' ', ' '] + pairs + repeat(
        ' ',
        47 - pairs.len(),
    ) + seq![' ', ' ', '|'] + Seq::new(chunk.len(), |i: int| printable(chunk[i])) + seq![
        '|',
        '\n',
    ]
}

/// The rows of the dump of `b` from row `row` on, sixteen bytes a row.
pub open spec fn dump_rows(b: Seq<u8>, row: nat) -> Seq<char>
    decreases b.len() + 16 - 16 * row,
{
    if 16 * row >= b.len() {
        Seq::<char>::empty()
    } else {
        let start: int = 16 * row as int;
        let end: int = if start + 16 <= b.len() {
            start + 16
        } else {
            b.len() as int
        };
        dump_row(b.subrange(start, end), 16 * row) + dump_rows(b, row + 1)
    }
}

/// In every row of a dump, the column between the bars shows each byte of
/// the row as the character it is when it is printable ASCII, space
/// included (`0x20` up to but not including `0x7f`), and as `.` otherwise;
/// the row ends `|\n`.
pub proof fn law_the_ascii_column_shows_printable_bytes(chunk: Seq<u8>, offset: nat)
    ensures
        ({
            let row = dump_row(chunk, offset);
            let n = chunk.len() as int;
            let l = row.len() as int;
            &&& l >= n + 3
            &&& row[l - n - 3] == '|'
            &&& row[l - 2] == '|'
            &&& row[l - 1] == '\n'
            &&& forall|i: int|
                0 <= i < n ==> #[trigger] row[l - n - 2 + i] == (if 0x20 <= chunk[i] && chunk[i]
                    < 0x7f {
                    chunk[i] as char
                } else {
                    '.'
                })
        }),
{
    let pairs = joined_hex(chunk);
    let head = repeat(' ', 10) + hex_at_least_4(offset) + seq![' ', ' '] + pairs + repeat(
        ' ',
        47 - pairs.len(),
    );
    let ascii = Seq::new(chunk.len(), |i: int| printable(chunk[i]));
    let row = dump_row(chunk, offset);
    assert(row =~= head + seq![' ', ' ', '|'] + ascii + seq!['|', '\n']);
    let n = chunk.len() as int;
    let l = row.len() as int;
    assert(l == head.len() + 3 + n + 2);
    assert(row[l - n - 3] == '|');
    assert forall|i: int| 0 <= i < n implies #[trigger] row[l - n - 2 + i] == (if 0x20 <= chunk[i]
        && chunk[i] < 0x7f {
        chunk[i] as char
    } else {
        '.'
    }) by {
        assert(row[l - n - 2 + i] == ascii[i]);
    }
}

/// What `render_hex_text` makes of `s`: nothing unless it is at least eight
/// hex digits in pairs, else a count of the bytes they spell and a dump of
/// them.
pub open spec fn hex_dump_of(s: Seq<char>) -> Option<Seq<char>> {
    if s.len() < 8 || s.len() % 2 != 0 || !(forall|i: int| 0 <= i < s.len() ==> is_hex_digit(s[i])) {
        None
    } else {
        let b = decode_hex(s);
        Some(
            "        decoded "@ + crate::text::decimal(b.len()) + " bytes:\n"@ + dump_rows(b, 0),
        )
    }
}

fn hex_value_of(c: char) -> (r: u8)
    requires
        is_hex_digit(c),
    ensures
        r as int == hex_value(c),
        r < 16,
{
    if '0' <= c && c <= '9' {
        (c as u32 - '0' as u32) as u8
    } else if 'a' <= c && c <= 'f' {
        (c as u32 - 'a' as u32 + 10) as u8
    } else {
        (c as u32 - 'A' as u32 + 10) as u8
    }
}

fn hex_digit_char(d: u8) -> (c: char)
    requires
        d < 16,
    ensures
        c == hex_digit(d as int),
{
    if d < 10 {
        (48u8 + d) as char
    } else {
        (87u8 + d) as char
    }
}

proof fn lemma_hex_len(n: nat)
    ensures
        hex(n).len() >= 1,
        n >= 16 ==> hex(n).len() == hex(n / 16).len() + 1,
    decreases n,
{
    if n >= 16 {
        lemma_hex_len(n / 16);
    }
}

/// `n` in lowercase hex.
fn hex_chars(n: u64) -> (v: Vec<char>)
    ensures
        v@ == hex(n as nat),
    decreases n,
{
    let mut v = if n >= 16 {
        hex_chars(n / 16)
    } else {
        Vec::new()
    };
    let c = hex_digit_char((n % 16) as u8);
    v.push(c);
    assert(v@ =~= hex(n as nat));
    v
}

/// Appends `c` `n` times.
fn push_repeat(s: &mut String, c: char, n: usize)
    ensures
        final(s)@ == old(s)@ + repeat(c, n as int),
{
    let ghost start = s@;
    let mut k: usize = 0;
    while k < n
        invariant
            k <= n,
            s@ == start + repeat(c, k as int),
        decreases n - k,
    {
        push_char(s, c);
        assert(start + repeat(c, k + 1) =~= (start + repeat(c, k as int)).push(c));
        k = k + 1;
    }
}

/// Appends `n` in lowercase hex, zero-padded to at least four digits.
fn push_hex_at_least_4(s: &mut String, n: u64)
    ensures
        final(s)@ == old(s)@ + hex_at_least_4(n as nat),
{
    let digits = hex_chars(n);
    let ghost start = s@;
    if digits.len() < 4 {
        push_repeat(s, '0', 4 - digits.len());
    } else {
        push_repeat(s, '0', 0);
    }
    push_range(s, &digits, 0, digits.len());
    assert(digits@.subrange(0, digits@.len() as int) =~= digits@);
    assert(s@ =~= start + hex_at_least_4(n as nat));
}

proof fn lemma_joined_hex_len(b: Seq<u8>)
    ensures
        joined_hex(b).len() == if b.len() == 0 {
            0
        } else {
            3 * b.len() - 1
        },
    decreases b.len(),
{
    if b.len() > 1 {
        lemma_joined_hex_len(b.drop_last());
    }
}

fn is_hex_digit_char(c: char) -> (r: bool)
    ensures
        r == is_hex_digit(c),
{
    ('0' <= c && c <= '9') || ('a' <= c && c <= 'f') || ('A' <= c && c <= 'F')
}

fn printable_char(b: u8) -> (c: char)
    ensures
        c == printable(b),
{
    if 0x20 <= b && b < 0x7f {
        b as char
    } else {
        '.'
    }
}

/// Appends one dump row for `b[start..end]`.
fn push_row(out: &mut String, b: &Vec<u8>, start: usize, end: usize)
    requires
        start < end <= b@.len(),
        end <= start + 16,
    ensures
        final(out)@ == old(out)@ + dump_row(b@.subrange(start as int, end as int), start as nat),
{
    let ghost chunk = b@.subrange(start as int, end as int);
    let ghost base = out@;
    push_repeat(out, ' ', 10);
    push_hex_at_least_4(out, start as u64);
    push_char(out, ' ');
    push_char(out, ' ');
    let ghost before_pairs = out@;
    let mut k = start;
    assert(chunk.take(0) =~= Seq::<u8>::empty());
    while k < end
        invariant
            start <= k <= end <= b@.len(),
            chunk == b@.subrange(start as int, end as int),
            out@ == before_pairs + joined_hex(chunk.take(k - start)),
        decreases end - k,
    {
        let ghost prev = out@;
        if k > start {
            push_char(out, ' ');
        }
        let byte = b[k];
        push_char(out, hex_digit_char(byte / 16));
        push_char(out, hex_digit_char(byte % 16));
        assert(chunk.take(k + 1 - start).drop_last() =~= chunk.take(k - start));
        assert(chunk.take(k + 1 - start).last() == byte);
        if k > start {
            assert(out@ =~= prev + seq![' '] + hex_byte(byte));
        } else {
            assert(chunk.take(k + 1 - start) =~= seq![byte]);
            assert(out@ =~= prev + hex_byte(byte));
        }
        k = k + 1;
    }
    assert(chunk.take(end - start) =~= chunk);
    proof {
        lemma_joined_hex_len(chunk);
    }
    let used = 3 * (end - start) - 1;
    push_repeat(out, ' ', 47 - used);
    push_char(out, ' ');
    push_char(out, ' ');
    push_char(out, '|');
    let ghost before_ascii = out@;
    let mut j = start;
    while j < end
        invariant
            start <= j <= end <= b@.len(),
            chunk == b@.subrange(start as int, end as int),
            out@ == before_ascii + Seq::new((j - start) as nat, |i: int| printable(chunk[i])),
        decreases end - j,
    {
        push_char(out, printable_char(b[j]));
        assert(before_ascii + Seq::new((j + 1 - start) as nat, |i: int| printable(chunk[i])) =~= (
        before_ascii + Seq::new((j - start) as nat, |i: int| printable(chunk[i]))).push(
            printable(b@[j as int]),
        ));
        j = j + 1;
    }
    push_char(out, '|');
    push_char(out, '\n');
    assert(out@ =~= base + dump_row(chunk, start as nat));
}

/// Render a hex-string reply as bytes, since some methods answer that way:
/// a count of the bytes and a dump of sixteen per row, offset, hex and
/// printable ASCII. Anything that is not plausibly hex is left alone.
pub fn render_hex_text(text: &str) -> (r: Option<String>)
    ensures
        match (r, hex_dump_of(text@)) {
            (Some(s), Some(t)) => s@ == t,
            (None, None) => true,
            _ => false,
        },
{
    let v = chars_of(text);
    let n = v.len();
    if n < 8 || n % 2 != 0 {
        return None;
    }
    let mut i: usize = 0;
    while i < n
        invariant
            i <= n == v@.len(),
            v@ == text@,
            forall|j: int| 0 <= j < i ==> is_hex_digit(#[trigger] v@[j]),
        decreases n - i,
    {
        if !is_hex_digit_char(v[i]) {
            return None;
        }
        i = i + 1;
    }
    let ghost decoded = decode_hex(v@);
    let mut bytes: Vec<u8> = Vec::new();
    let mut k: usize = 0;
    while k < n / 2
        invariant
            k <= n / 2,
            n == v@.len(),
            n % 2 == 0,
            decoded == decode_hex(v@),
            forall|j: int| 0 <= j < n ==> is_hex_digit(#[trigger] v@[j]),
            bytes@ == decoded.take(k as int),
        decreases n / 2 - k,
    {
        let hi = hex_value_of(v[2 * k]);
        let lo = hex_value_of(v[2 * k + 1]);
        bytes.push(hi * 16 + lo);
        assert(bytes@ =~= decoded.take(k + 1));
        k = k + 1;
    }
    assert(decoded.take(k as int) =~= decoded);
    let mut out = String::from_str("        decoded ");
    crate::text::push_decimal(&mut out, bytes.len() as u64);
    out.append(" bytes:\n");
    let ghost header = out@;
    let len = bytes.len();
    let mut start: usize = 0;
    let ghost mut row: nat = 0;
    while start < len
        invariant
            len == bytes@.len(),
            len <= usize::MAX / 2,
            start <= len,
            start < len ==> start == 16 * row,
            start >= len ==> 16 * row >= len,
            out@ + dump_rows(bytes@, row) == header + dump_rows(bytes@, 0),
        decreases len - start,
    {
        let end = if len - start >= 16 {
            start + 16
        } else {
            len
        };
        let ghost prev = out@;
        push_row(&mut out, &bytes, start, end);
        assert(prev + dump_rows(bytes@, row) =~= out@ + dump_rows(bytes@, row + 1));
        start = end;
        proof {
            row = row + 1;
        }
    }
    assert(dump_rows(bytes@, row) == Seq::<char>::empty());
    assert(out@ =~= header + dump_rows(bytes@, 0));
    Some(out)
}

#[verifier::external_type_specification]
#[verifier::external_body]
pub struct ExJsonValue(serde_json::Value);

/// The text a JSON value holds when it is a string, `None` for every other
/// kind of value: what `serde_json::Value::as_str` gives.
pub uninterp spec fn json_text(value: serde_json::Value) -> Option<Seq<char>>;

/// `serde_json::Value::as_str`: the text of a JSON string value, `None` for
/// every other kind of value. The contract claims only that the answer is
/// fixed by the value; what a `Value` holds is not visible here.
#[verifier::external_body]
fn json_str(value: &serde_json::Value) -> (r: Option<&str>)
    ensures
        match (r, json_text(*value)) {
            (Some(s), Some(t)) => s@ == t,
            (None, None) => true,
            _ => false,
        },
{
    value.as_str()
}

/// Render a reply as a hex dump when it is a string of hex digit pairs (see
/// [`render_hex_text`]).
pub fn render_maybe_hex(value: &serde_json::Value) -> (r: Option<String>)
    ensures
        match json_text(*value) {
            Some(t) => match (r, hex_dump_of(t)) {
                (Some(s), Some(d)) => s@ == d,
                (None, None) => true,
                _ => false,
            },
            None => r is None,
        },
{
    match json_str(value) {
        Some(text) => render_hex_text(text),
        None => None,
    }
}

// ---------------------------------------------------------------------------
// Call parameters
// ---------------------------------------------------------------------------

/// What `serde_json::from_str` makes of `text`: the value it reads, or the
/// message of the error it reports.
pub uninterp spec fn json_parsed(text: Seq<char>) -> Result<serde_json::Value, Seq<char>>;

/// `serde_json::from_str` into a `Value`, with the error given as its
/// message. The contract claims that the value, or the message, is fixed by
/// the text alone.
#[verifier::external_body]
fn json_from_str(text: &str) -> (r: Result<serde_json::Value, String>)
    ensures
        match (r, json_parsed(text@)) {
            (Ok(v), Ok(w)) => v == w,
            (Err(m), Err(e)) => m@ == e,
            _ => false,
        },
{
    match serde_json::from_str(text) {
        Ok(v) => Ok(v),
        Err(e) => Err(e.to_string()),
    }
}

/// One `key=value` value, classified as the probe reads it.
#[derive(Debug, PartialEq)]
pub enum ParamValue {
    /// The trimmed value is an `i64`.
    Int(i64),
    /// The trimmed value is `true` or `false`.
    Bool(bool),
    /// Anything else, trimmed: a number with a fraction or exponent, or text.
    Text(String),
}

/// Call parameters as read from the command line.
#[derive(Debug)]
pub enum Params {
    /// Nothing was given: an empty object.
    Empty,
    /// A JSON object, as given or once its bare keys were quoted.
    Json(serde_json::Value),
    /// Comma-separated `key=value` pairs, keys trimmed, in order.
    Pairs(Vec<(String, ParamValue)>),
}

/// A `key=value` piece split at its first `=`.
pub open spec fn pair_of(piece: Seq<char>) -> Option<(Seq<char>, Seq<char>)> {
    match find_char(piece, '=', 0) {
        Some(i) => Some((piece.take(i), piece.skip(i + 1))),
        None => None,
    }
}

/// The first piece from `k` on that has no `=`.
pub open spec fn first_unpaired(pieces: Seq<Seq<char>>, k: int) -> Option<int>
    decreases pieces.len() - k,
{
    if k < 0 || k >= pieces.len() {
        None
    } else if pair_of(pieces[k]) is None {
        Some(k)
    } else {
        first_unpaired(pieces, k + 1)
    }
}

/// Whether `pv` is how the probe classifies the value text `v`.
pub open spec fn classifies(pv: ParamValue, v: Seq<char>) -> bool {
    let t = trim(v);
    match pv {
        ParamValue::Int(n) => parse_i64_spec(t) == Some(n),
        ParamValue::Bool(b) => parse_i64_spec(t) is None && t == (if b {
            seq!['t', 'r', 'u', 'e']
        } else {
            seq!['f', 'a', 'l', 's', 'e']
        }),
        ParamValue::Text(s) => parse_i64_spec(t) is None && t != seq!['t', 'r', 'u', 'e'] && t
            != seq!['f', 'a', 'l', 's', 'e'] && s@ == t,
    }
}

/// The message for a JSON object that does not parse even once repaired.
pub open spec fn not_json_message(error: Seq<char>) -> Seq<char> {
    "not JSON ("@ + error + "); try key=value form instead, e.g. bank_num=0"@
}

/// The message for a piece without `=`.
pub open spec fn not_a_pair_message(piece: Seq<char>) -> Seq<char> {
    "`"@ + piece + "` is not key=value"@
}

/// How the value `v[lo..hi]` is classified.
fn classify(v: &Vec<char>, lo: usize, hi: usize) -> (pv: ParamValue)
    requires
        lo <= hi <= v@.len(),
    ensures
        classifies(pv, v@.subrange(lo as int, hi as int)),
{
    let (a, b) = trim_bounds(v, lo, hi);
    let ghost t = v@.subrange(a as int, b as int);
    if let Some(n) = parse_i64_in(v, a, b) {
        return ParamValue::Int(n);
    }
    let n = b - a;
    if n == 4 && v[a] == 't' && v[a + 1] == 'r' && v[a + 2] == 'u' && v[a + 3] == 'e' {
        assert(t =~= seq!['t', 'r', 'u', 'e']);
        return ParamValue::Bool(true);
    }
    if n == 5 && v[a] == 'f' && v[a + 1] == 'a' && v[a + 2] == 'l' && v[a + 3] == 's' && v[a + 4]
        == 'e' {
        assert(t =~= seq!['f', 'a', 'l', 's', 'e']);
        return ParamValue::Bool(false);
    }
    assert(t != seq!['t', 'r', 'u', 'e']) by {
        if t == seq!['t', 'r', 'u', 'e'] {
            assert(t.len() == 4 && t[0] == 't' && t[1] == 'r' && t[2] == 'u' && t[3] == 'e');
        }
    }
    assert(t != seq!['f', 'a', 'l', 's', 'e']) by {
        if t == seq!['f', 'a', 'l', 's', 'e'] {
            assert(t.len() == 5 && t[0] == 'f' && t[1] == 'a' && t[2] == 'l' && t[3] == 's' && t[4]
                == 'e');
        }
    }
    ParamValue::Text(string_of(v, a, b))
}

/// Read call parameters given as JSON or as comma-separated `key=value`
/// pairs.
///
/// The `key=value` form exists because PowerShell strips the quotes out of
/// `{"bank_num":0}` before the program ever sees it, leaving `{bank_num:0}`,
/// which is not JSON; such an object is retried with its bare keys quoted.
pub fn read_params(text: &str) -> (r: Result<Params, String>)
    ensures
        ({
            let t = trim(text@);
            let pieces = split_on(t, ',');
            &&& (r matches Ok(Params::Empty)) <==> t.len() == 0
            &&& t.len() > 0 && t[0] == '{' ==> match json_parsed(t) {
                Ok(v) => r matches Ok(Params::Json(w)) && w == v,
                Err(_) => match json_parsed(repair_from(t, 0, false)) {
                    Ok(v) => r matches Ok(Params::Json(w)) && w == v,
                    Err(e) => r matches Err(m) && m@ == not_json_message(e),
                },
            }
            &&& t.len() > 0 && t[0] != '{' ==> match first_unpaired(pieces, 0) {
                Some(k) => r matches Err(m) && m@ == not_a_pair_message(pieces[k]),
                None => r matches Ok(Params::Pairs(ps)) && ps@.len() == pieces.len() && forall|
                    k: int,
                | 0 <= k < pieces.len() ==> {
                    &&& (#[trigger] ps@[k]).0@ == trim(pair_of(pieces[k]).unwrap().0)
                    &&& classifies(ps@[k].1, pair_of(pieces[k]).unwrap().1)
                },
            }
        }),
{
    let v = chars_of(text);
    let n = v.len();
    let (a, b) = trim_bounds(&v, 0, n);
    assert(v@.subrange(0, n as int) =~= text@);
    let ghost t = v@.subrange(a as int, b as int);
    assert(t == trim(text@));
    if a == b {
        return Ok(Params::Empty);
    }
    assert(t[0] == v@[a as int]);
    if v[a] == '{' {
        let trimmed = string_of(&v, a, b);
        match json_from_str(trimmed.as_str()) {
            Ok(value) => return Ok(Params::Json(value)),
            Err(_) => {},
        }
        let repaired = repair_unquoted_keys(trimmed.as_str());
        return match json_from_str(repaired.as_str()) {
            Ok(value) => Ok(Params::Json(value)),
            Err(e) => {
                let mut m = String::from_str("not JSON (");
                m.append(e.as_str());
                m.append("); try key=value form instead, e.g. bank_num=0");
                Err(m)
            },
        };
    }
    let pieces = split_ranges(&v, a, b, ',');
    let ghost sp = split_on(t, ',');
    let mut pairs: Vec<(String, ParamValue)> = Vec::new();
    let mut k: usize = 0;
    while k < pieces.len()
        invariant
            k <= pieces@.len() == sp.len(),
            t == trim(text@),
            t == v@.subrange(a as int, b as int),
            t.len() > 0,
            t[0] != '{',
            sp == split_on(t, ','),
            a <= b <= v@.len(),
            forall|j: int|
                0 <= j < pieces@.len() ==> {
                    &&& a <= (#[trigger] pieces@[j]).0 <= pieces@[j].1 <= b
                    &&& v@.subrange(pieces@[j].0 as int, pieces@[j].1 as int) == sp[j]
                },
            first_unpaired(sp, 0) == first_unpaired(sp, k as int),
            pairs@.len() == k,
            forall|j: int| 0 <= j < pairs@.len() ==> pair_of(#[trigger] sp[j]) is Some,
            forall|j: int|
                0 <= j < pairs@.len() ==> (#[trigger] pairs@[j]).0@ == trim(
                    pair_of(sp[j]).unwrap().0,
                ),
            forall|j: int|
                0 <= j < pairs@.len() ==> classifies(
                    (#[trigger] pairs@[j]).1,
                    pair_of(sp[j]).unwrap().1,
                ),
        decreases pieces@.len() - k,
    {
        let (p, q) = pieces[k];
        let ghost piece = sp[k as int];
        let ghost old_pairs = pairs@;
        match find_char_in(&v, p, q, '=') {
            None => {
                assert(pair_of(piece) is None);
                assert(first_unpaired(sp, k as int) == Some(k as int));
                let mut m = String::from_str("`");
                push_range(&mut m, &v, p, q);
                m.append("` is not key=value");
                return Err(m);
            },
            Some(e) => {
                proof {
                    lemma_find_char_bounds(piece, '=', 0);
                }
                assert(piece.take(e - p) =~= v@.subrange(p as int, e as int));
                assert(piece.skip(e - p + 1) =~= v@.subrange(e + 1, q as int));
                let (c, d) = trim_bounds(&v, p, e);
                let key = string_of(&v, c, d);
                let value = classify(&v, e + 1, q);
                assert(pair_of(piece) == Some((piece.take(e - p), piece.skip(e - p + 1))));
                assert(first_unpaired(sp, k as int) == first_unpaired(sp, k + 1));
                pairs.push((key, value));
            },
        }
        assert forall|j: int| 0 <= j < pairs@.len() implies {
            &&& pair_of(sp[j]) is Some
            &&& (#[trigger] pairs@[j]).0@ == trim(pair_of(sp[j]).unwrap().0)
            &&& classifies(pairs@[j].1, pair_of(sp[j]).unwrap().1)
        } by {
            if j < k {
                assert(pairs@[j] == old_pairs[j]);
            }
        }
        k = k + 1;
    }
    Ok(Params::Pairs(pairs))
}

// ---------------------------------------------------------------------------
// The command line
// ---------------------------------------------------------------------------

/// What the probe was asked to do.
#[derive(Debug)]
pub struct Args {
    /// How long to scan, in seconds.
    pub scan_secs: u64,
    /// A write length to use in place of the assumed one.
    pub write_len: Option<usize>,
    /// Where to write the configuration, when it is to be read.
    pub config_out: Option<String>,
    /// Whether to try candidate encodings when the status goes unanswered.
    pub diagnose: bool,
    /// Whether to print every notification as it arrives.
    pub trace: bool,
    /// The banks to read, first and last.
    pub bank: Option<(i64, i64)>,
    /// Methods to call by wire name, each with its parameter text.
    pub call: Vec<(String, String)>,
    /// Whether to ask which undocumented query methods exist.
    pub sweep: bool,
}

/// The command line's outcome: print the usage, or run.
#[derive(Debug)]
pub enum Command {
    /// `-h` or `--help`.
    Help,
    /// A run with these arguments.
    Run(Args),
}

/// `Args` with its texts taken by their characters.
#[verifier::ext_equal]
pub struct ArgsModel {
    pub scan_secs: u64,
    pub write_len: Option<usize>,
    pub config_out: Option<Seq<char>>,
    pub diagnose: bool,
    pub trace: bool,
    pub bank: Option<(i64, i64)>,
    pub call: Seq<(Seq<char>, Seq<char>)>,
    pub sweep: bool,
}

impl View for Args {
    type V = ArgsModel;

    open spec fn view(&self) -> ArgsModel {
        ArgsModel {
            scan_secs: self.scan_secs,
            write_len: self.write_len,
            config_out: match self.config_out {
                Some(s) => Some(s@),
                None => None,
            },
            diagnose: self.diagnose,
            trace: self.trace,
            bank: self.bank,
            call: Seq::new(self.call@.len(), |k: int| (self.call@[k].0@, self.call@[k].1@)),
            sweep: self.sweep,
        }
    }
}

/// The outcome of reading a command line.
pub enum ArgsOutcome {
    Help,
    Run(ArgsModel),
    Failed(Seq<char>),
}

/// The arguments before any are read: a ten-second scan and nothing else.
pub open spec fn default_args() -> ArgsModel {
    ArgsModel {
        scan_secs: 10,
        write_len: None,
        config_out: None,
        diagnose: false,
        trace: false,
        bank: None,
        call: Seq::empty(),
        sweep: false,
    }
}

/// Whether `s` begins `--`.
pub open spec fn is_flag_like(s: Seq<char>) -> bool {
    s.len() >= 2 && s[0] == '-' && s[1] == '-'
}

/// The outcome of reading `argv` from index `i` on, with `acc` read so far.
/// Options take the following argument as their value; `--call` takes the
/// one after that as its parameters too, unless it begins `--`.
pub open spec fn args_from(argv: Seq<Seq<char>>, i: int, acc: ArgsModel) -> ArgsOutcome
    decreases argv.len() - i,
{
    if i < 0 || i >= argv.len() {
        ArgsOutcome::Run(acc)
    } else {
        let a = argv[i];
        let has_value = i + 1 < argv.len();
        let value = argv[i + 1];
        if a == "--scan-secs"@ {
            if !has_value {
                ArgsOutcome::Failed("--scan-secs needs a value"@)
            } else {
                match crate::text::parse_u64_spec(value) {
                    None => ArgsOutcome::Failed("--scan-secs isn't a number"@),
                    Some(n) => args_from(argv, i + 2, ArgsModel { scan_secs: n, ..acc }),
                }
            }
        } else if a == "--write-len"@ {
            if !has_value {
                ArgsOutcome::Failed("--write-len needs a value"@)
            } else {
                match crate::text::parse_usize_spec(value) {
                    None => ArgsOutcome::Failed("--write-len isn't a number"@),
                    Some(n) => args_from(argv, i + 2, ArgsModel { write_len: Some(n), ..acc }),
                }
            }
        } else if a == "--bank"@ {
            if !has_value {
                ArgsOutcome::Failed("--bank needs a number or range like 0-7"@)
            } else {
                match range_of(value) {
                    Err(m) => ArgsOutcome::Failed(m),
                    Ok(r) => args_from(argv, i + 2, ArgsModel { bank: Some(r), ..acc }),
                }
            }
        } else if a == "--call"@ {
            if !has_value {
                ArgsOutcome::Failed("--call needs a method name"@)
            } else if i + 2 < argv.len() && !is_flag_like(argv[i + 2]) {
                args_from(argv, i + 3, ArgsModel { call: acc.call.push((value, argv[i + 2])), ..acc })
            } else {
                args_from(argv, i + 2, ArgsModel { call: acc.call.push((value, "{}"@)), ..acc })
            }
        } else if a == "--sweep"@ {
            args_from(argv, i + 1, ArgsModel { sweep: true, ..acc })
        } else if a == "--diagnose"@ {
            args_from(argv, i + 1, ArgsModel { diagnose: true, ..acc })
        } else if a == "--trace"@ {
            args_from(argv, i + 1, ArgsModel { trace: true, ..acc })
        } else if a == "--config"@ {
            if !has_value {
                ArgsOutcome::Failed("--config needs a path"@)
            } else {
                args_from(argv, i + 2, ArgsModel { config_out: Some(value), ..acc })
            }
        } else if a == "-h"@ || a == "--help"@ {
            ArgsOutcome::Help
        } else {
            ArgsOutcome::Failed("unrecognised argument: "@ + a)
        }
    }
}

/// Reading a command line from `p.len() + m` on reads it as `y` from `m` on:
/// what stands before does not matter.
proof fn lemma_args_shift(p: Seq<Seq<char>>, y: Seq<Seq<char>>, m: int, acc: ArgsModel)
    requires
        0 <= m <= y.len(),
    ensures
        args_from(p + y, p.len() + m, acc) == args_from(y, m, acc),
    decreases y.len() - m,
{
    let argv = p + y;
    let i = p.len() + m;
    if m < y.len() {
        assert(argv[i] == y[m]);
        if m + 1 < y.len() {
            assert(argv[i + 1] == y[m + 1]);
        }
        if m + 2 < y.len() {
            assert(argv[i + 2] == y[m + 2]);
        }
        let a = y[m];
        let value = y[m + 1];
        let has_value = m + 1 < y.len();
        if a == "--scan-secs"@ {
            if has_value {
                if let Some(n) = crate::text::parse_u64_spec(value) {
                    lemma_args_shift(p, y, m + 2, ArgsModel { scan_secs: n, ..acc });
                }
            }
        } else if a == "--write-len"@ {
            if has_value {
                if let Some(n) = crate::text::parse_usize_spec(value) {
                    lemma_args_shift(p, y, m + 2, ArgsModel { write_len: Some(n), ..acc });
                }
            }
        } else if a == "--bank"@ {
            if has_value {
                if let Ok(r) = range_of(value) {
                    lemma_args_shift(p, y, m + 2, ArgsModel { bank: Some(r), ..acc });
                }
            }
        } else if a == "--call"@ {
            if !has_value {
            } else if m + 2 < y.len() && !is_flag_like(y[m + 2]) {
                lemma_args_shift(
                    p,
                    y,
                    m + 3,
                    ArgsModel { call: acc.call.push((value, y[m + 2])), ..acc },
                );
            } else {
                lemma_args_shift(p, y, m + 2, ArgsModel { call: acc.call.push((value, "{}"@)), ..acc });
            }
        } else if a == "--sweep"@ {
            lemma_args_shift(p, y, m + 1, ArgsModel { sweep: true, ..acc });
        } else if a == "--diagnose"@ {
            lemma_args_shift(p, y, m + 1, ArgsModel { diagnose: true, ..acc });
        } else if a == "--trace"@ {
            lemma_args_shift(p, y, m + 1, ArgsModel { trace: true, ..acc });
        } else if a == "--config"@ {
            if has_value {
                lemma_args_shift(p, y, m + 2, ArgsModel { config_out: Some(value), ..acc });
            }
        }
    } else {
        assert(i >= argv.len());
    }
}

/// A switch sets its own field and nothing else: a command line that opens
/// with `--trace`, `--diagnose` or `--sweep` reads as the rest of the line
/// does with only that switch turned on.
pub proof fn law_a_switch_sets_only_its_own_field(rest: Seq<Seq<char>>, acc: ArgsModel)
    ensures
        args_from(seq!["--trace"@] + rest, 0, acc) == args_from(
            rest,
            0,
            ArgsModel { trace: true, ..acc },
        ),
        args_from(seq!["--diagnose"@] + rest, 0, acc) == args_from(
            rest,
            0,
            ArgsModel { diagnose: true, ..acc },
        ),
        args_from(seq!["--sweep"@] + rest, 0, acc) == args_from(
            rest,
            0,
            ArgsModel { sweep: true, ..acc },
        ),
{
    reveal_strlit("--scan-secs");
    reveal_strlit("--write-len");
    reveal_strlit("--bank");
    reveal_strlit("--call");
    reveal_strlit("--sweep");
    reveal_strlit("--diagnose");
    reveal_strlit("--trace");
    reveal_strlit("--config");
    reveal_strlit("-h");
    reveal_strlit("--help");
    let t = seq!["--trace"@];
    let d = seq!["--diagnose"@];
    let w = seq!["--sweep"@];
    assert((t + rest)[0] == "--trace"@);
    assert((d + rest)[0] == "--diagnose"@);
    assert((w + rest)[0] == "--sweep"@);
    assert("--trace"@ != "--sweep"@) by {
        assert("--trace"@[2] != "--sweep"@[2]);
    }
    lemma_args_shift(t, rest, 0, ArgsModel { trace: true, ..acc });
    lemma_args_shift(d, rest, 0, ArgsModel { diagnose: true, ..acc });
    lemma_args_shift(w, rest, 0, ArgsModel { sweep: true, ..acc });
}

/// An option with a value sets its own field to what the value reads as and
/// nothing else, then reading goes on after the value; `--call` without
/// parameters calls with `{}`.
pub proof fn law_an_option_sets_only_its_own_field(
    v: Seq<char>,
    rest: Seq<Seq<char>>,
    acc: ArgsModel,
)
    ensures
        crate::text::parse_u64_spec(v) matches Some(n) ==> args_from(
            seq!["--scan-secs"@, v] + rest,
            0,
            acc,
        ) == args_from(rest, 0, ArgsModel { scan_secs: n, ..acc }),
        crate::text::parse_usize_spec(v) matches Some(n) ==> args_from(
            seq!["--write-len"@, v] + rest,
            0,
            acc,
        ) == args_from(rest, 0, ArgsModel { write_len: Some(n), ..acc }),
        range_of(v) matches Ok(r) ==> args_from(seq!["--bank"@, v] + rest, 0, acc) == args_from(
            rest,
            0,
            ArgsModel { bank: Some(r), ..acc },
        ),
        args_from(seq!["--config"@, v] + rest, 0, acc) == args_from(
            rest,
            0,
            ArgsModel { config_out: Some(v), ..acc },
        ),
        rest.len() == 0 || is_flag_like(rest[0]) ==> args_from(seq!["--call"@, v] + rest, 0, acc)
            == args_from(rest, 0, ArgsModel { call: acc.call.push((v, "{}"@)), ..acc }),
{
    reveal_strlit("--scan-secs");
    reveal_strlit("--write-len");
    reveal_strlit("--bank");
    reveal_strlit("--call");
    reveal_strlit("--config");
    reveal_strlit("--sweep");
    reveal_strlit("--diagnose");
    reveal_strlit("--trace");
    assert("--bank"@.len() != "--scan-secs"@.len() && "--bank"@.len() != "--write-len"@.len());
    assert("--call"@.len() != "--scan-secs"@.len() && "--call"@.len() != "--write-len"@.len());
    assert("--config"@.len() != "--scan-secs"@.len() && "--config"@.len() != "--write-len"@.len()
        && "--config"@.len() != "--bank"@.len() && "--config"@.len() != "--call"@.len()
        && "--config"@.len() != "--sweep"@.len() && "--config"@.len() != "--diagnose"@.len()
        && "--config"@.len() != "--trace"@.len());
    let s = seq!["--scan-secs"@, v];
    let w = seq!["--write-len"@, v];
    let b = seq!["--bank"@, v];
    let c = seq!["--config"@, v];
    let k = seq!["--call"@, v];
    assert((s + rest)[0] == "--scan-secs"@ && (s + rest)[1] == v);
    assert((w + rest)[0] == "--write-len"@ && (w + rest)[1] == v);
    assert((b + rest)[0] == "--bank"@ && (b + rest)[1] == v);
    assert((c + rest)[0] == "--config"@ && (c + rest)[1] == v);
    assert((k + rest)[0] == "--call"@ && (k + rest)[1] == v);
    assert("--scan-secs"@ != "--write-len"@) by {
        assert("--scan-secs"@[2] != "--write-len"@[2]);
    }
    assert("--bank"@ != "--call"@) by {
        assert("--bank"@[2] != "--call"@[2]);
    }
    if rest.len() > 0 {
        assert((k + rest)[2] == rest[0]);
    }
    if let Some(n) = crate::text::parse_u64_spec(v) {
        lemma_args_shift(s, rest, 0, ArgsModel { scan_secs: n, ..acc });
    }
    if let Some(n) = crate::text::parse_usize_spec(v) {
        lemma_args_shift(w, rest, 0, ArgsModel { write_len: Some(n), ..acc });
    }
    if let Ok(r) = range_of(v) {
        lemma_args_shift(b, rest, 0, ArgsModel { bank: Some(r), ..acc });
    }
    lemma_args_shift(c, rest, 0, ArgsModel { config_out: Some(v), ..acc });
    lemma_args_shift(k, rest, 0, ArgsModel { call: acc.call.push((v, "{}"@)), ..acc });
}

/// The characters of each argument.
pub open spec fn texts(argv: Seq<String>) -> Seq<Seq<char>> {
    Seq::new(argv.len(), |k: int| argv[k]@)
}

/// Read the probe's command line, without the program's own name.
pub fn parse_args(argv: Vec<String>) -> (r: Result<Command, String>)
    ensures
        match (r, args_from(texts(argv@), 0, default_args())) {
            (Ok(Command::Help), ArgsOutcome::Help) => true,
            (Ok(Command::Run(a)), ArgsOutcome::Run(m)) => a@ == m,
            (Err(e), ArgsOutcome::Failed(m)) => e@ == m,
            _ => false,
        },
{
    let ghost all = texts(argv@);
    let mut args = Args {
        scan_secs: 10,
        write_len: None,
        config_out: None,
        diagnose: false,
        trace: false,
        bank: None,
        call: Vec::new(),
        sweep: false,
    };
    assert(args@.call =~= Seq::<(Seq<char>, Seq<char>)>::empty());
    assert(args@ =~= default_args());
    let n = argv.len();
    let mut i: usize = 0;
    while i < n
        invariant
            n == argv@.len(),
            all == texts(argv@),
            i <= n,
            args_from(all, 0, default_args()) == args_from(all, i as int, args@),
        decreases n - i,
    {
        let ghost old_args = args@;
        let a = argv[i].as_str();
        assert(a@ == all[i as int]);
        let has_value = i + 1 < n;
        if has_value {
            assert(argv[i + 1]@ == all[i + 1]);
        }
        if same_text(a, "--scan-secs") {
            if !has_value {
                return Err(String::from_str("--scan-secs needs a value"));
            }
            let value = chars_of(argv[i + 1].as_str());
            assert(value@.subrange(0, value@.len() as int) =~= value@);
            match crate::text::parse_u64_in(&value, 0, value.len()) {
                None => return Err(String::from_str("--scan-secs isn't a number")),
                Some(secs) => {
                    args.scan_secs = secs;
                    assert(args@ =~= ArgsModel { scan_secs: secs, ..old_args });
                },
            }
            i = i + 2;
        } else if same_text(a, "--write-len") {
            if !has_value {
                return Err(String::from_str("--write-len needs a value"));
            }
            let value = chars_of(argv[i + 1].as_str());
            assert(value@.subrange(0, value@.len() as int) =~= value@);
            match crate::text::parse_usize_in(&value, 0, value.len()) {
                None => return Err(String::from_str("--write-len isn't a number")),
                Some(len) => {
                    args.write_len = Some(len);
                    assert(args@ =~= ArgsModel { write_len: Some(len), ..old_args });
                },
            }
            i = i + 2;
        } else if same_text(a, "--bank") {
            if !has_value {
                return Err(String::from_str("--bank needs a number or range like 0-7"));
            }
            match parse_range(argv[i + 1].as_str()) {
                Err(e) => return Err(e),
                Ok(r) => {
                    args.bank = Some(r);
                    assert(args@ =~= ArgsModel { bank: Some(r), ..old_args });
                },
            }
            i = i + 2;
        } else if same_text(a, "--call") {
            if !has_value {
                return Err(String::from_str("--call needs a method name"));
            }
            let method = argv[i + 1].clone();
            if i + 2 < n && !starts_with_dashes(argv[i + 2].as_str()) {
                assert(argv[i + 2]@ == all[i + 2]);
                let params = argv[i + 2].clone();
                args.call.push((method, params));
                assert(args@.call =~= old_args.call.push((all[i + 1], all[i + 2])));
                assert(args@ =~= ArgsModel { call: old_args.call.push((all[i + 1], all[i + 2])), ..old_args });
                i = i + 3;
            } else {
                let params = String::from_str("{}");
                args.call.push((method, params));
                assert(args@.call =~= old_args.call.push((all[i + 1], "{}"@)));
                assert(args@ =~= ArgsModel { call: old_args.call.push((all[i + 1], "{}"@)), ..old_args });
                i = i + 2;
            }
        } else if same_text(a, "--sweep") {
            args.sweep = true;
            assert(args@ =~= ArgsModel { sweep: true, ..old_args });
            i = i + 1;
        } else if same_text(a, "--diagnose") {
            args.diagnose = true;
            assert(args@ =~= ArgsModel { diagnose: true, ..old_args });
            i = i + 1;
        } else if same_text(a, "--trace") {
            args.trace = true;
            assert(args@ =~= ArgsModel { trace: true, ..old_args });
            i = i + 1;
        } else if same_text(a, "--config") {
            if !has_value {
                return Err(String::from_str("--config needs a path"));
            }
            args.config_out = Some(argv[i + 1].clone());
            assert(args@ =~= ArgsModel { config_out: Some(all[i + 1]), ..old_args });
            i = i + 2;
        } else if same_text(a, "-h") || same_text(a, "--help") {
            return Ok(Command::Help);
        } else {
            let mut m = String::from_str("unrecognised argument: ");
            m.append(a);
            return Err(m);
        }
    }
    Ok(Command::Run(args))
}

/// Whether `s` begins `--`.
fn starts_with_dashes(s: &str) -> (r: bool)
    ensures
        r == is_flag_like(s@),
{
    let v = chars_of(s);
    v.len() >= 2 && v[0] == '-' && v[1] == '-'
}

// ---------------------------------------------------------------------------
// Advice
// ---------------------------------------------------------------------------

/// What went wrong talking to the instrument, as far as advice depends on it.
#[derive(Debug, Clone, Copy, PartialEq, Eq)]
pub enum Failure {
    /// Scanning finished without seeing a guitar.
    NotFound,
    /// No Bluetooth adapter is available.
    NoAdapter,
    /// The peripheral lacks the expected characteristics.
    MissingCharacteristic,
    /// The device did not answer in time; `heard_nothing` when it sent
    /// nothing at all in the meantime.
    Timeout { heard_nothing: bool },
    /// The device rejected a chunk of a split message.
    ChunkRejected,
    /// The RPC layer failed, including errors reported by the device.
    Rpc,
    /// The Bluetooth stack itself failed.
    Bluetooth,
    /// Anything else.
    Other,
}

/// Advice when: nothing in range looked like a guitar.
pub const NOT_FOUND_ADVICE: &'static str = "Nothing in range looked like a guitar.\n\
             The scan is unfiltered and matches on the service UUID *or* the name, so\n\
             this is not a scan-filter false negative. Check, in order:\n\
             - Is it powered on, and is USB mode OFF? USB mode makes it a mass-storage\n\
               drive, not a Bluetooth peripheral.\n\
             - Is the phone app connected? It holds the one connection the guitar has.\n\
             - Is it paired as a Bluetooth *speaker* in the OS? That is Bluetooth Classic\n\
               audio, a different radio path from the app's BLE control link. Unpair it.\n\
             - Check the System Menu for the BT ID (e.g. H2-SE614). If the name does not\n\
               start with H2- and does not contain 'hyvibe', tell antinode what to match.";

/// Advice when: no Bluetooth adapter.
pub const NO_ADAPTER_ADVICE: &'static str = "No Bluetooth adapter. Is Bluetooth switched on?";

/// Advice when: the characteristic UUIDs are not what was recovered.
pub const MISSING_CHARACTERISTIC_ADVICE: &'static str = "Connected, but the characteristic UUIDs are not what was recovered.\n\
             This falsifies Finding F1 — the map is wrong or this is different firmware.\n\
             Dump the real GATT table and record it before going further.";

/// Advice when: the device said nothing at all.
pub const SILENT_TIMEOUT_ADVICE: &'static str = "The write succeeded and the device said nothing at all.\n\
             \n\
             If this request worked on an earlier run, suspect device state before the\n\
             code: a previous run that ended in an error may have left the instrument\n\
             mid-transfer, and it serves one client at a time. Power-cycle the guitar\n\
             (hold the knob two seconds, then tap it) and try again — a stuck transfer\n\
             shows up as some *other* request failing, which is a misleading symptom.\n\
             \n\
             If it has never worked, the request may need LLT2: this firmware selects a\n\
             compressed, binary-framed transport for anything large, and antinode only\n\
             speaks the older one. Small requests work either way, which is why\n\
             GetStatus is not evidence that a bigger read will.\n\
             \n\
             Otherwise, run:\n\
             \n\
                 cargo run -p antinode-probe -- --diagnose\n\
             \n\
             which tries each candidate encoding in turn and reports which, if any, it\n\
             answers — including whether it ever speaks unprompted at all.";

/// Advice when: the device replied, but not with the answer.
pub const UNRECOGNISED_REPLY_ADVICE: &'static str = "The device replied, but with nothing this client recognised as the answer.\n\
             That is much closer in than silence: the channel works and the device is\n\
             talking. The messages it sent are printed in the error above — compare them\n\
             against the expected envelope and correct the Findings accordingly.";

/// Advice when: a frame of a split message was rejected.
pub const CHUNK_REJECTED_ADVICE: &'static str = "The device rejected a frame of a split message, which means it IS speaking\n\
             LLT — good — but our framing is off. The status code names which invariant\n\
             it disliked (sequence, object id, or the frame itself).";

/// Advice when: the device refused one method.
pub const RPC_ADVICE: &'static str = "The device answered and the envelope parsed, so the transport is right.\n\
             This is a protocol-level disagreement about one method — much closer in\n\
             than a silent failure. Record the exact error.";

/// Advice when: the Bluetooth stack refused the operation.
pub const BLUETOOTH_ADVICE: &'static str = "The Bluetooth stack refused the operation. If this was 'Not connected' during
             connect, the peripheral handle from the scan had gone stale, or the guitar
             dropped between being seen and being connected to — antinode now retries
             that a few times, so a failure here means it failed repeatedly.
             
             Check the guitar is awake, then try again. If Windows has gotten confused,
             toggling Bluetooth off and on clears its device cache.";

/// Advice when: any other failure.
pub const GENERAL_ADVICE: &'static str = "Record what happened in the plan's Findings before changing anything.";

/// The advice for each kind of failure.
pub open spec fn advice_for(failure: Failure) -> &'static str {
    match failure {
        Failure::NotFound => NOT_FOUND_ADVICE,
        Failure::NoAdapter => NO_ADAPTER_ADVICE,
        Failure::MissingCharacteristic => MISSING_CHARACTERISTIC_ADVICE,
        Failure::Timeout { heard_nothing } => if heard_nothing {
            SILENT_TIMEOUT_ADVICE
        } else {
            UNRECOGNISED_REPLY_ADVICE
        },
        Failure::ChunkRejected => CHUNK_REJECTED_ADVICE,
        Failure::Rpc => RPC_ADVICE,
        Failure::Bluetooth => BLUETOOTH_ADVICE,
        Failure::Other => GENERAL_ADVICE,
    }
}

/// Turn a failure into the next thing worth trying: which assumption it
/// falsified, and what to check.
pub fn advice(failure: &Failure) -> (s: &'static str)
    ensures
        s == advice_for(*failure),
{
    match failure {
        Failure::NotFound => NOT_FOUND_ADVICE,
        Failure::NoAdapter => NO_ADAPTER_ADVICE,
        Failure::MissingCharacteristic => MISSING_CHARACTERISTIC_ADVICE,
        Failure::Timeout { heard_nothing } => if *heard_nothing {
            SILENT_TIMEOUT_ADVICE
        } else {
            UNRECOGNISED_REPLY_ADVICE
        },
        Failure::ChunkRejected => CHUNK_REJECTED_ADVICE,
        Failure::Rpc => RPC_ADVICE,
        Failure::Bluetooth => BLUETOOTH_ADVICE,
        Failure::Other => GENERAL_ADVICE,
    }
}

} // verus!
