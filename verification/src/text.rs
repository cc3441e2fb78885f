//! Byte-level text handling: whitespace, lines, words and decimal integers.
//!
//! Text is handled as UTF-8 bytes. Separators are the ASCII whitespace bytes
//! (space, tab, line feed, vertical tab, form feed, carriage return), the
//! ASCII part of what `char::is_whitespace` accepts.

use vstd::prelude::*;
use vstd::utf8::valid_utf8;
use vstd::string::StringSliceAdditionalSpecFns;

verus! {

/// ASCII whitespace: space, `\t`, `\n`, `\x0B`, `\x0C`, `\r`.
pub open spec fn is_space(b: u8) -> bool {
    b == 32 || (9 <= b && b <= 13)
}

pub open spec fn is_digit(b: u8) -> bool {
    48 <= b && b <= 57
}

/// `s` without its leading whitespace.
pub open spec fn trim_start(s: Seq<u8>) -> Seq<u8>
    decreases s.len(),
{
    if s.len() > 0 && is_space(s[0]) {
        trim_start(s.drop_first())
    } else {
        s
    }
}

/// `s` without its trailing whitespace.
pub open spec fn trim_end(s: Seq<u8>) -> Seq<u8>
    decreases s.len(),
{
    if s.len() > 0 && is_space(s.last()) {
        trim_end(s.drop_last())
    } else {
        s
    }
}

/// `s` without leading and trailing whitespace.
pub open spec fn trim(s: Seq<u8>) -> Seq<u8> {
    trim_end(trim_start(s))
}

/// Whether `l` starts with `p`.
pub open spec fn begins_with(l: Seq<u8>, p: Seq<u8>) -> bool {
    p.len() <= l.len() && l.take(p.len() as int) == p
}

/// Number of leading non-whitespace bytes.
pub open spec fn token_len(s: Seq<u8>) -> nat
    decreases s.len(),
{
    if s.len() == 0 || is_space(s[0]) {
        0
    } else {
        1 + token_len(s.drop_first())
    }
}

/// A word lies within the text, and is not empty when the text starts
/// with a non-space.
pub proof fn lemma_token_len_bound(s: Seq<u8>)
    ensures
        token_len(s) <= s.len(),
        s.len() > 0 && !is_space(s[0]) ==> token_len(s) >= 1,
    decreases s.len(),
{
    if s.len() > 0 && !is_space(s[0]) {
        lemma_token_len_bound(s.drop_first());
    }
}

/// The maximal runs of non-whitespace bytes of `s`, in order.
pub open spec fn words(s: Seq<u8>) -> Seq<Seq<u8>>
    decreases s.len(),
{
    if s.len() == 0 {
        seq![]
    } else if is_space(s[0]) {
        words(s.drop_first())
    } else {
        let n = token_len(s);
        proof {
            lemma_token_len_bound(s);
        }
        seq![s.take(n as int)] + words(s.skip(n as int))
    }
}

/// Number of bytes before the first line feed (or the whole length).
pub open spec fn line_len(s: Seq<u8>) -> nat
    decreases s.len(),
{
    if s.len() == 0 || s[0] == 10 {
        0
    } else {
        1 + line_len(s.drop_first())
    }
}

/// A line lies within the text and ends at its first line feed.
pub proof fn lemma_line_len_bound(s: Seq<u8>)
    ensures
        line_len(s) <= s.len(),
        line_len(s) < s.len() ==> s[line_len(s) as int] == 10,
        forall|k: int| 0 <= k < line_len(s) ==> s[k] != 10,
    decreases s.len(),
{
    if s.len() > 0 && s[0] != 10 {
        lemma_line_len_bound(s.drop_first());
        assert forall|k: int| 0 <= k < line_len(s) implies s[k] != 10 by {
            if k > 0 {
                assert(s[k] == s.drop_first()[k - 1]);
            }
        }
    }
}

/// A line ended by `\r\n` loses its `\r`.
pub open spec fn strip_cr(l: Seq<u8>) -> Seq<u8> {
    if l.len() > 0 && l.last() == 13 {
        l.drop_last()
    } else {
        l
    }
}

/// The lines of `s` as `str::lines` yields them: split at `\n`, a `\r`
/// before the `\n` dropped, no empty line after a final `\n`.
pub open spec fn lines(s: Seq<u8>) -> Seq<Seq<u8>>
    decreases s.len(),
{
    if s.len() == 0 {
        seq![]
    } else {
        let n = line_len(s);
        proof {
            lemma_line_len_bound(s);
        }
        if n == s.len() {
            seq![s]
        } else {
            seq![strip_cr(s.take(n as int))] + lines(s.skip(n as int + 1))
        }
    }
}

/// ASCII lower-casing of one byte.
pub open spec fn lower(b: u8) -> u8 {
    if 65 <= b && b <= 90 {
        (b + 32) as u8
    } else {
        b
    }
}

/// Equality ignoring ASCII case, as `str::eq_ignore_ascii_case`.
pub open spec fn eq_ignore_case(a: Seq<u8>, b: Seq<u8>) -> bool {
    a.len() == b.len() && forall|i: int| 0 <= i < a.len() ==> lower(a[i]) == lower(b[i])
}

pub open spec fn all_digits(s: Seq<u8>) -> bool {
    forall|i: int| 0 <= i < s.len() ==> is_digit(s[i])
}

/// Decimal value of a run of digits.
pub open spec fn digits_value(s: Seq<u8>) -> nat
    decreases s.len(),
{
    if s.len() == 0 {
        0
    } else {
        digits_value(s.drop_last()) * 10 + (s.last() - 48) as nat
    }
}

/// What `str::parse` gives for an unsigned integer, before the range check:
/// an optional `+`, then one or more decimal digits.
pub open spec fn unsigned_value(s: Seq<u8>) -> Option<nat> {
    let d = if s.len() > 0 && s[0] == 43 {
        s.drop_first()
    } else {
        s
    };
    if d.len() > 0 && all_digits(d) {
        Some(digits_value(d))
    } else {
        None
    }
}

/// What `str::parse::<u32>` returns.
pub open spec fn parse_u32_spec(s: Seq<u8>) -> Option<u32> {
    match unsigned_value(s) {
        Some(v) if v <= u32::MAX => Some(v as u32),
        _ => None,
    }
}

/// What `str::parse::<u64>` returns.
pub open spec fn parse_u64_spec(s: Seq<u8>) -> Option<u64> {
    match unsigned_value(s) {
        Some(v) if v <= u64::MAX => Some(v as u64),
        _ => None,
    }
}

/// What `str::parse::<usize>` returns.
pub open spec fn parse_usize_spec(s: Seq<u8>) -> Option<usize> {
    match unsigned_value(s) {
        Some(v) if v <= usize::MAX => Some(v as usize),
        _ => None,
    }
}

/// What `str::parse::<i64>` returns: an optional sign, then one or more
/// decimal digits, the value within `i64`'s range.
pub open spec fn parse_i64_spec(s: Seq<u8>) -> Option<i64> {
    let neg = s.len() > 0 && s[0] == 45;
    let d = if s.len() > 0 && (s[0] == 43 || s[0] == 45) {
        s.drop_first()
    } else {
        s
    };
    if d.len() > 0 && all_digits(d) {
        let v: int = if neg {
            -(digits_value(d) as int)
        } else {
            digits_value(d) as int
        };
        if i64::MIN <= v && v <= i64::MAX {
            Some(v as i64)
        } else {
            None
        }
    } else {
        None
    }
}

/// The byte contents of a list of byte vectors.
pub open spec fn vv(v: Vec<Vec<u8>>) -> Seq<Seq<u8>> {
    v@.map_values(|x: Vec<u8>| x@)
}

/// Whether `pat` occurs in `s` at `i`.
pub open spec fn occurs_at(s: Seq<u8>, pat: Seq<u8>, i: int) -> bool {
    0 <= i && i + pat.len() <= s.len() && s.subrange(i, i + pat.len() as int) == pat
}

/// First index at or after `i` at which `pat` occurs in `s`.
pub open spec fn find_from(s: Seq<u8>, pat: Seq<u8>, i: int) -> Option<int>
    decreases s.len() + 1 - i,
{
    if i < 0 || i + pat.len() > s.len() {
        None
    } else if occurs_at(s, pat, i) {
        Some(i)
    } else {
        find_from(s, pat, i + 1)
    }
}

/// A found occurrence is an occurrence, at or after the start index.
pub proof fn lemma_find_from_some(s: Seq<u8>, pat: Seq<u8>, i: int)
    ensures
        find_from(s, pat, i) matches Some(j) ==> occurs_at(s, pat, j) && i <= j,
    decreases s.len() + 1 - i,
{
    if i < 0 || i + pat.len() > s.len() {
    } else if occurs_at(s, pat, i) {
    } else {
        lemma_find_from_some(s, pat, i + 1);
    }
}

proof fn lemma_trim_start_nonspace(s: Seq<u8>)
    ensures
        trim_start(s).len() > 0 ==> !is_space(trim_start(s)[0]),
    decreases s.len(),
{
    if s.len() > 0 && is_space(s[0]) {
        lemma_trim_start_nonspace(s.drop_first());
    }
}

proof fn lemma_trim_end_prefix(s: Seq<u8>)
    ensures
        trim_end(s).len() <= s.len(),
        trim_end(s) == s.take(trim_end(s).len() as int),
    decreases s.len(),
{
    if s.len() > 0 && is_space(s.last()) {
        lemma_trim_end_prefix(s.drop_last());
        assert(s.drop_last().take(trim_end(s).len() as int) =~= s.take(trim_end(s).len() as int));
    } else {
        assert(s.take(s.len() as int) =~= s);
    }
}

/// A trimmed sequence, when not empty, starts with a non-space byte, and its
/// first word is a prefix of it.
pub proof fn lemma_trim_first_word(s: Seq<u8>)
    ensures
        trim(s).len() > 0 ==> !is_space(trim(s)[0]),
        trim(s).len() > 0 ==> words(trim(s)).len() > 0 && words(trim(s))[0] == trim(s).take(
            token_len(trim(s)) as int,
        ) && token_len(trim(s)) <= trim(s).len(),
{
    lemma_trim_start_nonspace(s);
    lemma_trim_end_prefix(trim_start(s));
    let t = trim(s);
    if t.len() > 0 {
        assert(t[0] == trim_start(s)[0]);
        lemma_token_len_bound(t);
    }
}

pub fn is_space_byte(b: u8) -> (r: bool)
    ensures
        r == is_space(b),
{
    b == 32 || (9 <= b && b <= 13)
}

/// Byte-wise equality.
pub fn eq_bytes(a: &[u8], b: &[u8]) -> (r: bool)
    ensures
        r == (a@ == b@),
{
    if a.len() != b.len() {
        return false;
    }
    let mut i: usize = 0;
    while i < a.len()
        invariant
            a@.len() == b@.len(),
            i <= a@.len(),
            forall|k: int| 0 <= k < i ==> a@[k] == b@[k],
        decreases a@.len() - i,
    {
        if a[i] != b[i] {
            return false;
        }
        i = i + 1;
    }
    assert(a@ =~= b@);
    true
}

/// Equality ignoring ASCII case.
pub fn eq_bytes_ignore_case(a: &[u8], b: &[u8]) -> (r: bool)
    ensures
        r == eq_ignore_case(a@, b@),
{
    if a.len() != b.len() {
        return false;
    }
    let mut i: usize = 0;
    while i < a.len()
        invariant
            a@.len() == b@.len(),
            i <= a@.len(),
            forall|k: int| 0 <= k < i ==> lower(a@[k]) == lower(b@[k]),
        decreases a@.len() - i,
    {
        let x = if 65 <= a[i] && a[i] <= 90 { a[i] + 32 } else { a[i] };
        let y = if 65 <= b[i] && b[i] <= 90 { b[i] + 32 } else { b[i] };
        if x != y {
            return false;
        }
        i = i + 1;
    }
    true
}

/// Whether `s` starts with `p`.
pub fn starts_with(s: &[u8], p: &[u8]) -> (r: bool)
    ensures
        r == (p@.len() <= s@.len() && s@.take(p@.len() as int) == p@),
{
    if p.len() > s.len() {
        return false;
    }
    let mut i: usize = 0;
    while i < p.len()
        invariant
            p@.len() <= s@.len(),
            i <= p@.len(),
            forall|k: int| 0 <= k < i ==> s@[k] == p@[k],
        decreases p@.len() - i,
    {
        if s[i] != p[i] {
            assert(s@.take(p@.len() as int)[i as int] != p@[i as int]);
            return false;
        }
        i = i + 1;
    }
    assert(s@.take(p@.len() as int) =~= p@);
    true
}

/// Copy of `s[from..to]`.
pub fn copy_range(s: &[u8], from: usize, to: usize) -> (r: Vec<u8>)
    requires
        from <= to <= s@.len(),
    ensures
        r@ == s@.subrange(from as int, to as int),
{
    let mut out: Vec<u8> = Vec::new();
    let mut i = from;
    while i < to
        invariant
            from <= i <= to <= s@.len(),
            out@ == s@.subrange(from as int, i as int),
        decreases to - i,
    {
        out.push(s[i]);
        assert(s@.subrange(from as int, i + 1) =~= s@.subrange(from as int, i as int).push(s@[i as int]));
        i = i + 1;
    }
    out
}

proof fn lemma_trim_start_skip(s: Seq<u8>, i: int)
    requires
        0 <= i < s.len(),
        is_space(s[i]),
    ensures
        trim_start(s.skip(i)) == trim_start(s.skip(i + 1)),
{
    assert(s.skip(i).drop_first() =~= s.skip(i + 1));
}

proof fn lemma_trim_end_take(s: Seq<u8>, j: int)
    requires
        0 < j <= s.len(),
        is_space(s[j - 1]),
    ensures
        trim_end(s.take(j)) == trim_end(s.take(j - 1)),
{
    assert(s.take(j).drop_last() =~= s.take(j - 1));
}

/// `s` with leading and trailing whitespace removed.
pub fn trim_bytes(s: &[u8]) -> (r: Vec<u8>)
    ensures
        r@ == trim(s@),
{
    let n = s.len();
    let mut i: usize = 0;
    assert(s@.skip(0) =~= s@);
    while i < n && is_space_byte(s[i])
        invariant
            n == s@.len(),
            i <= n,
            trim_start(s@) == trim_start(s@.skip(i as int)),
        decreases n - i,
    {
        proof {
            lemma_trim_start_skip(s@, i as int);
        }
        i = i + 1;
    }
    assert(trim_start(s@) == s@.skip(i as int));
    let ghost t = s@.skip(i as int);
    let mut j: usize = n;
    assert(t.take(n - i) =~= t);
    while j > i && is_space_byte(s[j - 1])
        invariant
            n == s@.len(),
            i <= j <= n,
            t == s@.skip(i as int),
            trim_end(t) == trim_end(t.take(j - i)),
        decreases j,
    {
        proof {
            lemma_trim_end_take(t, j - i);
            assert(t[j - i - 1] == s@[j - 1]);
        }
        j = j - 1;
    }
    proof {
        if j > i {
            assert(t.take(j - i).last() == s@[j - 1]);
        }
        assert(t.take(n - i) =~= t);
        assert(t.take(j - i) =~= s@.subrange(i as int, j as int));
    }
    copy_range(s, i, j)
}

proof fn lemma_token_step(s: Seq<u8>, i: int)
    requires
        0 <= i < s.len(),
        !is_space(s[i]),
    ensures
        token_len(s.skip(i)) == 1 + token_len(s.skip(i + 1)),
{
    assert(s.skip(i).drop_first() =~= s.skip(i + 1));
}

/// The whitespace-separated words of `s`.
pub fn split_words(s: &[u8]) -> (r: Vec<Vec<u8>>)
    ensures
        vv(r) == words(s@),
{
    let n = s.len();
    let mut out: Vec<Vec<u8>> = Vec::new();
    let mut i: usize = 0;
    assert(s@.skip(0) =~= s@);
    assert(vv(out) + words(s@) =~= words(s@));
    assert(vv(out) + lines(s@) =~= lines(s@));
    while i < n
        invariant
            n == s@.len(),
            i <= n,
            words(s@) == vv(out) + words(s@.skip(i as int)),
        decreases n - i,
    {
        if is_space_byte(s[i]) {
            assert(s@.skip(i as int).drop_first() =~= s@.skip(i + 1));
            i = i + 1;
        } else {
            let mut j: usize = i;
            while j < n && !is_space_byte(s[j])
                invariant
                    n == s@.len(),
                    i <= j <= n,
                    token_len(s@.skip(i as int)) == (j - i) + token_len(s@.skip(j as int)),
                decreases n - j,
            {
                proof {
                    lemma_token_step(s@, j as int);
                }
                j = j + 1;
            }
            let ghost rest = s@.skip(i as int);
            proof {
                if j < n {
                    assert(s@.skip(j as int)[0] == s@[j as int]);
                }
                assert(token_len(s@.skip(j as int)) == 0);
                assert(rest[0] == s@[i as int]);
                assert(rest.take(j - i) =~= s@.subrange(i as int, j as int));
                assert(rest.skip(j - i) =~= s@.skip(j as int));
            }
            let w = copy_range(s, i, j);
            let ghost before = vv(out);
            out.push(w);
            assert(vv(out) =~= before.push(w@));
            assert(words(s@) == vv(out) + words(s@.skip(j as int)));
            i = j;
        }
    }
    assert(s@.skip(n as int) =~= Seq::<u8>::empty());
    assert(vv(out) + Seq::<Seq<u8>>::empty() =~= vv(out));
    out
}

proof fn lemma_line_step(s: Seq<u8>, i: int)
    requires
        0 <= i < s.len(),
        s[i] != 10,
    ensures
        line_len(s.skip(i)) == 1 + line_len(s.skip(i + 1)),
{
    assert(s.skip(i).drop_first() =~= s.skip(i + 1));
}

/// The lines of `s`, as `str::lines` splits them.
pub fn split_lines(s: &[u8]) -> (r: Vec<Vec<u8>>)
    ensures
        vv(r) == lines(s@),
{
    let n = s.len();
    let mut out: Vec<Vec<u8>> = Vec::new();
    let mut i: usize = 0;
    assert(s@.skip(0) =~= s@);
    assert(vv(out) + words(s@) =~= words(s@));
    assert(vv(out) + lines(s@) =~= lines(s@));
    while i < n
        invariant
            n == s@.len(),
            i <= n,
            lines(s@) == vv(out) + lines(s@.skip(i as int)),
        decreases n - i,
    {
        let mut j: usize = i;
        while j < n && s[j] != 10
            invariant
                n == s@.len(),
                i <= j <= n,
                line_len(s@.skip(i as int)) == (j - i) + line_len(s@.skip(j as int)),
            decreases n - j,
        {
            proof {
                lemma_line_step(s@, j as int);
            }
            j = j + 1;
        }
        let ghost rest = s@.skip(i as int);
        proof {
            if j < n {
                assert(s@.skip(j as int)[0] == s@[j as int]);
            }
            assert(line_len(s@.skip(j as int)) == 0);
            assert(rest.take(j - i) =~= s@.subrange(i as int, j as int));
        }
        let ghost before = vv(out);
        if j == n {
            let w = copy_range(s, i, j);
            out.push(w);
            proof {
                assert(rest =~= s@.subrange(i as int, j as int));
                assert(vv(out) =~= before.push(w@));
                assert(s@.skip(n as int) =~= Seq::<u8>::empty());
                assert(lines(s@) == vv(out) + lines(s@.skip(j as int)));
            }
            i = j;
        } else {
            let end = if j > i && s[j - 1] == 13 { j - 1 } else { j };
            let w = copy_range(s, i, end);
            out.push(w);
            proof {
                assert(rest.skip(j - i + 1) =~= s@.skip(j + 1));
                if j > i {
                    assert(rest.take(j - i).last() == s@[j - 1]);
                    assert(s@.subrange(i as int, j - 1) =~= s@.subrange(i as int, j as int).drop_last());
                }
                assert(vv(out) =~= before.push(w@));
                assert(lines(s@) == vv(out) + lines(s@.skip(j + 1)));
            }
            i = j + 1;
        }
    }
    assert(s@.skip(n as int) =~= Seq::<u8>::empty());
    assert(vv(out) + Seq::<Seq<u8>>::empty() =~= vv(out));
    out
}

proof fn lemma_digits_value_push(s: Seq<u8>, b: u8)
    requires
        is_digit(b),
    ensures
        digits_value(s.push(b)) == digits_value(s) * 10 + (b - 48),
{
    assert(s.push(b).drop_last() =~= s);
}

proof fn lemma_digits_value_monotone(s: Seq<u8>, k: int)
    requires
        0 <= k <= s.len(),
        all_digits(s),
    ensures
        digits_value(s.take(k)) <= digits_value(s),
    decreases s.len() - k,
{
    if k < s.len() {
        lemma_digits_value_monotone(s, k + 1);
        assert(s.take(k + 1) =~= s.take(k).push(s[k]));
        lemma_digits_value_push(s.take(k), s[k]);
    } else {
        assert(s.take(k) =~= s);
    }
}

/// Value of the digits `s[from..]`, or `None` when a byte is not a digit or
/// the value exceeds `max`.
fn digits_upto(s: &[u8], from: usize, max: u64) -> (r: Option<u64>)
    requires
        from <= s@.len(),
        max >= 9,
    ensures
        ({
            let d = s@.skip(from as int);
            match r {
                Some(v) => all_digits(d) && v == digits_value(d) && v <= max,
                None => !all_digits(d) || digits_value(d) > max,
            }
        }),
{
    let ghost d = s@.skip(from as int);
    let mut acc: u64 = 0;
    let mut i = from;
    while i < s.len()
        invariant
            from <= i <= s@.len(),
            d == s@.skip(from as int),
            all_digits(d.take(i - from)),
            acc == digits_value(d.take(i - from)),
            acc <= max,
            max >= 9,
        decreases s@.len() - i,
    {
        let b = s[i];
        if b < 48 || b > 57 {
            assert(d[i - from] == b);
            return None;
        }
        let dig = (b - 48) as u64;
        proof {
            assert(d.take(i - from + 1) =~= d.take(i - from).push(b));
            lemma_digits_value_push(d.take(i - from), b);
        }
        if acc > (max - dig) / 10 {
            proof {
                assert(acc * 10 + dig > max) by (nonlinear_arith)
                    requires acc > (max - dig) / 10, dig <= max || dig > max, max >= 0, dig >= 0;
                if all_digits(d) {
                    lemma_digits_value_monotone(d, i - from + 1);
                }
            }
            return None;
        }
        proof {
            assert(acc * 10 + dig <= max) by (nonlinear_arith)
                requires acc <= (max - dig) / 10, dig <= max;
        }
        acc = acc * 10 + dig;
        i = i + 1;
    }
    assert(d.take(i - from) =~= d);
    Some(acc)
}

/// `str::parse::<u64>`-style reading bounded by `max`.
fn parse_unsigned_upto(s: &[u8], max: u64) -> (r: Option<u64>)
    requires
        max >= 9,
    ensures
        match r {
            Some(v) => unsigned_value(s@) == Some(v as nat) && v <= max,
            None => match unsigned_value(s@) {
                Some(v) => v > max,
                None => true,
            },
        },
{
    let from: usize = if s.len() > 0 && s[0] == 43 { 1 } else { 0 };
    proof {
        if from == 1 {
            assert(s@.skip(1) =~= s@.drop_first());
        } else {
            assert(s@.skip(0) =~= s@);
        }
    }
    if from == s.len() {
        return None;
    }
    digits_upto(s, from, max)
}

/// `str::parse::<u32>`.
pub fn parse_u32(s: &[u8]) -> (r: Option<u32>)
    ensures
        r == parse_u32_spec(s@),
{
    match parse_unsigned_upto(s, 4294967295) {
        Some(v) => Some(v as u32),
        None => None,
    }
}

/// `str::parse::<u64>`.
pub fn parse_u64(s: &[u8]) -> (r: Option<u64>)
    ensures
        r == parse_u64_spec(s@),
{
    parse_unsigned_upto(s, 0xFFFF_FFFF_FFFF_FFFF)
}

/// `str::parse::<usize>`.
pub fn parse_usize(s: &[u8]) -> (r: Option<usize>)
    ensures
        r == parse_usize_spec(s@),
{
    match parse_unsigned_upto(s, usize::MAX as u64) {
        Some(v) => Some(v as usize),
        None => None,
    }
}

/// `str::parse::<i64>`.
pub fn parse_i64(s: &[u8]) -> (r: Option<i64>)
    ensures
        r == parse_i64_spec(s@),
{
    let neg = s.len() > 0 && s[0] == 45;
    let from: usize = if s.len() > 0 && (s[0] == 43 || s[0] == 45) { 1 } else { 0 };
    proof {
        if from == 1 {
            assert(s@.skip(1) =~= s@.drop_first());
        } else {
            assert(s@.skip(0) =~= s@);
        }
    }
    if from == s.len() {
        return None;
    }
    let max: u64 = if neg { 9223372036854775808 } else { 9223372036854775807 };
    match digits_upto(s, from, max) {
        Some(v) => {
            if neg {
                if v == 9223372036854775808 {
                    Some(-9223372036854775807 - 1)
                } else {
                    Some(-(v as i64))
                }
            } else {
                Some(v as i64)
            }
        },
        None => None,
    }
}

/// Whether `pat` occurs in `s` at `i`.
pub fn occurs_at_exec(s: &[u8], pat: &[u8], i: usize) -> (r: bool)
    ensures
        r == occurs_at(s@, pat@, i as int),
{
    if i > s.len() || pat.len() > s.len() - i {
        return false;
    }
    let n = s.len();
    let mut k: usize = 0;
    while k < pat.len()
        invariant
            n == s@.len(),
            i + pat@.len() <= s@.len(),
            k <= pat@.len(),
            forall|m: int| 0 <= m < k ==> s@[i + m] == pat@[m],
        decreases pat@.len() - k,
    {
        if s[i + k] != pat[k] {
            assert(s@.subrange(i as int, i + pat@.len())[k as int] == s@[i + k]);
            return false;
        }
        k = k + 1;
    }
    assert(s@.subrange(i as int, i + pat@.len()) =~= pat@);
    true
}

/// First index at which `pat` occurs in `s`.
pub fn find_bytes(s: &[u8], pat: &[u8]) -> (r: Option<usize>)
    ensures
        r matches Some(i) ==> find_from(s@, pat@, 0) == Some(i as int),
        r is None ==> find_from(s@, pat@, 0) is None,
{
    if pat.len() > s.len() {
        return None;
    }
    let last = s.len() - pat.len();
    let mut i: usize = 0;
    while i < last
        invariant
            i <= last,
            last == s@.len() - pat@.len(),
            pat@.len() <= s@.len(),
            find_from(s@, pat@, 0) == find_from(s@, pat@, i as int),
        decreases last - i,
    {
        if occurs_at_exec(s, pat, i) {
            return Some(i);
        }
        i = i + 1;
    }
    if occurs_at_exec(s, pat, last) {
        return Some(last);
    }
    assert(find_from(s@, pat@, last + 1) is None);
    None
}

/// Whether `bytes` is well-formed UTF-8: `std::str::from_utf8(bytes).is_ok()`.
///
/// Trusted: the standard library documents that `from_utf8` returns an
/// error exactly when the slice is not UTF-8; `valid_utf8` is vstd's
/// definition of well-formed UTF-8 (no overlong forms, no surrogates, at
/// most U+10FFFF).
#[verifier::external_body]
pub(crate) fn is_valid_utf8(bytes: &[u8]) -> (r: bool)
    ensures
        r == valid_utf8(bytes@),
{
    std::str::from_utf8(bytes).is_ok()
}

// ── Floating-point literals ──────────────────────────────────────────────────

/// Number of leading decimal digits.
pub open spec fn digit_run(s: Seq<u8>) -> nat
    decreases s.len(),
{
    if s.len() > 0 && is_digit(s[0]) {
        1 + digit_run(s.drop_first())
    } else {
        0
    }
}

/// An exponent part: `e` or `E`, an optional sign, one or more digits.
pub open spec fn is_exponent(s: Seq<u8>) -> bool {
    s.len() >= 2 && lower(s[0]) == 101 && {
        let t = if s[1] == 43 || s[1] == 45 {
            s.skip(2)
        } else {
            s.skip(1)
        };
        t.len() > 0 && all_digits(t)
    }
}

/// A decimal number: digits with an optional point, at least one digit in
/// all, then an optional exponent part.
pub open spec fn is_decimal(s: Seq<u8>) -> bool {
    let a = digit_run(s);
    let has_point = a < s.len() && s[a as int] == 46;
    let b: nat = if has_point { digit_run(s.skip(a + 1int)) } else { 0 };
    let after: int = if has_point { a + 1int + b } else { a as int };
    a + b >= 1 && (after == s.len() || is_exponent(s.skip(after)))
}

/// What `str::parse::<f64>` (and `::<f32>`) accepts: an optional sign, then
/// `inf`, `infinity` or `nan` in any case, or a decimal number; no
/// surrounding whitespace.
pub open spec fn is_float_literal(s: Seq<u8>) -> bool {
    let t = if s.len() > 0 && (s[0] == 43 || s[0] == 45) {
        s.drop_first()
    } else {
        s
    };
    eq_ignore_case(t, "inf".spec_bytes()) || eq_ignore_case(t, "infinity".spec_bytes()) || eq_ignore_case(
        t,
        "nan".spec_bytes(),
    ) || is_decimal(t)
}

/// `i` plus the number of digits starting at `i`.
fn skip_digits(s: &[u8], i: usize) -> (r: usize)
    requires
        i <= s@.len(),
    ensures
        r == i + digit_run(s@.skip(i as int)),
        r <= s@.len(),
{
    let mut j = i;
    while j < s.len() && s[j] >= 48 && s[j] <= 57
        invariant
            i <= j <= s@.len(),
            digit_run(s@.skip(i as int)) == (j - i) + digit_run(s@.skip(j as int)),
        decreases s@.len() - j,
    {
        assert(s@.skip(j as int).drop_first() =~= s@.skip(j + 1));
        j = j + 1;
    }
    j
}

fn all_digits_from(s: &[u8], i: usize) -> (r: bool)
    requires
        i <= s@.len(),
    ensures
        r == all_digits(s@.skip(i as int)),
{
    let mut j = i;
    while j < s.len()
        invariant
            i <= j <= s@.len(),
            forall|k: int| i <= k < j ==> is_digit(s@[k]),
        decreases s@.len() - j,
    {
        if !(s[j] >= 48 && s[j] <= 57) {
            assert(!is_digit(s@.skip(i as int)[j - i]));
            return false;
        }
        j = j + 1;
    }
    assert forall|k: int| 0 <= k < s@.skip(i as int).len() implies is_digit(s@.skip(i as int)[k]) by {
        assert(s@.skip(i as int)[k] == s@[i + k]);
    }
    true
}

fn is_exponent_at(s: &[u8], i: usize) -> (r: bool)
    requires
        i <= s@.len(),
    ensures
        r == is_exponent(s@.skip(i as int)),
{
    let n = s.len();
    if n - i < 2 || !(s[i] == 101 || s[i] == 69) {
        return false;
    }
    let from = if s[i + 1] == 43 || s[i + 1] == 45 { i + 2 } else { i + 1 };
    assert(s@.skip(i as int).skip((from - i) as int) =~= s@.skip(from as int));
    from < n && all_digits_from(s, from)
}

/// Whether `str::parse::<f64>` accepts `s`.
pub fn is_float_literal_exec(s: &[u8]) -> (r: bool)
    ensures
        r == is_float_literal(s@),
{
    let from: usize = if s.len() > 0 && (s[0] == 43 || s[0] == 45) { 1 } else { 0 };
    let t = vstd::slice::slice_subrange(s, from, s.len());
    proof {
        if from == 1 {
            assert(t@ =~= s@.drop_first());
        } else {
            assert(t@ =~= s@);
        }
    }
    if eq_bytes_ignore_case(t, "inf".as_bytes()) || eq_bytes_ignore_case(t, "infinity".as_bytes())
        || eq_bytes_ignore_case(t, "nan".as_bytes()) {
        return true;
    }
    let a = skip_digits(t, 0);
    assert(t@.skip(0) =~= t@);
    let has_point = a < t.len() && t[a] == 46;
    let after = if has_point { skip_digits(t, a + 1) } else { a };
    if after == 0 || (has_point && after == 1) {
        return false;
    }
    after == t.len() || is_exponent_at(t, after)
}

/// Index of the first `b` in `s`.
pub open spec fn index_of(s: Seq<u8>, b: u8) -> Option<nat>
    decreases s.len(),
{
    if s.len() == 0 {
        None
    } else if s[0] == b {
        Some(0)
    } else {
        match index_of(s.drop_first(), b) {
            Some(i) => Some(i + 1),
            None => None,
        }
    }
}

proof fn lemma_index_of_skip(s: Seq<u8>, b: u8, i: int)
    requires
        0 <= i <= s.len(),
        forall|k: int| 0 <= k < i ==> s[k] != b,
    ensures
        index_of(s, b) == match index_of(s.skip(i), b) {
            Some(j) => Some((j + i) as nat),
            None => None::<nat>,
        },
    decreases i,
{
    if i > 0 {
        assert(s.drop_first().skip(i - 1) =~= s.skip(i));
        lemma_index_of_skip(s.drop_first(), b, i - 1);
    } else {
        assert(s.skip(0) =~= s);
    }
}

/// Finds the first `b` in `s`.
pub fn find_byte(s: &[u8], b: u8) -> (r: Option<usize>)
    ensures
        match (r, index_of(s@, b)) {
            (Some(i), Some(j)) => i == j && i < s@.len() && s@[i as int] == b,
            (None, None) => true,
            _ => false,
        },
{
    let mut i: usize = 0;
    while i < s.len()
        invariant
            i <= s@.len(),
            forall|k: int| 0 <= k < i ==> s@[k] != b,
        decreases s@.len() - i,
    {
        if s[i] == b {
            proof {
                lemma_index_of_skip(s@, b, i as int);
            }
            return Some(i);
        }
        i = i + 1;
    }
    proof {
        lemma_index_of_skip(s@, b, i as int);
    }
    None
}

/// A text has no more lines than bytes.
pub proof fn lemma_lines_len(s: Seq<u8>)
    ensures
        lines(s).len() <= s.len(),
    decreases s.len(),
{
    if s.len() > 0 {
        let n = line_len(s);
        lemma_line_len_bound(s);
        if n < s.len() {
            lemma_lines_len(s.skip(n as int + 1));
        }
    }
}

// ── Unicode whitespace ───────────────────────────────────────────────────────

/// The third byte of a three-byte encoding `E2 80 xx` of a whitespace
/// character: U+2000 to U+200A, U+2028, U+2029 and U+202F.
pub open spec fn is_general_punct_space(b: u8) -> bool {
    (0x80 <= b && b <= 0x8A) || b == 0xA8 || b == 0xA9 || b == 0xAF
}

/// Whether the three bytes encode a whitespace character of three UTF-8
/// bytes: U+1680, U+2000 to U+200A, U+2028, U+2029, U+202F, U+205F, U+3000.
pub open spec fn is_ws3(a: u8, b: u8, c: u8) -> bool {
    (a == 0xE1 && b == 0x9A && c == 0x80) || (a == 0xE2 && b == 0x80 && is_general_punct_space(c)) || (a == 0xE2
        && b == 0x81 && c == 0x9F) || (a == 0xE3 && b == 0x80 && c == 0x80)
}

/// Whether the two bytes encode U+0085 or U+00A0.
pub open spec fn is_ws2(a: u8, b: u8) -> bool {
    a == 0xC2 && (b == 0x85 || b == 0xA0)
}

/// The length of the UTF-8 encoding of a whitespace character (one for
/// which `char::is_whitespace` holds: the 25 White_Space code points) that
/// `s` starts with, or 0.
pub open spec fn ws_lead_len(s: Seq<u8>) -> nat {
    if s.len() >= 1 && is_space(s[0]) {
        1
    } else if s.len() >= 2 && is_ws2(s[0], s[1]) {
        2
    } else if s.len() >= 3 && is_ws3(s[0], s[1], s[2]) {
        3
    } else {
        0
    }
}

/// The length of the UTF-8 encoding of a whitespace character that `s`
/// ends with, or 0.
pub open spec fn ws_trail_len(s: Seq<u8>) -> nat {
    let n = s.len() as int;
    if n >= 1 && is_space(s[n - 1]) {
        1
    } else if n >= 2 && is_ws2(s[n - 2], s[n - 1]) {
        2
    } else if n >= 3 && is_ws3(s[n - 3], s[n - 2], s[n - 1]) {
        3
    } else {
        0
    }
}

/// UTF-8 text without its leading whitespace characters.
pub open spec fn utrim_start(s: Seq<u8>) -> Seq<u8>
    decreases s.len(),
{
    let k = ws_lead_len(s);
    if k > 0 {
        utrim_start(s.skip(k as int))
    } else {
        s
    }
}

/// UTF-8 text without its trailing whitespace characters.
pub open spec fn utrim_end(s: Seq<u8>) -> Seq<u8>
    decreases s.len(),
{
    let k = ws_trail_len(s);
    if k > 0 {
        utrim_end(s.take(s.len() - k))
    } else {
        s
    }
}

/// UTF-8 text without leading and trailing whitespace, as `str::trim`
/// gives it.
#[verifier::opaque]
pub open spec fn utrim(s: Seq<u8>) -> Seq<u8> {
    utrim_end(utrim_start(s))
}

fn ws_lead_at(s: &[u8], i: usize, j: usize) -> (r: usize)
    requires
        i <= j <= s@.len(),
    ensures
        r == ws_lead_len(s@.subrange(i as int, j as int)),
{
    let ghost t = s@.subrange(i as int, j as int);
    let n = j - i;
    if n >= 1 && is_space_byte(s[i]) {
        1
    } else if n >= 2 && s[i] == 0xC2 && (s[i + 1] == 0x85 || s[i + 1] == 0xA0) {
        2
    } else if n >= 3 && ((s[i] == 0xE1 && s[i + 1] == 0x9A && s[i + 2] == 0x80) || (s[i] == 0xE2 && s[i + 1] == 0x80
        && ((0x80 <= s[i + 2] && s[i + 2] <= 0x8A) || s[i + 2] == 0xA8 || s[i + 2] == 0xA9 || s[i + 2] == 0xAF)) || (
    s[i] == 0xE2 && s[i + 1] == 0x81 && s[i + 2] == 0x9F) || (s[i] == 0xE3 && s[i + 1] == 0x80 && s[i + 2] == 0x80)) {
        3
    } else {
        0
    }
}

fn ws_trail_at(s: &[u8], i: usize, j: usize) -> (r: usize)
    requires
        i <= j <= s@.len(),
    ensures
        r == ws_trail_len(s@.subrange(i as int, j as int)),
{
    let n = j - i;
    if n >= 1 && is_space_byte(s[j - 1]) {
        1
    } else if n >= 2 && s[j - 2] == 0xC2 && (s[j - 1] == 0x85 || s[j - 1] == 0xA0) {
        2
    } else if n >= 3 && ((s[j - 3] == 0xE1 && s[j - 2] == 0x9A && s[j - 1] == 0x80) || (s[j - 3] == 0xE2 && s[j - 2]
        == 0x80 && ((0x80 <= s[j - 1] && s[j - 1] <= 0x8A) || s[j - 1] == 0xA8 || s[j - 1] == 0xA9 || s[j - 1]
        == 0xAF)) || (s[j - 3] == 0xE2 && s[j - 2] == 0x81 && s[j - 1] == 0x9F) || (s[j - 3] == 0xE3 && s[j - 2] == 0x80
        && s[j - 1] == 0x80)) {
        3
    } else {
        0
    }
}

/// UTF-8 text with leading and trailing whitespace characters removed.
pub fn utrim_bytes(s: &[u8]) -> (r: Vec<u8>)
    ensures
        r@ == utrim(s@),
{
    let n = s.len();
    let mut i: usize = 0;
    assert(s@.subrange(0, n as int) =~= s@);
    let mut k = ws_lead_at(s, 0, n);
    while k > 0
        invariant
            n == s@.len(),
            i <= n,
            k == ws_lead_len(s@.subrange(i as int, n as int)),
            utrim_start(s@) == utrim_start(s@.subrange(i as int, n as int)),
        decreases n - i,
    {
        assert(s@.subrange(i as int, n as int).skip(k as int) =~= s@.subrange(i + k, n as int));
        i = i + k;
        k = ws_lead_at(s, i, n);
    }
    let ghost t = s@.subrange(i as int, n as int);
    assert(utrim_start(s@) == t);
    let mut j: usize = n;
    let mut k = ws_trail_at(s, i, j);
    while k > 0
        invariant
            n == s@.len(),
            i <= j <= n,
            t == s@.subrange(i as int, n as int),
            k == ws_trail_len(s@.subrange(i as int, j as int)),
            utrim_end(t) == utrim_end(s@.subrange(i as int, j as int)),
        decreases j,
    {
        assert(s@.subrange(i as int, j as int).take(j - i - k) =~= s@.subrange(i as int, j - k));
        j = j - k;
        k = ws_trail_at(s, i, j);
    }
    proof {
        reveal(utrim);
    }
    copy_range(s, i, j)
}


/// Number of leading bytes before the first whitespace character of UTF-8
/// text.
pub open spec fn utoken_len(s: Seq<u8>) -> nat
    decreases s.len(),
{
    if s.len() == 0 || ws_lead_len(s) > 0 {
        0
    } else {
        1 + utoken_len(s.drop_first())
    }
}

/// A word of UTF-8 text lies within it, and is not empty when the text
/// does not start with whitespace.
pub proof fn lemma_utoken_len_bound(s: Seq<u8>)
    ensures
        utoken_len(s) <= s.len(),
        s.len() > 0 && ws_lead_len(s) == 0 ==> utoken_len(s) >= 1,
    decreases s.len(),
{
    if s.len() > 0 && ws_lead_len(s) == 0 {
        lemma_utoken_len_bound(s.drop_first());
    }
}

/// The maximal runs of UTF-8 text between whitespace characters, in
/// order, as `str::split_whitespace` gives them.
pub open spec fn uwords(s: Seq<u8>) -> Seq<Seq<u8>>
    decreases s.len(),
{
    if s.len() == 0 {
        seq![]
    } else if ws_lead_len(s) > 0 {
        uwords(s.skip(ws_lead_len(s) as int))
    } else {
        let n = utoken_len(s);
        proof {
            lemma_utoken_len_bound(s);
        }
        seq![s.take(n as int)] + uwords(s.skip(n as int))
    }
}

proof fn lemma_utoken_step(s: Seq<u8>, j: int)
    requires
        0 <= j < s.len(),
        ws_lead_len(s.skip(j)) == 0,
    ensures
        utoken_len(s.skip(j)) == 1 + utoken_len(s.skip(j + 1)),
{
    assert(s.skip(j).drop_first() =~= s.skip(j + 1));
}

/// The words of UTF-8 text split at its whitespace characters.
pub fn usplit_words(s: &[u8]) -> (r: Vec<Vec<u8>>)
    ensures
        vv(r) == uwords(s@),
{
    let n = s.len();
    let mut out: Vec<Vec<u8>> = Vec::new();
    let mut i: usize = 0;
    assert(s@.skip(0) =~= s@);
    assert(vv(out) + uwords(s@) =~= uwords(s@));
    while i < n
        invariant
            n == s@.len(),
            i <= n,
            uwords(s@) == vv(out) + uwords(s@.skip(i as int)),
        decreases n - i,
    {
        assert(s@.subrange(i as int, n as int) =~= s@.skip(i as int));
        let k = ws_lead_at(s, i, n);
        if k > 0 {
            assert(s@.skip(i as int).skip(k as int) =~= s@.skip(i + k));
            i = i + k;
        } else {
            let mut j: usize = i;
            loop
                invariant
                    n == s@.len(),
                    i <= j <= n,
                    ws_lead_len(s@.skip(i as int)) == 0,
                    utoken_len(s@.skip(i as int)) == (j - i) + utoken_len(s@.skip(j as int)),
                ensures
                    i <= j <= n,
                    utoken_len(s@.skip(i as int)) == (j - i) + utoken_len(s@.skip(j as int)),
                    j >= n || ws_lead_len(s@.skip(j as int)) > 0,
                decreases n - j,
            {
                if j >= n {
                    break;
                }
                assert(s@.subrange(j as int, n as int) =~= s@.skip(j as int));
                if ws_lead_at(s, j, n) > 0 {
                    break;
                }
                proof {
                    lemma_utoken_step(s@, j as int);
                }
                j = j + 1;
            }
            let ghost rest = s@.skip(i as int);
            proof {
                if j < n {
                    assert(s@.subrange(j as int, n as int) =~= s@.skip(j as int));
                }
                assert(utoken_len(s@.skip(j as int)) == 0);
                assert(rest.take(j - i) =~= s@.subrange(i as int, j as int));
                assert(rest.skip(j - i) =~= s@.skip(j as int));
                lemma_utoken_len_bound(rest);
            }
            let w = copy_range(s, i, j);
            let ghost before = vv(out);
            out.push(w);
            assert(vv(out) =~= before.push(w@));
            assert(uwords(s@) == vv(out) + uwords(s@.skip(j as int)));
            i = j;
        }
    }
    assert(s@.skip(n as int) =~= Seq::<u8>::empty());
    assert(vv(out) + Seq::<Seq<u8>>::empty() =~= vv(out));
    out
}

} // verus!
