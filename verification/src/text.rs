//! Canonical numeric text.
//!
//! Every free-text field runs through [`format_float`] when a keystroke
//! completes: the raw text is trimmed, an optional minus sign, the integer
//! digits (leading zeros stripped) and an optional fractional part are kept,
//! and everything else is discarded.  The result is always a well-formed
//! decimal literal; when no integer digits survive, `0` takes their place, so
//! `".5"` becomes `"0.5"` and garbage becomes `"0"`.  [`format_int`] is the
//! stricter integer-only variant that keeps bare digits.

use vstd::prelude::*;

verus! {

/// Whitespace stripped from either end of raw input.
pub open spec fn is_space(c: char) -> bool {
    c == ' ' || c == '\t' || c == '\n' || c == '\r'
}

/// A decimal digit.
pub open spec fn is_digit(c: char) -> bool {
    c == '0' || c == '1' || c == '2' || c == '3' || c == '4' || c == '5' || c == '6' || c == '7'
        || c == '8' || c == '9'
}

/// First index at or after `from` that does not hold a space (the length if
/// none follows).
pub open spec fn scan_space(s: Seq<char>, from: int) -> int
    decreases s.len() - from,
{
    if from < 0 || from >= s.len() {
        s.len() as int
    } else if is_space(s[from]) {
        scan_space(s, from + 1)
    } else {
        from
    }
}

/// First index at or after `from` that does not hold `'0'`.
pub open spec fn scan_zero(s: Seq<char>, from: int) -> int
    decreases s.len() - from,
{
    if from < 0 || from >= s.len() {
        s.len() as int
    } else if s[from] == '0' {
        scan_zero(s, from + 1)
    } else {
        from
    }
}

/// First index at or after `from` that does not hold a digit.
pub open spec fn scan_digit(s: Seq<char>, from: int) -> int
    decreases s.len() - from,
{
    if from < 0 || from >= s.len() {
        s.len() as int
    } else if is_digit(s[from]) {
        scan_digit(s, from + 1)
    } else {
        from
    }
}

/// Index before which the trailing run of spaces ending at `end` starts.
pub open spec fn scan_back_space(s: Seq<char>, end: int) -> int
    decreases end,
{
    if 0 < end <= s.len() && is_space(s[end - 1]) {
        scan_back_space(s, end - 1)
    } else {
        end
    }
}

pub proof fn lemma_scan_space(s: Seq<char>, from: int)
    requires
        0 <= from <= s.len(),
    ensures
        from <= scan_space(s, from) <= s.len(),
        forall|k: int| from <= k < scan_space(s, from) ==> is_space(#[trigger] s[k]),
        scan_space(s, from) < s.len() ==> !is_space(s[scan_space(s, from)]),
    decreases s.len() - from,
{
    if from < s.len() && is_space(s[from]) {
        lemma_scan_space(s, from + 1);
    }
}

pub proof fn lemma_scan_space_is(s: Seq<char>, from: int, j: int)
    requires
        0 <= from <= j <= s.len(),
        forall|k: int| from <= k < j ==> is_space(#[trigger] s[k]),
        j == s.len() || !is_space(s[j]),
    ensures
        scan_space(s, from) == j,
    decreases j - from,
{
    if from < j {
        lemma_scan_space_is(s, from + 1, j);
    }
}

pub proof fn lemma_scan_zero(s: Seq<char>, from: int)
    requires
        0 <= from <= s.len(),
    ensures
        from <= scan_zero(s, from) <= s.len(),
        forall|k: int| from <= k < scan_zero(s, from) ==> #[trigger] s[k] == '0',
        scan_zero(s, from) < s.len() ==> s[scan_zero(s, from)] != '0',
    decreases s.len() - from,
{
    if from < s.len() && s[from] == '0' {
        lemma_scan_zero(s, from + 1);
    }
}

pub proof fn lemma_scan_zero_is(s: Seq<char>, from: int, j: int)
    requires
        0 <= from <= j <= s.len(),
        forall|k: int| from <= k < j ==> #[trigger] s[k] == '0',
        j == s.len() || s[j] != '0',
    ensures
        scan_zero(s, from) == j,
    decreases j - from,
{
    if from < j {
        lemma_scan_zero_is(s, from + 1, j);
    }
}

pub proof fn lemma_scan_digit(s: Seq<char>, from: int)
    requires
        0 <= from <= s.len(),
    ensures
        from <= scan_digit(s, from) <= s.len(),
        forall|k: int| from <= k < scan_digit(s, from) ==> is_digit(#[trigger] s[k]),
        scan_digit(s, from) < s.len() ==> !is_digit(s[scan_digit(s, from)]),
    decreases s.len() - from,
{
    if from < s.len() && is_digit(s[from]) {
        lemma_scan_digit(s, from + 1);
    }
}

pub proof fn lemma_scan_digit_is(s: Seq<char>, from: int, j: int)
    requires
        0 <= from <= j <= s.len(),
        forall|k: int| from <= k < j ==> is_digit(#[trigger] s[k]),
        j == s.len() || !is_digit(s[j]),
    ensures
        scan_digit(s, from) == j,
    decreases j - from,
{
    if from < j {
        lemma_scan_digit_is(s, from + 1, j);
    }
}

pub proof fn lemma_scan_back_space(s: Seq<char>, end: int)
    requires
        0 <= end <= s.len(),
    ensures
        0 <= scan_back_space(s, end) <= end,
        forall|k: int| scan_back_space(s, end) <= k < end ==> is_space(#[trigger] s[k]),
        scan_back_space(s, end) > 0 ==> !is_space(s[scan_back_space(s, end) - 1]),
    decreases end,
{
    if 0 < end && is_space(s[end - 1]) {
        lemma_scan_back_space(s, end - 1);
    }
}

pub proof fn lemma_scan_back_space_is(s: Seq<char>, end: int, j: int)
    requires
        0 <= j <= end <= s.len(),
        forall|k: int| j <= k < end ==> is_space(#[trigger] s[k]),
        j == 0 || !is_space(s[j - 1]),
    ensures
        scan_back_space(s, end) == j,
    decreases end - j,
{
    if j < end {
        lemma_scan_back_space_is(s, end - 1, j);
    }
}

/// The input with surrounding whitespace removed.
pub open spec fn trim(s: Seq<char>) -> Seq<char> {
    let a = scan_space(s, 0);
    if a == s.len() {
        Seq::empty()
    } else {
        s.subrange(a, scan_back_space(s, s.len() as int))
    }
}

/// 1 when the trimmed input carries a leading minus sign.
pub open spec fn sign_len(t: Seq<char>) -> int {
    if t.len() > 0 && t[0] == '-' {
        1
    } else {
        0
    }
}

/// Where the kept integer digits start: after the sign and the leading zeros.
pub open spec fn int_start(t: Seq<char>) -> int {
    scan_zero(t, sign_len(t))
}

/// Where the kept integer digits end.
pub open spec fn int_end(t: Seq<char>) -> int {
    scan_digit(t, int_start(t))
}

/// Whether a fractional part (a dot right after the integer digits) is kept.
pub open spec fn has_frac(t: Seq<char>) -> bool {
    int_end(t) < t.len() && t[int_end(t)] == '.'
}

/// Where the kept fractional part ends (the dot plus the digits after it).
pub open spec fn frac_end(t: Seq<char>) -> int {
    if has_frac(t) {
        scan_digit(t, int_end(t) + 1)
    } else {
        int_end(t)
    }
}

/// The canonical form of an already trimmed input.
pub open spec fn norm_trimmed(t: Seq<char>) -> Seq<char> {
    let sgn: Seq<char> = if sign_len(t) == 1 {
        seq!['-']
    } else {
        Seq::empty()
    };
    let ip = t.subrange(int_start(t), int_end(t));
    let fr: Seq<char> = if has_frac(t) {
        t.subrange(int_end(t), frac_end(t))
    } else {
        Seq::empty()
    };
    sgn + (if ip.len() == 0 {
        seq!['0']
    } else {
        ip
    }) + fr
}

/// The canonical decimal form of arbitrary raw input.
pub open spec fn norm(s: Seq<char>) -> Seq<char> {
    norm_trimmed(trim(s))
}

/// The canonical integer form of arbitrary raw input: the digit run after
/// the leading zeros of the trimmed text, possibly empty.
pub open spec fn int_norm(s: Seq<char>) -> Seq<char> {
    let t = trim(s);
    t.subrange(scan_zero(t, 0), scan_digit(t, scan_zero(t, 0)))
}

pub(crate) fn find_space_end(s: &str, from: usize, n: usize) -> (r: usize)
    requires
        n == s@.len(),
        from <= n,
    ensures
        r == scan_space(s@, from as int),
        from <= r <= n,
{
    let mut i: usize = from;
    loop
        invariant
            from <= i <= n,
            n == s@.len(),
            forall|k: int| from <= k < i ==> is_space(#[trigger] s@[k]),
        ensures
            from <= i <= n,
            i == n || !is_space(s@[i as int]),
            forall|k: int| from <= k < i ==> is_space(#[trigger] s@[k]),
        decreases n - i,
    {
        if i >= n {
            break;
        }
        let c = s.get_char(i);
        if !(c == ' ' || c == '\t' || c == '\n' || c == '\r') {
            break;
        }
        i = i + 1;
    }
    proof {
        lemma_scan_space_is(s@, from as int, i as int);
    }
    i
}

fn find_zero_end(s: &str, from: usize, n: usize) -> (r: usize)
    requires
        n == s@.len(),
        from <= n,
    ensures
        r == scan_zero(s@, from as int),
        from <= r <= n,
{
    let mut i: usize = from;
    loop
        invariant
            from <= i <= n,
            n == s@.len(),
            forall|k: int| from <= k < i ==> #[trigger] s@[k] == '0',
        ensures
            from <= i <= n,
            i == n || s@[i as int] != '0',
            forall|k: int| from <= k < i ==> #[trigger] s@[k] == '0',
        decreases n - i,
    {
        if i >= n {
            break;
        }
        let c = s.get_char(i);
        if c != '0' {
            break;
        }
        i = i + 1;
    }
    proof {
        lemma_scan_zero_is(s@, from as int, i as int);
    }
    i
}

pub(crate) fn find_digit_end(s: &str, from: usize, n: usize) -> (r: usize)
    requires
        n == s@.len(),
        from <= n,
    ensures
        r == scan_digit(s@, from as int),
        from <= r <= n,
{
    let mut i: usize = from;
    loop
        invariant
            from <= i <= n,
            n == s@.len(),
            forall|k: int| from <= k < i ==> is_digit(#[trigger] s@[k]),
        ensures
            from <= i <= n,
            i == n || !is_digit(s@[i as int]),
            forall|k: int| from <= k < i ==> is_digit(#[trigger] s@[k]),
        decreases n - i,
    {
        if i >= n {
            break;
        }
        let c = s.get_char(i);
        if !(c == '0' || c == '1' || c == '2' || c == '3' || c == '4' || c == '5' || c == '6'
            || c == '7' || c == '8' || c == '9') {
            break;
        }
        i = i + 1;
    }
    proof {
        lemma_scan_digit_is(s@, from as int, i as int);
    }
    i
}

pub(crate) fn find_trim_end(s: &str, n: usize) -> (r: usize)
    requires
        n == s@.len(),
    ensures
        r == scan_back_space(s@, n as int),
        r <= n,
{
    let mut j: usize = n;
    loop
        invariant
            j <= n,
            n == s@.len(),
            forall|k: int| j <= k < n ==> is_space(#[trigger] s@[k]),
        ensures
            j <= n,
            forall|k: int| j <= k < n ==> is_space(#[trigger] s@[k]),
            j == 0 || !is_space(s@[j - 1]),
        decreases j,
    {
        if j == 0 {
            break;
        }
        let c = s.get_char(j - 1);
        if !(c == ' ' || c == '\t' || c == '\n' || c == '\r') {
            break;
        }
        j = j - 1;
    }
    proof {
        lemma_scan_back_space_is(s@, n as int, j as int);
    }
    j
}

/// Canonicalizes the text of a free decimal field after a keystroke.
pub fn format_float(input: String) -> (r: String)
    ensures
        r@ == norm(input@),
{
    let s = input.as_str();
    let n = s.unicode_len();
    let a = find_space_end(s, 0, n);
    if a == n {
        proof {
            reveal_strlit("0");
            assert(trim(s@) =~= Seq::<char>::empty());
            assert(norm(input@) =~= seq!['0']);
            assert("0"@ =~= seq!['0']);
        }
        return String::from_str("0");
    }
    let b = find_trim_end(s, n);
    proof {
        lemma_scan_space(s@, 0);
        lemma_scan_back_space(s@, n as int);
        if b <= a {
            assert(is_space(s@[a as int]));
            assert(false);
        }
    }
    let t = s.substring_char(a, b);
    proof {
        assert(t@ =~= trim(s@));
    }
    let tn = b - a;
    let c0 = t.get_char(0);
    let sgn = c0 == '-';
    let p0: usize = if sgn {
        1
    } else {
        0
    };
    let ze = find_zero_end(t, p0, tn);
    let de = find_digit_end(t, ze, tn);
    let mut r: String = if sgn {
        proof {
            reveal_strlit("-");
        }
        String::from_str("-")
    } else {
        String::new()
    };
    proof {
        assert(sign_len(t@) == if sgn { 1int } else { 0int });
        if sgn {
            assert("-"@ =~= seq!['-']);
        }
    }
    if ze == de {
        proof {
            reveal_strlit("0");
            assert("0"@ =~= seq!['0']);
        }
        r.append("0");
    } else {
        r.append(t.substring_char(ze, de));
    }
    let mut took_frac = false;
    if de < tn {
        let cd = t.get_char(de);
        if cd == '.' {
            let fe = find_digit_end(t, de + 1, tn);
            proof {
                lemma_scan_digit(t@, de + 1);
            }
            r.append(t.substring_char(de, fe));
            took_frac = true;
        }
    }
    proof {
        assert(has_frac(t@) == took_frac);
        assert(r@ =~= norm(input@));
    }
    r
}

/// Canonicalizes the text of an integer-only field after a keystroke.
pub fn format_int(input: String) -> (r: String)
    ensures
        r@ == int_norm(input@),
{
    let s = input.as_str();
    let n = s.unicode_len();
    let a = find_space_end(s, 0, n);
    if a == n {
        proof {
            assert(trim(s@) =~= Seq::<char>::empty());
            assert(int_norm(input@) =~= Seq::<char>::empty());
        }
        return String::new();
    }
    let b = find_trim_end(s, n);
    proof {
        lemma_scan_space(s@, 0);
        lemma_scan_back_space(s@, n as int);
        if b <= a {
            assert(is_space(s@[a as int]));
            assert(false);
        }
    }
    let t = s.substring_char(a, b);
    proof {
        assert(t@ =~= trim(s@));
    }
    let tn = b - a;
    let ze = find_zero_end(t, 0, tn);
    let de = find_digit_end(t, ze, tn);
    let r = String::from_str(t.substring_char(ze, de));
    proof {
        assert(r@ =~= int_norm(input@));
    }
    r
}


/// The trimmed text itself.
pub fn trim_exec<'a>(s: &'a str) -> (t: &'a str)
    ensures
        t@ == trim(s@),
{
    let n = s.unicode_len();
    let a = find_space_end(s, 0, n);
    if a == n {
        proof {
            assert(trim(s@) =~= Seq::<char>::empty());
            reveal_strlit("");
            assert(""@ =~= Seq::<char>::empty());
        }
        return "";
    }
    let b = find_trim_end(s, n);
    proof {
        lemma_scan_space(s@, 0);
        lemma_scan_back_space(s@, n as int);
        if b <= a {
            assert(is_space(s@[a as int]));
            assert(false);
        }
    }
    let t = s.substring_char(a, b);
    proof {
        assert(t@ =~= trim(s@));
    }
    t
}

/// Character-for-character equality of two texts.
pub fn str_eq(a: &str, b: &str) -> (r: bool)
    ensures
        r == (a@ == b@),
{
    let na = a.unicode_len();
    let nb = b.unicode_len();
    if na != nb {
        return false;
    }
    let mut i: usize = 0;
    while i < na
        invariant
            i <= na,
            na == a@.len(),
            nb == b@.len(),
            na == nb,
            forall|k: int| 0 <= k < i ==> a@[k] == #[trigger] b@[k],
        decreases na - i,
    {
        let ca = a.get_char(i);
        let cb = b.get_char(i);
        if ca != cb {
            return false;
        }
        i = i + 1;
    }
    proof {
        assert(a@ =~= b@);
    }
    true
}


/// Any text shaped as an optional minus sign, then digits with no
/// superfluous leading zero, then an optional dot-and-digits fractional
/// part, is a fixed point of the normalizer.
pub proof fn lemma_norm_fixed(sgn: Seq<char>, mid: Seq<char>, fr: Seq<char>)
    requires
        sgn =~= Seq::<char>::empty() || sgn =~= seq!['-'],
        mid.len() >= 1,
        forall|k: int| 0 <= k < mid.len() ==> is_digit(#[trigger] mid[k]),
        mid[0] == '0' ==> mid =~= seq!['0'],
        fr.len() == 0 || (fr[0] == '.' && forall|k: int|
            1 <= k < fr.len() ==> is_digit(#[trigger] fr[k])),
    ensures
        trim(sgn + mid + fr) == sgn + mid + fr,
        norm_trimmed(sgn + mid + fr) == sgn + mid + fr,
{
    let r = sgn + mid + fr;
    let s0 = sgn.len() as int;
    assert forall|k: int| 0 <= k < r.len() implies !is_space(#[trigger] r[k]) by {
        if k < s0 {
            assert(r[k] == '-');
        } else if k < s0 + mid.len() {
            assert(r[k] == mid[k - s0]);
        } else {
            assert(r[k] == fr[k - s0 - mid.len()]);
            if k - s0 - mid.len() == 0 {
                assert(r[k] == '.');
            }
        }
    }
    lemma_scan_space_is(r, 0, 0);
    lemma_scan_back_space_is(r, r.len() as int, r.len() as int);
    assert(trim(r) =~= r);
    if s0 == 1 {
        assert(r[0] == '-');
    } else {
        assert(r[0] == mid[0]);
    }
    assert(sign_len(r) == s0);
    if mid[0] == '0' {
        assert(r[s0] == '0');
        if fr.len() > 0 {
            assert(r[s0 + 1] == fr[0]);
        }
        lemma_scan_zero_is(r, s0, s0 + 1);
        lemma_scan_digit_is(r, s0 + 1, s0 + 1);
        assert(int_start(r) == s0 + 1);
        assert(int_end(r) == s0 + 1);
        assert(r.subrange(s0 + 1, s0 + 1) =~= Seq::<char>::empty());
    } else {
        assert(r[s0] == mid[0]);
        lemma_scan_zero_is(r, s0, s0);
        assert forall|k: int| s0 <= k < s0 + mid.len() implies is_digit(#[trigger] r[k]) by {
            assert(r[k] == mid[k - s0]);
        }
        if fr.len() > 0 {
            assert(r[s0 + mid.len()] == fr[0]);
        }
        lemma_scan_digit_is(r, s0, s0 + mid.len());
        assert(int_start(r) == s0);
        assert(int_end(r) == s0 + mid.len());
        assert(r.subrange(s0, s0 + mid.len()) =~= mid);
    }
    let de2 = int_end(r);
    assert(de2 == s0 + mid.len());
    if fr.len() > 0 {
        assert(r[de2] == fr[0]);
        assert(has_frac(r));
        assert forall|k: int| de2 + 1 <= k < r.len() implies is_digit(#[trigger] r[k]) by {
            assert(r[k] == fr[k - s0 - mid.len()]);
        }
        lemma_scan_digit_is(r, de2 + 1, r.len() as int);
        assert(frac_end(r) == r.len());
        assert(r.subrange(de2, r.len() as int) =~= fr);
    } else {
        assert(de2 == r.len());
        assert(!has_frac(r));
    }
    assert(norm_trimmed(r) == r);
}

proof fn lemma_canon(t: Seq<char>)
    ensures
        trim(norm_trimmed(t)) == norm_trimmed(t),
        norm_trimmed(norm_trimmed(t)) == norm_trimmed(t),
{
    let s0 = sign_len(t);
    lemma_scan_zero(t, s0);
    let ze = int_start(t);
    lemma_scan_digit(t, ze);
    let de = int_end(t);
    if has_frac(t) {
        lemma_scan_digit(t, de + 1);
    }
    let sgn: Seq<char> = if s0 == 1 {
        seq!['-']
    } else {
        Seq::empty()
    };
    let ip = t.subrange(ze, de);
    let fr: Seq<char> = if has_frac(t) {
        t.subrange(de, frac_end(t))
    } else {
        Seq::empty()
    };
    let mid: Seq<char> = if ip.len() == 0 {
        seq!['0']
    } else {
        ip
    };
    assert forall|k: int| 0 <= k < mid.len() implies is_digit(#[trigger] mid[k]) by {
        if ip.len() == 0 {
            assert(mid[k] == '0');
        } else {
            assert(mid[k] == t[ze + k]);
        }
    }
    if ip.len() > 0 {
        assert(mid[0] == t[ze]);
        assert(t[ze] != '0');
    }
    if has_frac(t) {
        assert(fr[0] == '.');
        assert forall|k: int| 1 <= k < fr.len() implies is_digit(#[trigger] fr[k]) by {
            assert(fr[k] == t[de + k]);
        }
    }
    assert(norm_trimmed(t) == sgn + mid + fr);
    lemma_norm_fixed(sgn, mid, fr);
}

/// Normalization is idempotent: the canonical text it produces normalizes
/// to itself, whatever the raw input was.
pub proof fn lemma_norm_idempotent(s: Seq<char>)
    ensures
        norm(norm(s)) == norm(s),
{
    lemma_canon(trim(s));
}

} // verus!
