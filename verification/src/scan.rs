//! Character-level scanning primitives shared by the parser: whitespace
//! skipping, keyword matching, token runs, digit runs and line splitting.
//! Every executable function mirrors its specification function exactly.

use vstd::prelude::*;

verus! {

pub open spec fn is_space(c: char) -> bool {
    c == ' ' || c == '\t' || c == '\r'
}

/// Characters that may appear in a bare identifier. Everything that cannot
/// open another token is allowed, so Unicode identifiers are accepted.
pub open spec fn is_ident_char(c: char) -> bool {
    !(is_space(c) || c == '"' || c == ':' || c == '<' || c == '>' || c == '-' || c == '.' || c
        == '+' || c == '*' || c == '!' || c == '#' || c == '\\' || c == '/' || c == '=' || c == ','
        || c == '\'' || c == '[' || c == ']' || c == '\n')
}

/// Characters an arrow token is made of.
pub open spec fn is_arrow_char(c: char) -> bool {
    c == '-' || c == '.' || c == '>' || c == '\\' || c == '/'
}

/// The first index at or after `i` holding a non-space character.
pub open spec fn skip_spaces_spec(s: Seq<char>, i: int) -> int
    decreases s.len() - i,
{
    if i < 0 || i >= s.len() {
        s.len() as int
    } else if is_space(s[i]) {
        skip_spaces_spec(s, i + 1)
    } else {
        i
    }
}

/// The end of the line after dropping trailing spaces before `j`.
pub open spec fn rstrip_spec(s: Seq<char>, j: int) -> int
    decreases j,
{
    if j <= 0 {
        0
    } else if j > s.len() {
        rstrip_spec(s, s.len() as int)
    } else if is_space(s[j - 1]) {
        rstrip_spec(s, j - 1)
    } else {
        j
    }
}

/// The line without leading and trailing spaces.
pub open spec fn trimmed(s: Seq<char>) -> Seq<char> {
    let a = skip_spaces_spec(s, 0);
    let b = rstrip_spec(s, s.len() as int);
    if a <= b {
        s.subrange(a, b)
    } else {
        Seq::empty()
    }
}

/// The first index at or after `i` holding `c`, or the length.
pub open spec fn find_spec(s: Seq<char>, c: char, i: int) -> int
    decreases s.len() - i,
{
    if i < 0 || i >= s.len() {
        s.len() as int
    } else if s[i] == c {
        i
    } else {
        find_spec(s, c, i + 1)
    }
}

/// The end of the run of identifier characters starting at `i`.
pub open spec fn scan_ident_spec(s: Seq<char>, i: int) -> int
    decreases s.len() - i,
{
    if i < 0 || i >= s.len() {
        s.len() as int
    } else if is_ident_char(s[i]) {
        scan_ident_spec(s, i + 1)
    } else {
        i
    }
}

/// The end of the run of arrow characters starting at `i`.
pub open spec fn scan_arrow_spec(s: Seq<char>, i: int) -> int
    decreases s.len() - i,
{
    if i < 0 || i >= s.len() {
        s.len() as int
    } else if is_arrow_char(s[i]) {
        scan_arrow_spec(s, i + 1)
    } else {
        i
    }
}

/// The end of the run of `c` characters starting at `i`.
pub open spec fn scan_run_spec(s: Seq<char>, c: char, i: int) -> int
    decreases s.len() - i,
{
    if i < 0 || i >= s.len() {
        s.len() as int
    } else if s[i] == c {
        scan_run_spec(s, c, i + 1)
    } else {
        i
    }
}

/// The end of the run of decimal digits starting at `i`.
pub open spec fn scan_digits_spec(s: Seq<char>, i: int) -> int
    decreases s.len() - i,
{
    if i < 0 || i >= s.len() {
        s.len() as int
    } else if crate::numfmt::is_digit(s[i]) {
        scan_digits_spec(s, i + 1)
    } else {
        i
    }
}

pub open spec fn digit_val(c: char) -> int {
    if c == '0' {
        0
    } else if c == '1' {
        1
    } else if c == '2' {
        2
    } else if c == '3' {
        3
    } else if c == '4' {
        4
    } else if c == '5' {
        5
    } else if c == '6' {
        6
    } else if c == '7' {
        7
    } else if c == '8' {
        8
    } else {
        9
    }
}

/// The value of the digit run `s[i..j]`, most significant digit first.
pub open spec fn digits_val_spec(s: Seq<char>, i: int, j: int) -> int
    decreases j - i,
{
    if i >= j {
        0
    } else {
        digits_val_spec(s, i, j - 1) * 10 + digit_val(s[j - 1])
    }
}

/// The start of the run of `c` characters ending just before `j`.
pub open spec fn scan_run_rev_spec(s: Seq<char>, c: char, j: int) -> int
    decreases j,
{
    if j <= 0 {
        0
    } else if j > s.len() {
        scan_run_rev_spec(s, c, s.len() as int)
    } else if s[j - 1] == c {
        scan_run_rev_spec(s, c, j - 1)
    } else {
        j
    }
}

pub fn scan_run_rev_x(cs: &Vec<char>, c: char, j: usize) -> (r: usize)
    requires
        j <= cs@.len(),
    ensures
        r == scan_run_rev_spec(cs@, c, j as int),
        r <= j,
    decreases j,
{
    if j == 0 {
        0
    } else if cs[j - 1] == c {
        scan_run_rev_x(cs, c, j - 1)
    } else {
        j
    }
}

pub broadcast proof fn lemma_skip_spaces_bounds(s: Seq<char>, i: int)
    requires
        0 <= i <= s.len(),
    ensures
        i <= #[trigger] skip_spaces_spec(s, i) <= s.len(),
    decreases s.len() - i,
{
    if i < s.len() && is_space(s[i]) {
        lemma_skip_spaces_bounds(s, i + 1);
    }
}

pub broadcast proof fn lemma_scan_ident_bounds(s: Seq<char>, i: int)
    requires
        0 <= i <= s.len(),
    ensures
        i <= #[trigger] scan_ident_spec(s, i) <= s.len(),
    decreases s.len() - i,
{
    if i < s.len() && is_ident_char(s[i]) {
        lemma_scan_ident_bounds(s, i + 1);
    }
}

pub broadcast proof fn lemma_scan_arrow_bounds(s: Seq<char>, i: int)
    requires
        0 <= i <= s.len(),
    ensures
        i <= #[trigger] scan_arrow_spec(s, i) <= s.len(),
    decreases s.len() - i,
{
    if i < s.len() && is_arrow_char(s[i]) {
        lemma_scan_arrow_bounds(s, i + 1);
    }
}

pub broadcast proof fn lemma_scan_digits_bounds(s: Seq<char>, i: int)
    requires
        0 <= i <= s.len(),
    ensures
        i <= #[trigger] scan_digits_spec(s, i) <= s.len(),
    decreases s.len() - i,
{
    if i < s.len() && crate::numfmt::is_digit(s[i]) {
        lemma_scan_digits_bounds(s, i + 1);
    }
}

pub broadcast proof fn lemma_scan_run_bounds(s: Seq<char>, c: char, i: int)
    requires
        0 <= i <= s.len(),
    ensures
        i <= #[trigger] scan_run_spec(s, c, i) <= s.len(),
    decreases s.len() - i,
{
    if i < s.len() && s[i] == c {
        lemma_scan_run_bounds(s, c, i + 1);
    }
}

/// When the search succeeds, the found position holds the character.
pub proof fn lemma_find_found(s: Seq<char>, c: char, i: int)
    requires
        0 <= i <= s.len(),
    ensures
        find_spec(s, c, i) < s.len() ==> s[find_spec(s, c, i)] == c,
    decreases s.len() - i,
{
    if i < s.len() && s[i] != c {
        lemma_find_found(s, c, i + 1);
    }
}

pub broadcast proof fn lemma_find_spec_bounds(s: Seq<char>, c: char, i: int)
    requires
        0 <= i <= s.len(),
    ensures
        i <= #[trigger] find_spec(s, c, i) <= s.len(),
    decreases s.len() - i,
{
    if i < s.len() && s[i] != c {
        lemma_find_spec_bounds(s, c, i + 1);
    }
}

/// Skipping spaces in a suffix mirrors skipping them in the whole sequence.
pub proof fn lemma_skip_spaces_shift(s: Seq<char>, d: int, i: int)
    requires
        0 <= d <= i <= s.len(),
    ensures
        skip_spaces_spec(s.skip(d), i - d) == skip_spaces_spec(s, i) - d,
    decreases s.len() - i,
{
    if i < s.len() {
        assert(s.skip(d)[i - d] == s[i]);
        if is_space(s[i]) {
            lemma_skip_spaces_shift(s, d, i + 1);
        }
    }
}

pub broadcast proof fn lemma_rstrip_bounds(s: Seq<char>, j: int)
    requires
        0 <= j <= s.len(),
    ensures
        0 <= #[trigger] rstrip_spec(s, j) <= j,
    decreases j,
{
    if j > 0 && is_space(s[j - 1]) {
        lemma_rstrip_bounds(s, j - 1);
    }
}

/// Stripping trailing spaces in a suffix mirrors the whole sequence, clamped
/// at the suffix start.
pub proof fn lemma_rstrip_shift(s: Seq<char>, d: int, j: int)
    requires
        0 <= d <= j <= s.len(),
    ensures
        rstrip_spec(s, j) >= d ==> rstrip_spec(s.skip(d), j - d) == rstrip_spec(s, j) - d,
        rstrip_spec(s, j) < d ==> rstrip_spec(s.skip(d), j - d) == 0,
    decreases j,
{
    lemma_rstrip_bounds(s, j);
    if j > d {
        assert(s.skip(d)[j - d - 1] == s[j - 1]);
        if is_space(s[j - 1]) {
            lemma_rstrip_shift(s, d, j - 1);
        }
    }
}

/// The trimmed range of the suffix of `cs` starting at `d`: a pair `(a, b)`
/// with the trimmed text equal to `cs[a..b]` when `a < b` and empty otherwise.
pub fn trim_range_x(cs: &Vec<char>, d: usize) -> (r: (usize, usize))
    requires
        d <= cs@.len(),
    ensures
        d <= r.0 <= cs@.len(),
        r.1 <= cs@.len(),
        r.0 < r.1 ==> trimmed(cs@.skip(d as int)) == cs@.subrange(r.0 as int, r.1 as int),
        r.0 >= r.1 ==> trimmed(cs@.skip(d as int)) == Seq::<char>::empty(),
{
    let a = skip_spaces_x(cs, d);
    let b = rstrip_x(cs, cs.len());
    proof {
        let s = cs@;
        let sub = s.skip(d as int);
        lemma_skip_spaces_shift(s, d as int, d as int);
        lemma_rstrip_shift(s, d as int, s.len() as int);
        if a < b {
            assert(sub.subrange(a - d, b - d) =~= s.subrange(a as int, b as int));
        } else {
            if rstrip_spec(s, s.len() as int) >= d {
                if skip_spaces_spec(sub, 0) <= rstrip_spec(sub, sub.len() as int) {
                    assert(sub.subrange(
                        skip_spaces_spec(sub, 0),
                        rstrip_spec(sub, sub.len() as int),
                    ) =~= Seq::<char>::empty());
                }
            } else {
                if skip_spaces_spec(sub, 0) <= rstrip_spec(sub, sub.len() as int) {
                    assert(sub.subrange(
                        skip_spaces_spec(sub, 0),
                        rstrip_spec(sub, sub.len() as int),
                    ) =~= Seq::<char>::empty());
                }
            }
        }
    }
    (a, b)
}

/// The owned trimmed suffix of the line starting at `d`.
pub fn trimmed_suffix_x(tline: &str, cs: &Vec<char>, d: usize) -> (r: String)
    requires
        cs@ == tline@,
        d <= cs@.len(),
    ensures
        r@ == trimmed(cs@.skip(d as int)),
{
    let r = trim_range_x(cs, d);
    if r.0 < r.1 {
        substr(tline, r.0, r.1)
    } else {
        String::new()
    }
}

/// The owned trimmed suffix, as an optional value: `None` when empty.
pub fn opt_trimmed_suffix_x(tline: &str, cs: &Vec<char>, d: usize) -> (r: Option<String>)
    requires
        cs@ == tline@,
        d <= cs@.len(),
    ensures
        match r {
            Some(v) => trimmed(cs@.skip(d as int)) == v@ && v@.len() > 0,
            None => trimmed(cs@.skip(d as int)).len() == 0,
        },
{
    let v = trimmed_suffix_x(tline, cs, d);
    if v.as_str().unicode_len() == 0 {
        None
    } else {
        Some(v)
    }
}

/// The owned trimmed copy of `cs[a..b]`.
pub fn trim_in_x(tline: &str, cs: &Vec<char>, a: usize, b: usize) -> (r: String)
    requires
        cs@ == tline@,
        a <= b <= cs@.len(),
    ensures
        r@ == trimmed(cs@.subrange(a as int, b as int)),
{
    let ghost sub = cs@.subrange(a as int, b as int);
    let sub_str = substr(tline, a, b);
    let sub_cs = str_chars(sub_str.as_str());
    let a2 = skip_spaces_x(&sub_cs, 0);
    let b2 = rstrip_x(&sub_cs, sub_cs.len());
    if a2 < b2 {
        substr(sub_str.as_str(), a2, b2)
    } else {
        proof {
            if a2 <= b2 {
                assert(sub.subrange(a2 as int, b2 as int) =~= Seq::<char>::empty());
            }
        }
        String::new()
    }
}

/// Two equal adjacent characters occur somewhere in `s`.
pub open spec fn contains_pair(s: Seq<char>, c: char) -> bool {
    exists|i: int| 0 <= i && i + 1 < s.len() && #[trigger] s[i] == c && s[i + 1] == c
}

pub fn contains_pair_x(cs: &Vec<char>, a: usize, b: usize, c: char) -> (r: bool)
    requires
        a <= b <= cs@.len(),
    ensures
        r == contains_pair(cs@.subrange(a as int, b as int), c),
{
    let ghost sub = cs@.subrange(a as int, b as int);
    if b - a < 2 {
        return false;
    }
    let mut i: usize = a;
    while i + 1 < b
        invariant
            a <= i,
            i + 1 <= b,
            b <= cs@.len(),
            sub == cs@.subrange(a as int, b as int),
            forall|k: int| 0 <= k < i - a ==> !(#[trigger] sub[k] == c && sub[k + 1] == c),
        decreases b - i,
    {
        if cs[i] == c && cs[i + 1] == c {
            proof {
                assert(sub[i - a] == c && sub[i - a + 1] == c);
            }
            return true;
        }
        i = i + 1;
    }
    false
}

/// The keyword `k` occurs at position `i`.
pub open spec fn kw_at(s: Seq<char>, i: int, k: Seq<char>) -> bool {
    0 <= i && i + k.len() <= s.len() && s.subrange(i, i + k.len()) == k
}

/// The line begins with the word `k`: the keyword followed by a space or the
/// end of the line.
pub open spec fn word_prefix(s: Seq<char>, k: Seq<char>) -> bool {
    kw_at(s, 0, k) && (s.len() == k.len() || is_space(s[k.len() as int]))
}

/// The word `k` occurs at `i` and ends at a word boundary.
pub open spec fn word_at(s: Seq<char>, i: int, k: Seq<char>) -> bool {
    kw_at(s, i, k) && (i + k.len() == s.len() || is_space(s[i + k.len()]))
}

pub fn kw_at_x(cs: &Vec<char>, i: usize, k: &str) -> (r: bool)
    requires
        i <= cs@.len(),
    ensures
        r == kw_at(cs@, i as int, k@),
{
    let kl = k.unicode_len();
    if kl > cs.len() - i {
        proof {
            assert(!kw_at(cs@, i as int, k@));
        }
        return false;
    }
    let mut j: usize = 0;
    while j < kl
        invariant
            j <= kl,
            i + kl <= cs@.len(),
            cs@.len() <= usize::MAX,
            kl == k@.len(),
            forall|m: int| 0 <= m < j ==> cs@[i + m] == k@[m],
        decreases kl - j,
    {
        proof {
            assert(i + j < cs@.len());
        }
        if cs[i + j] != k.get_char(j) {
            proof {
                assert(cs@.subrange(i as int, i + k@.len())[j as int] != k@[j as int]);
            }
            return false;
        }
        j = j + 1;
    }
    proof {
        assert(cs@.subrange(i as int, i + k@.len()) =~= k@);
    }
    true
}

pub fn word_at_x(cs: &Vec<char>, i: usize, k: &str) -> (r: bool)
    requires
        i <= cs@.len(),
    ensures
        r == word_at(cs@, i as int, k@),
{
    if !kw_at_x(cs, i, k) {
        return false;
    }
    let kl = k.unicode_len();
    proof {
        assert(i + kl <= cs@.len());
    }
    if kl == cs.len() - i {
        true
    } else {
        is_space_x(cs[i + kl])
    }
}

pub fn word_prefix_x(cs: &Vec<char>, k: &str) -> (r: bool)
    ensures
        r == word_prefix(cs@, k@),
{
    word_at_x(cs, 0, k)
}

/// Whether `cs[a..b]` is exactly the text `k`.
pub fn range_is(cs: &Vec<char>, a: usize, b: usize, k: &str) -> (r: bool)
    requires
        a <= b <= cs@.len(),
    ensures
        r == (cs@.subrange(a as int, b as int) == k@),
{
    let kl = k.unicode_len();
    if b - a != kl {
        proof {
            assert(cs@.subrange(a as int, b as int).len() != k@.len());
        }
        return false;
    }
    let r = kw_at_x(cs, a, k);
    proof {
        assert(a + k@.len() == b);
    }
    r
}

pub fn is_space_x(c: char) -> (r: bool)
    ensures
        r == is_space(c),
{
    c == ' ' || c == '\t' || c == '\r'
}

pub fn is_ident_char_x(c: char) -> (r: bool)
    ensures
        r == is_ident_char(c),
{
    !(is_space_x(c) || c == '"' || c == ':' || c == '<' || c == '>' || c == '-' || c == '.' || c
        == '+' || c == '*' || c == '!' || c == '#' || c == '\\' || c == '/' || c == '=' || c == ','
        || c == '\'' || c == '[' || c == ']' || c == '\n')
}

pub fn is_arrow_char_x(c: char) -> (r: bool)
    ensures
        r == is_arrow_char(c),
{
    c == '-' || c == '.' || c == '>' || c == '\\' || c == '/'
}

pub fn is_digit_x(c: char) -> (r: bool)
    ensures
        r == crate::numfmt::is_digit(c),
{
    '0' <= c && c <= '9'
}

pub fn skip_spaces_x(cs: &Vec<char>, i: usize) -> (r: usize)
    requires
        i <= cs@.len(),
    ensures
        r == skip_spaces_spec(cs@, i as int),
        i <= r <= cs@.len(),
    decreases cs@.len() - i,
{
    if i == cs.len() {
        i
    } else if is_space_x(cs[i]) {
        skip_spaces_x(cs, i + 1)
    } else {
        i
    }
}

pub fn rstrip_x(cs: &Vec<char>, j: usize) -> (r: usize)
    requires
        j <= cs@.len(),
    ensures
        r == rstrip_spec(cs@, j as int),
        r <= j,
    decreases j,
{
    if j == 0 {
        0
    } else if is_space_x(cs[j - 1]) {
        rstrip_x(cs, j - 1)
    } else {
        j
    }
}

pub fn find_x(cs: &Vec<char>, c: char, i: usize) -> (r: usize)
    requires
        i <= cs@.len(),
    ensures
        r == find_spec(cs@, c, i as int),
        i <= r <= cs@.len(),
    decreases cs@.len() - i,
{
    if i == cs.len() {
        i
    } else if cs[i] == c {
        i
    } else {
        find_x(cs, c, i + 1)
    }
}

pub fn scan_ident_x(cs: &Vec<char>, i: usize) -> (r: usize)
    requires
        i <= cs@.len(),
    ensures
        r == scan_ident_spec(cs@, i as int),
        i <= r <= cs@.len(),
    decreases cs@.len() - i,
{
    if i == cs.len() {
        i
    } else if is_ident_char_x(cs[i]) {
        scan_ident_x(cs, i + 1)
    } else {
        i
    }
}

pub fn scan_arrow_x(cs: &Vec<char>, i: usize) -> (r: usize)
    requires
        i <= cs@.len(),
    ensures
        r == scan_arrow_spec(cs@, i as int),
        i <= r <= cs@.len(),
    decreases cs@.len() - i,
{
    if i == cs.len() {
        i
    } else if is_arrow_char_x(cs[i]) {
        scan_arrow_x(cs, i + 1)
    } else {
        i
    }
}

pub fn scan_run_x(cs: &Vec<char>, c: char, i: usize) -> (r: usize)
    requires
        i <= cs@.len(),
    ensures
        r == scan_run_spec(cs@, c, i as int),
        i <= r <= cs@.len(),
    decreases cs@.len() - i,
{
    if i == cs.len() {
        i
    } else if cs[i] == c {
        scan_run_x(cs, c, i + 1)
    } else {
        i
    }
}

pub fn scan_digits_x(cs: &Vec<char>, i: usize) -> (r: usize)
    requires
        i <= cs@.len(),
    ensures
        r == scan_digits_spec(cs@, i as int),
        i <= r <= cs@.len(),
    decreases cs@.len() - i,
{
    if i == cs.len() {
        i
    } else if is_digit_x(cs[i]) {
        scan_digits_x(cs, i + 1)
    } else {
        i
    }
}

pub fn digit_val_x(c: char) -> (r: u32)
    ensures
        r == digit_val(c),
        r <= 9,
{
    if c == '0' {
        0
    } else if c == '1' {
        1
    } else if c == '2' {
        2
    } else if c == '3' {
        3
    } else if c == '4' {
        4
    } else if c == '5' {
        5
    } else if c == '6' {
        6
    } else if c == '7' {
        7
    } else if c == '8' {
        8
    } else {
        9
    }
}

/// Reads the value of the digit run `cs[i..j]`. The run is at most eight
/// digits, so the value fits comfortably in `u32`.
pub fn digits_val_x(cs: &Vec<char>, i: usize, j: usize) -> (r: u32)
    requires
        i <= j <= cs@.len(),
        j - i <= 8,
    ensures
        r == digits_val_spec(cs@, i as int, j as int),
    decreases j - i,
{
    if i >= j {
        0
    } else {
        let hi = digits_val_x(cs, i, j - 1);
        proof {
            lemma_digits_val_bound(cs@, i as int, j - 1, 7);
            lemma_pow10_unfold();
        }
        hi * 10 + digit_val_x(cs[j - 1])
    }
}

/// A digit run of at most `k` digits has a value below `10^k`.
pub proof fn lemma_digits_val_bound(s: Seq<char>, i: int, j: int, k: int)
    requires
        i <= j,
        0 <= k,
        j - i <= k,
    ensures
        0 <= digits_val_spec(s, i, j) < pow10(k),
    decreases k,
{
    lemma_pow10_mono(k);
    if i < j {
        lemma_digits_val_bound(s, i, j - 1, k - 1);
        lemma_pow10_mono(k - 1);
        assert(digit_val(s[j - 1]) <= 9);
        assert(pow10(k) == 10 * pow10(k - 1));
    }
}

pub open spec fn pow10(k: int) -> int
    decreases k,
{
    if k <= 0 {
        1
    } else {
        10 * pow10(k - 1)
    }
}

proof fn lemma_pow10_mono(k: int)
    requires
        k >= 0,
    ensures
        pow10(k) >= 1,
    decreases k,
{
    if k > 0 {
        lemma_pow10_mono(k - 1);
    }
}

/// The powers of ten up to `10^8`, written out.
pub proof fn lemma_pow10_unfold()
    ensures
        pow10(7) == 10000000,
        pow10(8) == 100000000,
{
    assert(pow10(0) == 1);
    assert(pow10(1) == 10);
    assert(pow10(2) == 100);
    assert(pow10(3) == 1000);
    assert(pow10(4) == 10000);
    assert(pow10(5) == 100000);
    assert(pow10(6) == 1000000);
    assert(pow10(7) == 10000000);
    assert(pow10(8) == 100000000);
}

/// Splits a text into its lines at newline characters.
pub open spec fn split_lines_spec(s: Seq<char>) -> Seq<Seq<char>>
    decreases s.len(),
    via split_lines_spec_dec
{
    let i = find_spec(s, '\n', 0);
    if i == s.len() {
        seq![s]
    } else {
        seq![s.take(i)] + split_lines_spec(s.skip(i + 1))
    }
}

#[via_fn]
proof fn split_lines_spec_dec(s: Seq<char>) {
    lemma_find_bounds(s, '\n', 0);
}

proof fn lemma_find_bounds(s: Seq<char>, c: char, i: int)
    requires
        0 <= i <= s.len(),
    ensures
        i <= find_spec(s, c, i) <= s.len(),
    decreases s.len() - i,
{
    if i < s.len() && s[i] != c {
        lemma_find_bounds(s, c, i + 1);
    }
}

/// Collects the characters of a string slice.
pub fn str_chars(s: &str) -> (v: Vec<char>)
    ensures
        v@ == s@,
{
    let n = s.unicode_len();
    let mut v: Vec<char> = Vec::new();
    let mut i: usize = 0;
    while i < n
        invariant
            i <= n,
            n == s@.len(),
            v@ == s@.take(i as int),
        decreases n - i,
    {
        v.push(s.get_char(i));
        proof {
            assert(v@ =~= s@.take(i + 1));
        }
        i = i + 1;
    }
    proof {
        assert(s@.take(n as int) =~= s@);
    }
    v
}

/// The owned copy of `s[a..b]`, counted in characters.
pub fn substr(s: &str, a: usize, b: usize) -> (r: String)
    requires
        a <= b <= s@.len(),
    ensures
        r@ == s@.subrange(a as int, b as int),
{
    let piece = s.substring_char(a, b);
    piece.to_owned()
}

/// Splits a source text into lines. The `i`-th returned string is the `i`-th
/// line, without its terminating newline.
pub fn split_lines(s: &str) -> (lines: Vec<String>)
    ensures
        lines@.len() == split_lines_spec(s@).len(),
        forall|i: int|
            0 <= i < lines@.len() ==> #[trigger] lines@[i]@ == split_lines_spec(s@)[i],
{
    let cs = str_chars(s);
    let n = cs.len();
    let mut lines: Vec<String> = Vec::new();
    let mut start: usize = 0;
    let ghost whole = s@;
    proof {
        assert(whole.skip(0) =~= whole);
        assert(Seq::new(lines@.len(), |i: int| lines@[i]@) + split_lines_spec(whole)
            =~= split_lines_spec(whole));
    }
    loop
        invariant_except_break
            split_lines_spec(whole) =~= Seq::new(lines@.len(), |i: int| lines@[i]@)
                + split_lines_spec(whole.skip(start as int)),
        invariant
            start <= n,
            n == whole.len(),
            cs@ == whole,
            s@ == whole,
        ensures
            split_lines_spec(whole) =~= Seq::new(lines@.len(), |i: int| lines@[i]@),
        decreases n - start,
    {
        let e = find_x(&cs, '\n', start);
        proof {
            lemma_find_skip(whole, '\n', start as int);
        }
        let piece = substr(s, start, e);
        let ghost before = lines@;
        lines.push(piece);
        proof {
            assert(Seq::new(lines@.len(), |i: int| lines@[i]@) =~= Seq::new(
                before.len(),
                |i: int| before[i]@,
            ).push(piece@));
        }
        if e == n {
            proof {
                let suffix = whole.skip(start as int);
                assert(find_spec(suffix, '\n', 0) == suffix.len());
                assert(split_lines_spec(suffix) =~= seq![suffix]);
                assert(piece@ =~= suffix);
                assert(split_lines_spec(whole) =~= Seq::new(lines@.len(), |i: int| lines@[i]@));
            }
            break ;
        }
        proof {
            let suffix = whole.skip(start as int);
            let f = find_spec(suffix, '\n', 0);
            assert(f == e - start);
            assert(f < suffix.len());
            assert(split_lines_spec(suffix) =~= seq![suffix.take(f)] + split_lines_spec(
                suffix.skip(f + 1),
            ));
            assert(suffix.take(f) =~= whole.subrange(start as int, e as int));
            assert(suffix.skip(f + 1) =~= whole.skip(e + 1));
            assert(split_lines_spec(whole) =~= Seq::new(lines@.len(), |i: int| lines@[i]@)
                + split_lines_spec(whole.skip(e + 1)));
        }
        start = e + 1;
    }
    proof {
        let expected = split_lines_spec(whole);
        assert forall|i: int| 0 <= i < lines@.len() implies #[trigger] lines@[i]@ == expected[i] by {
            assert(expected[i] == Seq::new(lines@.len(), |i: int| lines@[i]@)[i]);
        }
    }
    lines
}

/// Searching from `i` relates to searching in the suffix starting at `i`.
proof fn lemma_find_skip(s: Seq<char>, c: char, i: int)
    requires
        0 <= i <= s.len(),
    ensures
        find_spec(s, c, i) - i == find_spec(s.skip(i), c, 0),
        i <= find_spec(s, c, i) <= s.len(),
        find_spec(s, c, i) < s.len() ==> s[find_spec(s, c, i)] == c,
    decreases s.len() - i,
{
    lemma_find_bounds(s, c, i);
    if i < s.len() {
        if s[i] != c {
            lemma_find_skip(s, c, i + 1);
            assert(s.skip(i).skip(1) =~= s.skip(i + 1));
            assert(s.skip(i)[0] == s[i]);
            lemma_find_shift(s.skip(i), c);
        } else {
            assert(s.skip(i)[0] == c);
        }
    } else {
        assert(s.skip(i).len() == 0);
    }
}

/// Unfolding of `find_spec` at the head of a sequence.
proof fn lemma_find_shift(s: Seq<char>, c: char)
    requires
        s.len() > 0,
        s[0] != c,
    ensures
        find_spec(s, c, 0) == 1 + find_spec(s.skip(1), c, 0),
    decreases s.len(),
{
    lemma_find_aux(s, c, 1);
}

proof fn lemma_find_aux(s: Seq<char>, c: char, i: int)
    requires
        1 <= i <= s.len(),
    ensures
        find_spec(s, c, i) == 1 + find_spec(s.skip(1), c, i - 1),
    decreases s.len() - i,
{
    if i < s.len() {
        assert(s.skip(1)[i - 1] == s[i]);
        if s[i] != c {
            lemma_find_aux(s, c, i + 1);
        }
    } else {
        assert(s.skip(1).len() == s.len() - 1);
    }
}

} // verus!
