//! Character-sequence toolkit: the string operations the catalog logic is
//! built from, each stated over `Seq<char>`.
use vstd::prelude::*;

verus! {

// ---------------------------------------------------------------------------
// Specifications
// ---------------------------------------------------------------------------

/// `p` is a prefix of `s`.
pub open spec fn starts_with(s: Seq<char>, p: Seq<char>) -> bool {
    p.len() <= s.len() && s.subrange(0, p.len() as int) == p
}

/// `p` occurs in `s` starting at position `i`.
pub open spec fn occurs_at(s: Seq<char>, p: Seq<char>, i: int) -> bool {
    0 <= i && i + p.len() <= s.len() && s.subrange(i, i + p.len()) == p
}

/// `p` occurs somewhere in `s` (the empty sequence occurs in every sequence).
pub open spec fn contains(s: Seq<char>, p: Seq<char>) -> bool {
    exists|i: int| #[trigger] occurs_at(s, p, i)
}

/// Lexicographic order on sequences of characters, by code point; this is the
/// order in which Rust compares `str` values (byte-wise UTF-8 order agrees with it).
pub open spec fn lex_less(a: Seq<char>, b: Seq<char>) -> bool
    decreases a.len(),
{
    if a.len() == 0 {
        b.len() > 0
    } else if b.len() == 0 {
        false
    } else if a[0] != b[0] {
        (a[0] as int) < (b[0] as int)
    } else {
        lex_less(a.drop_first(), b.drop_first())
    }
}


/// `lex_less` is irreflexive.
pub proof fn lemma_lex_less_irreflexive(a: Seq<char>)
    ensures
        !lex_less(a, a),
    decreases a.len(),
{
    if a.len() > 0 {
        lemma_lex_less_irreflexive(a.drop_first());
    }
}

/// `lex_less` is asymmetric.
pub proof fn lemma_lex_less_asymmetric(a: Seq<char>, b: Seq<char>)
    ensures
        !(lex_less(a, b) && lex_less(b, a)),
    decreases a.len(),
{
    if a.len() > 0 && b.len() > 0 && a[0] == b[0] {
        lemma_lex_less_asymmetric(a.drop_first(), b.drop_first());
    }
}

/// `lex_less` is transitive.
pub proof fn lemma_lex_less_transitive(a: Seq<char>, b: Seq<char>, c: Seq<char>)
    requires
        lex_less(a, b),
        lex_less(b, c),
    ensures
        lex_less(a, c),
    decreases a.len(),
{
    if a.len() > 0 && b.len() > 0 && c.len() > 0 && a[0] == b[0] && b[0] == c[0] {
        lemma_lex_less_transitive(a.drop_first(), b.drop_first(), c.drop_first());
    }
}

/// Any two different sequences are ordered one way or the other.
pub proof fn lemma_lex_less_total(a: Seq<char>, b: Seq<char>)
    requires
        a != b,
    ensures
        lex_less(a, b) || lex_less(b, a),
    decreases a.len(),
{
    if a.len() > 0 && b.len() > 0 && a[0] == b[0] {
        if a.drop_first() == b.drop_first() {
            assert(a =~= seq![a[0]] + a.drop_first());
            assert(b =~= seq![b[0]] + b.drop_first());
        }
        lemma_lex_less_total(a.drop_first(), b.drop_first());
    } else if a.len() == 0 && b.len() == 0 {
        assert(a =~= b);
    } else if a.len() > 0 && b.len() > 0 {
        assert((a[0] as int) != (b[0] as int));
    }
}

/// Dropping a common prefix does not change the order.
proof fn lemma_lex_less_skip(a: Seq<char>, b: Seq<char>, i: int)
    requires
        0 <= i <= a.len(),
        i <= b.len(),
        forall|k: int| 0 <= k < i ==> a[k] == b[k],
    ensures
        lex_less(a, b) == lex_less(a.skip(i), b.skip(i)),
    decreases i,
{
    if i == 0 {
        assert(a.skip(0) =~= a);
        assert(b.skip(0) =~= b);
    } else {
        lemma_lex_less_skip(a.drop_first(), b.drop_first(), i - 1);
        assert(a.drop_first().skip(i - 1) =~= a.skip(i));
        assert(b.drop_first().skip(i - 1) =~= b.skip(i));
    }
}

// ---------------------------------------------------------------------------
// Executable operations
// ---------------------------------------------------------------------------

/// The characters of `s`, in order.
pub fn chars_of(s: &str) -> (res: Vec<char>)
    ensures
        res@ == s@,
{
    let mut res: Vec<char> = Vec::new();
    for c in it: s.chars()
        invariant
            res@ == it.seq().take(it.index() as int),
            it.seq() == s@,
    {
        res.push(c);
    }
    res
}

/// `String::push`: appends one character to the string.
#[verifier::external_body]
fn push_char(s: &mut String, c: char)
    ensures
        final(s)@ == old(s)@.push(c),
{
    s.push(c)
}

/// The string made of the characters of `v`.
pub fn string_of(v: &Vec<char>) -> (res: String)
    ensures
        res@ == v@,
{
    let mut res = String::new();
    let mut i: usize = 0;
    while i < v.len()
        invariant
            i <= v.len(),
            res@ == v@.take(i as int),
        decreases v.len() - i,
    {
        push_char(&mut res, v[i]);
        assert(v@.take(i + 1) =~= v@.take(i as int).push(v@[i as int]));
        i += 1;
    }
    assert(v@.take(v.len() as int) =~= v@);
    res
}

/// Appends the characters of `src` to `dst`.
pub fn extend_chars(dst: &mut Vec<char>, src: &Vec<char>)
    ensures
        final(dst)@ == old(dst)@ + src@,
{
    let mut i: usize = 0;
    while i < src.len()
        invariant
            i <= src.len(),
            dst@ == old(dst)@ + src@.take(i as int),
        decreases src.len() - i,
    {
        dst.push(src[i]);
        assert(src@.take(i + 1) =~= src@.take(i as int).push(src@[i as int]));
        i += 1;
    }
    assert(src@.take(src.len() as int) =~= src@);
}

/// Appends the characters of `src` to `dst`.
pub fn extend_str(dst: &mut Vec<char>, src: &str)
    ensures
        final(dst)@ == old(dst)@ + src@,
{
    let cs = chars_of(src);
    extend_chars(dst, &cs);
}

/// The two sequences are equal.
pub fn chars_equal(a: &Vec<char>, b: &Vec<char>) -> (r: bool)
    ensures
        r == (a@ == b@),
{
    if a.len() != b.len() {
        return false;
    }
    let mut i: usize = 0;
    while i < a.len()
        invariant
            a.len() == b.len(),
            i <= a.len(),
            forall|k: int| 0 <= k < i ==> a@[k] == b@[k],
        decreases a.len() - i,
    {
        if a[i] != b[i] {
            return false;
        }
        i += 1;
    }
    assert(a@ =~= b@);
    true
}

/// `p` occurs in `s` at position `i`.
fn occurs_at_exec(s: &Vec<char>, p: &Vec<char>, i: usize) -> (r: bool)
    ensures
        r == occurs_at(s@, p@, i as int),
{
    if i > s.len() || p.len() > s.len() - i {
        return false;
    }
    let mut k: usize = 0;
    while k < p.len()
        invariant
            i + p.len() <= s.len(),
            k <= p.len(),
            forall|j: int| 0 <= j < k ==> s@[i + j] == p@[j],
        decreases p.len() - k,
    {
        if s[i + k] != p[k] {
            assert(s@.subrange(i as int, i + p.len())[k as int] != p@[k as int]);
            return false;
        }
        k += 1;
    }
    assert(s@.subrange(i as int, i + p.len()) =~= p@);
    true
}

/// `p` is a prefix of `s`.
pub fn starts_with_exec(s: &Vec<char>, p: &Vec<char>) -> (r: bool)
    ensures
        r == starts_with(s@, p@),
{
    occurs_at_exec(s, p, 0)
}

/// `p` occurs somewhere in `s`.
pub fn contains_exec(s: &Vec<char>, p: &Vec<char>) -> (r: bool)
    ensures
        r == contains(s@, p@),
{
    if p.len() > s.len() {
        assert forall|i: int| !occurs_at(s@, p@, i) by {}
        return false;
    }
    let last = s.len() - p.len();
    let mut i: usize = 0;
    loop
        invariant
            last == s.len() - p.len(),
            i <= last,
            forall|j: int| 0 <= j < i ==> !occurs_at(s@, p@, j),
        ensures
            forall|j: int| 0 <= j <= last ==> !occurs_at(s@, p@, j),
        decreases last - i,
    {
        if occurs_at_exec(s, p, i) {
            return true;
        }
        if i == last {
            break;
        }
        i += 1;
    }
    assert forall|j: int| !occurs_at(s@, p@, j) by {}
    false
}

/// `a` comes strictly before `b` in code-point lexicographic order.
pub fn lex_less_exec(a: &Vec<char>, b: &Vec<char>) -> (r: bool)
    ensures
        r == lex_less(a@, b@),
{
    let mut i: usize = 0;
    while i < a.len() && i < b.len()
        invariant
            i <= a.len(),
            i <= b.len(),
            forall|k: int| 0 <= k < i ==> a@[k] == b@[k],
        decreases a.len() - i,
    {
        if a[i] != b[i] {
            proof {
                lemma_lex_less_skip(a@, b@, i as int);
            }
            return a[i] < b[i];
        }
        i += 1;
    }
    proof {
        lemma_lex_less_skip(a@, b@, i as int);
    }
    a.len() < b.len()
}


// ---------------------------------------------------------------------------
// Whitespace
// ---------------------------------------------------------------------------

/// The characters with the Unicode `White_Space` property.
pub open spec fn is_white_space(c: char) -> bool {
    let u = c as int;
    ||| 0x9 <= u <= 0xd
    ||| u == 0x20
    ||| u == 0x85
    ||| u == 0xa0
    ||| u == 0x1680
    ||| 0x2000 <= u <= 0x200a
    ||| u == 0x2028
    ||| u == 0x2029
    ||| u == 0x202f
    ||| u == 0x205f
    ||| u == 0x3000
}

/// Whether `c` has the Unicode `White_Space` property (what `char::is_whitespace` decides).
pub fn char_is_whitespace(c: char) -> (r: bool)
    ensures
        r == is_white_space(c),
{
    ('\u{9}' <= c && c <= '\u{d}') || c == ' ' || c == '\u{85}' || c == '\u{a0}' || c
        == '\u{1680}' || ('\u{2000}' <= c && c <= '\u{200a}') || c == '\u{2028}' || c
        == '\u{2029}' || c == '\u{202f}' || c == '\u{205f}' || c == '\u{3000}'
}

/// Number of leading characters of `s` before the first whitespace.
pub open spec fn leading_word_len(s: Seq<char>) -> nat
    decreases s.len(),
{
    if s.len() == 0 || is_white_space(s[0]) {
        0
    } else {
        1 + leading_word_len(s.drop_first())
    }
}

pub proof fn lemma_leading_word_len_bound(s: Seq<char>)
    ensures
        leading_word_len(s) <= s.len(),
        s.len() > 0 && !is_white_space(s[0]) ==> leading_word_len(s) >= 1,
    decreases s.len(),
{
    if s.len() > 0 {
        lemma_leading_word_len_bound(s.drop_first());
    }
}

/// The maximal runs of non-whitespace characters of `s`, in order: what
/// `str::split_whitespace` yields.
pub open spec fn whitespace_words(s: Seq<char>) -> Seq<Seq<char>>
    decreases s.len(),
{
    if s.len() == 0 {
        seq![]
    } else if is_white_space(s[0]) {
        whitespace_words(s.drop_first())
    } else {
        let n = leading_word_len(s);
        proof {
            lemma_leading_word_len_bound(s);
        }
        seq![s.take(n as int)] + whitespace_words(s.skip(n as int))
    }
}

proof fn lemma_leading_word_len_exact(t: Seq<char>, m: int)
    requires
        0 <= m <= t.len(),
        forall|k: int| 0 <= k < m ==> !is_white_space(t[k]),
        m == t.len() || is_white_space(t[m]),
    ensures
        leading_word_len(t) == m,
    decreases m,
{
    if m > 0 {
        lemma_leading_word_len_exact(t.drop_first(), m - 1);
    }
}

/// The contents of each vector of characters.
pub open spec fn views(v: Seq<Vec<char>>) -> Seq<Seq<char>> {
    v.map_values(|w: Vec<char>| w@)
}

/// The words of `s` separated by whitespace.
pub fn split_whitespace(s: &Vec<char>) -> (res: Vec<Vec<char>>)
    ensures
        views(res@) == whitespace_words(s@),
{
    let n = s.len();
    let mut res: Vec<Vec<char>> = Vec::new();
    let mut i: usize = 0;
    assert(s@.skip(0) =~= s@);
    while i < n
        invariant
            n == s.len(),
            i <= n,
            whitespace_words(s@) == views(res@) + whitespace_words(s@.skip(i as int)),
        decreases n - i,
    {
        let ghost t = s@.skip(i as int);
        if char_is_whitespace(s[i]) {
            assert(t.drop_first() =~= s@.skip(i + 1));
            i += 1;
        } else {
            let start = i;
            let mut w: Vec<char> = Vec::new();
            loop
                invariant
                    n == s.len(),
                    start < n,
                    start <= i <= n,
                    w@ == s@.subrange(start as int, i as int),
                    forall|k: int| start <= k < i ==> !is_white_space(#[trigger] s@[k]),
                    !is_white_space(s@[start as int]),
                ensures
                    start < i <= n,
                    w@ == s@.subrange(start as int, i as int),
                    forall|k: int| start <= k < i ==> !is_white_space(#[trigger] s@[k]),
                    i == n || is_white_space(s@[i as int]),
                decreases n - i,
            {
                if i >= n {
                    break;
                }
                if char_is_whitespace(s[i]) {
                    break;
                }
                w.push(s[i]);
                assert(w@ =~= s@.subrange(start as int, i + 1));
                i += 1;
            }
            proof {
                let m = i - start;
                assert forall|k: int| 0 <= k < m implies !is_white_space(t[k]) by {
                    assert(t[k] == s@[start + k]);
                }
                lemma_leading_word_len_exact(t, m as int);
                assert(t.take(m as int) =~= w@);
                assert(t.skip(m as int) =~= s@.skip(i as int));
            }
            let ghost before = views(res@);
            res.push(w);
            assert(views(res@) =~= before.push(w@));
            assert(before.push(w@) + whitespace_words(s@.skip(i as int)) =~= before + (seq![w@]
                + whitespace_words(s@.skip(i as int))));
        }
    }
    assert(s@.skip(n as int) =~= Seq::<char>::empty());
    assert(views(res@) + Seq::<Seq<char>>::empty() =~= views(res@));
    res
}

/// `s` without its leading whitespace.
pub open spec fn trim_start(s: Seq<char>) -> Seq<char>
    decreases s.len(),
{
    if s.len() > 0 && is_white_space(s[0]) {
        trim_start(s.drop_first())
    } else {
        s
    }
}

/// `s` without its trailing whitespace.
pub open spec fn trim_end(s: Seq<char>) -> Seq<char>
    decreases s.len(),
{
    if s.len() > 0 && is_white_space(s.last()) {
        trim_end(s.drop_last())
    } else {
        s
    }
}

/// `s` without leading and trailing whitespace: what `str::trim` gives.
pub open spec fn trim(s: Seq<char>) -> Seq<char> {
    trim_end(trim_start(s))
}

/// Removes leading and trailing whitespace.
pub fn trim_exec(s: &Vec<char>) -> (res: Vec<char>)
    ensures
        res@ == trim(s@),
{
    let n = s.len();
    let mut a: usize = 0;
    assert(s@.skip(0) =~= s@);
    while a < n
        invariant
            n == s.len(),
            a <= n,
            trim_start(s@) == trim_start(s@.skip(a as int)),
        ensures
            a <= n,
            trim_start(s@) == trim_start(s@.skip(a as int)),
            a == n || !is_white_space(s@[a as int]),
        decreases n - a,
    {
        if !char_is_whitespace(s[a]) {
            break;
        }
        assert(s@.skip(a as int).drop_first() =~= s@.skip(a + 1));
        a += 1;
    }
    let ghost u = s@.skip(a as int);
    assert(trim_start(s@) == u);
    let mut b: usize = n;
    assert(u.take(u.len() as int) =~= u);
    while b > a
        invariant
            n == s.len(),
            a <= b <= n,
            u == s@.skip(a as int),
            trim_end(u) == trim_end(s@.subrange(a as int, b as int)),
        ensures
            a <= b <= n,
            trim_end(u) == trim_end(s@.subrange(a as int, b as int)),
            b == a || !is_white_space(s@[b - 1]),
        decreases b,
    {
        if !char_is_whitespace(s[b - 1]) {
            break;
        }
        assert(s@.subrange(a as int, b as int).drop_last() =~= s@.subrange(a as int, b - 1));
        b -= 1;
    }
    let mut res: Vec<char> = Vec::new();
    let mut k: usize = a;
    while k < b
        invariant
            a <= k <= b <= n,
            n == s.len(),
            res@ == s@.subrange(a as int, k as int),
        decreases b - k,
    {
        res.push(s[k]);
        assert(res@ =~= s@.subrange(a as int, k + 1));
        k += 1;
    }
    res
}

/// `s` without its leading occurrences of `c`: what `str::trim_start_matches(c)` gives.
pub open spec fn strip_leading(s: Seq<char>, c: char) -> Seq<char>
    decreases s.len(),
{
    if s.len() > 0 && s[0] == c {
        strip_leading(s.drop_first(), c)
    } else {
        s
    }
}

/// Removes every leading occurrence of `c`.
pub fn strip_leading_exec(s: &Vec<char>, c: char) -> (res: Vec<char>)
    ensures
        res@ == strip_leading(s@, c),
{
    let n = s.len();
    let mut a: usize = 0;
    assert(s@.skip(0) =~= s@);
    while a < n
        invariant
            n == s.len(),
            a <= n,
            strip_leading(s@, c) == strip_leading(s@.skip(a as int), c),
        ensures
            a <= n,
            strip_leading(s@, c) == strip_leading(s@.skip(a as int), c),
            a == n || s@[a as int] != c,
        decreases n - a,
    {
        if s[a] != c {
            break;
        }
        assert(s@.skip(a as int).drop_first() =~= s@.skip(a + 1));
        a += 1;
    }
    let mut res: Vec<char> = Vec::new();
    let mut k: usize = a;
    while k < n
        invariant
            a <= k <= n,
            n == s.len(),
            res@ == s@.subrange(a as int, k as int),
        decreases n - k,
    {
        res.push(s[k]);
        assert(res@ =~= s@.subrange(a as int, k + 1));
        k += 1;
    }
    assert(res@ =~= s@.skip(a as int));
    res
}


// ---------------------------------------------------------------------------
// Case folding
// ---------------------------------------------------------------------------

/// What `str::to_lowercase` gives for a string: its characters mapped by the
/// Unicode `Lowercase` mapping (full mappings, with the final-sigma rule).
pub uninterp spec fn lowercase_of(s: Seq<char>) -> Seq<char>;

/// `str::to_lowercase`: the lowercase equivalent of `s`, a function of `s` alone.
/// The contract also says that the result is empty exactly when `s` is: the
/// documentation maps each character to its lowercase mapping, which
/// `char::to_lowercase` documents as one or more characters. What the mapping
/// of a given character is stays unsaid (`lowercase_of` names it).
#[verifier::external_body]
pub(crate) fn to_lowercase(s: &str) -> (res: String)
    ensures
        res@ == lowercase_of(s@),
        s@.len() == 0 ==> res@.len() == 0,
        s@.len() > 0 ==> res@.len() > 0,
{
    s.to_lowercase()
}

/// The lowercase equivalent of `s`, as characters.
pub fn lowercase_chars(s: &str) -> (res: Vec<char>)
    ensures
        res@ == lowercase_of(s@),
        s@.len() == 0 ==> res@.len() == 0,
        s@.len() > 0 ==> res@.len() > 0,
{
    let lowered = to_lowercase(s);
    chars_of(lowered.as_str())
}

// ---------------------------------------------------------------------------
// Decimal numbers
// ---------------------------------------------------------------------------

/// The ASCII digit for `d` (for `0 <= d <= 9`).
pub open spec fn digit_char(d: int) -> char {
    if d == 0 {
        '0'
    } else if d == 1 {
        '1'
    } else if d == 2 {
        '2'
    } else if d == 3 {
        '3'
    } else if d == 4 {
        '4'
    } else if d == 5 {
        '5'
    } else if d == 6 {
        '6'
    } else if d == 7 {
        '7'
    } else if d == 8 {
        '8'
    } else {
        '9'
    }
}

/// The decimal representation of `n`, without leading zeros.
pub open spec fn decimal(n: nat) -> Seq<char>
    decreases n,
{
    if n < 10 {
        seq![digit_char(n as int)]
    } else {
        decimal(n / 10).push(digit_char((n % 10) as int))
    }
}

fn digit_exec(d: usize) -> (c: char)
    requires
        d < 10,
    ensures
        c == digit_char(d as int),
{
    if d == 0 {
        '0'
    } else if d == 1 {
        '1'
    } else if d == 2 {
        '2'
    } else if d == 3 {
        '3'
    } else if d == 4 {
        '4'
    } else if d == 5 {
        '5'
    } else if d == 6 {
        '6'
    } else if d == 7 {
        '7'
    } else if d == 8 {
        '8'
    } else {
        '9'
    }
}

/// Appends the decimal representation of `n`.
pub fn push_decimal(out: &mut Vec<char>, n: usize)
    ensures
        final(out)@ == old(out)@ + decimal(n as nat),
    decreases n,
{
    if n < 10 {
        out.push(digit_exec(n));
        assert(old(out)@.push(digit_char(n as int)) =~= old(out)@ + seq![digit_char(n as int)]);
    } else {
        push_decimal(out, n / 10);
        out.push(digit_exec(n % 10));
        assert((old(out)@ + decimal((n / 10) as nat)).push(digit_char((n % 10) as int)) =~= old(
            out,
        )@ + decimal((n / 10) as nat).push(digit_char((n % 10) as int)));
    }
}

/// The decimal representation of `n` is made of ASCII digits whose value is `n`.
pub proof fn lemma_decimal_value(n: nat)
    ensures
        decimal(n).len() > 0,
        all_digits(decimal(n)),
        digits_value(decimal(n)) == n,
    decreases n,
{
    if n < 10 {
        let s = decimal(n);
        assert(s.drop_last() =~= Seq::<char>::empty());
        assert(s.last() == digit_char(n as int));
        assert(digit_value(digit_char(n as int)) == n);
        assert(digits_value(s) == digits_value(s.drop_last()) * 10 + digit_value(s.last()));
    } else {
        lemma_decimal_value(n / 10);
        let s = decimal(n);
        let prev = decimal(n / 10);
        assert(s.drop_last() =~= prev);
        assert(digit_value(digit_char((n % 10) as int)) == n % 10);
        assert(s.last() == digit_char((n % 10) as int));
        assert(digits_value(s) == digits_value(prev) * 10 + digit_value(s.last()));
        assert((n / 10) * 10 + n % 10 == n) by (nonlinear_arith);
        assert forall|i: int| 0 <= i < s.len() implies is_digit(#[trigger] s[i]) by {
            if i < prev.len() {
                assert(s[i] == prev[i]);
            }
        }
    }
}

/// An ASCII decimal digit.
pub open spec fn is_digit(c: char) -> bool {
    48 <= (c as int) <= 57
}

/// The value of the ASCII digit `c`.
pub open spec fn digit_value(c: char) -> nat {
    ((c as int) - 48) as nat
}

/// The value of a sequence of ASCII digits, most significant first.
pub open spec fn digits_value(s: Seq<char>) -> nat
    decreases s.len(),
{
    if s.len() == 0 {
        0
    } else {
        digits_value(s.drop_last()) * 10 + digit_value(s.last())
    }
}

/// Every character of `s` is an ASCII digit.
pub open spec fn all_digits(s: Seq<char>) -> bool {
    forall|i: int| 0 <= i < s.len() ==> is_digit(#[trigger] s[i])
}

/// The digits part of an unsigned number: `s` without one leading `+`.
pub open spec fn unsigned_digits(s: Seq<char>) -> Seq<char> {
    if s.len() > 0 && s[0] == '+' {
        s.drop_first()
    } else {
        s
    }
}

/// What `FromStr` for an unsigned integer type whose largest value is `max`
/// gives for `s`: an optional `+` followed by at least one ASCII digit, whose
/// value must not exceed `max`.
pub open spec fn parse_unsigned(s: Seq<char>, max: nat) -> Option<nat> {
    let d = unsigned_digits(s);
    if d.len() > 0 && all_digits(d) && digits_value(d) <= max {
        Some(digits_value(d))
    } else {
        None
    }
}

proof fn lemma_digits_value_prefix(s: Seq<char>, k: int)
    requires
        0 <= k <= s.len(),
        all_digits(s),
    ensures
        digits_value(s.take(k)) <= digits_value(s),
    decreases s.len(),
{
    if k < s.len() {
        assert(all_digits(s.drop_last())) by {
            assert forall|i: int| 0 <= i < s.drop_last().len() implies is_digit(
                #[trigger] s.drop_last()[i],
            ) by {
                assert(s.drop_last()[i] == s[i]);
            }
        }
        lemma_digits_value_prefix(s.drop_last(), k);
        assert(s.drop_last().take(k) =~= s.take(k));
    } else {
        assert(s.take(k) =~= s);
    }
}

/// Parses an unsigned decimal number no larger than `max`.
pub fn parse_unsigned_exec(s: &Vec<char>, max: u64) -> (res: Option<u64>)
    ensures
        match res {
            Some(v) => parse_unsigned(s@, max as nat) == Some(v as nat),
            None => parse_unsigned(s@, max as nat) is None,
        },
{
    let n = s.len();
    let start: usize = if n > 0 && s[0] == '+' {
        1
    } else {
        0
    };
    let ghost d = unsigned_digits(s@);
    assert(d =~= s@.skip(start as int));
    if start == n {
        return None;
    }
    let mut value: u64 = 0;
    let mut i: usize = start;
    while i < n
        invariant
            n == s.len(),
            start <= i <= n,
            start < n,
            d == s@.skip(start as int),
            d == unsigned_digits(s@),
            value as nat == digits_value(d.take(i - start)),
            value <= max,
            forall|k: int| start <= k < i ==> is_digit(#[trigger] s@[k]),
        decreases n - i,
    {
        let c = s[i];
        if !('0' <= c && c <= '9') {
            assert(!is_digit(d[i - start]));
            assert(!all_digits(d));
            return None;
        }
        let dig: u64 = if c == '0' {
            0
        } else if c == '1' {
            1
        } else if c == '2' {
            2
        } else if c == '3' {
            3
        } else if c == '4' {
            4
        } else if c == '5' {
            5
        } else if c == '6' {
            6
        } else if c == '7' {
            7
        } else if c == '8' {
            8
        } else {
            9
        };
        assert(dig as nat == digit_value(c));
        assert(d.take(i + 1 - start).drop_last() =~= d.take(i - start));
        assert(d.take(i + 1 - start).last() == c);
        assert(digits_value(d.take(i + 1 - start)) == value * 10 + dig);
        if dig > max || value > (max - dig) / 10 {
            proof {
                assert(value * 10 + dig > max) by (nonlinear_arith)
                    requires
                        dig > max || value > (max - dig) / 10,
                        dig <= 9,
                ;
                // the whole number, if made of digits, is at least this prefix
                if all_digits(d) {
                    lemma_digits_value_prefix(d, i + 1 - start);
                    assert(digits_value(d) > max);
                }
            }
            return None;
        }
        proof {
            assert(value * 10 + dig <= max) by (nonlinear_arith)
                requires
                    dig <= max,
                    value <= (max - dig) / 10,
            ;
        }
        value = value * 10 + dig;
        i += 1;
    }
    assert(d.take(n - start) =~= d);
    assert(all_digits(d)) by {
        assert forall|k: int| 0 <= k < d.len() implies is_digit(#[trigger] d[k]) by {
            assert(d[k] == s@[start + k]);
        }
    }
    Some(value)
}

/// Parses an unsigned decimal number.
pub fn parse_unsigned_str(s: &str, max: u64) -> (res: Option<u64>)
    ensures
        match res {
            Some(v) => parse_unsigned(s@, max as nat) == Some(v as nat),
            None => parse_unsigned(s@, max as nat) is None,
        },
{
    let cs = chars_of(s);
    parse_unsigned_exec(&cs, max)
}

// ---------------------------------------------------------------------------
// Splitting on a separator
// ---------------------------------------------------------------------------

/// The pieces of `s` between occurrences of `sep`: what `str::split(sep)` yields
/// (always at least one piece; adjacent separators give empty pieces).
pub open spec fn split_on(s: Seq<char>, sep: char) -> Seq<Seq<char>>
    decreases s.len(),
{
    if s.len() == 0 {
        seq![Seq::<char>::empty()]
    } else {
        let prev = split_on(s.drop_last(), sep);
        if s.last() == sep {
            prev.push(Seq::<char>::empty())
        } else {
            prev.update(prev.len() - 1, prev.last().push(s.last()))
        }
    }
}

/// Splits `s` at every occurrence of `sep`.
pub fn split_on_exec(s: &Vec<char>, sep: char) -> (res: Vec<Vec<char>>)
    ensures
        views(res@) == split_on(s@, sep),
{
    let mut done: Vec<Vec<char>> = Vec::new();
    let mut cur: Vec<char> = Vec::new();
    let mut i: usize = 0;
    assert(s@.take(0) =~= Seq::<char>::empty());
    assert(views(done@).push(cur@) =~= seq![Seq::<char>::empty()]);
    while i < s.len()
        invariant
            i <= s.len(),
            split_on(s@.take(i as int), sep) == views(done@).push(cur@),
        decreases s.len() - i,
    {
        let ghost t = s@.take(i + 1);
        assert(t.drop_last() =~= s@.take(i as int));
        assert(t.last() == s@[i as int]);
        if s[i] == sep {
            let ghost before = views(done@);
            let finished = cur;
            done.push(finished);
            cur = Vec::new();
            assert(views(done@) =~= before.push(finished@));
            assert(views(done@).push(cur@) =~= before.push(finished@).push(Seq::<char>::empty()));
        } else {
            let ghost prev = views(done@).push(cur@);
            cur.push(s[i]);
            assert(views(done@).push(cur@) =~= prev.update(prev.len() - 1, prev.last().push(
                s@[i as int],
            )));
        }
        i += 1;
    }
    assert(s@.take(s.len() as int) =~= s@);
    let ghost before = views(done@);
    done.push(cur);
    assert(views(done@) =~= before.push(cur@));
    done
}

// ---------------------------------------------------------------------------
// Edit distance
// ---------------------------------------------------------------------------

pub open spec fn min3(a: nat, b: nat, c: nat) -> nat {
    if a <= b && a <= c {
        a
    } else if b <= c {
        b
    } else {
        c
    }
}

/// The Levenshtein distance between two character sequences: the least number
/// of single-character insertions, deletions and substitutions that turn `a`
/// into `b`.
pub open spec fn edit_distance(a: Seq<char>, b: Seq<char>) -> nat
    decreases a.len() + b.len(),
{
    if a.len() == 0 {
        b.len()
    } else if b.len() == 0 {
        a.len()
    } else {
        min3(
            edit_distance(a.drop_last(), b) + 1,
            edit_distance(a, b.drop_last()) + 1,
            edit_distance(a.drop_last(), b.drop_last()) + (if a.last() == b.last() {
                0nat
            } else {
                1nat
            }),
        )
    }
}

} // verus!
