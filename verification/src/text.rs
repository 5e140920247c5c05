//! Character sequences: conversion to and from strings, lexicographic
//! comparison, case folding, decimal numerals and thousands separators.

use vstd::prelude::*;

verus! {

/// The outcome of comparing two keys.
#[derive(Clone, Copy, Debug, PartialEq, Eq, Structural)]
pub enum Comparison {
    Less,
    Equal,
    Greater,
}

/// The characters of `s`, in order.
pub fn chars_of(s: &str) -> (r: Vec<char>)
    ensures
        r@ == s@,
{
    broadcast use vstd::string::group_string_axioms;

    let mut r: Vec<char> = Vec::new();
    for c in it: s.chars()
        invariant
            it.seq() == s@,
            r@ == it.seq().take(it.index() as int),
    {
        r.push(c);
    }
    r
}

/// Calls `String`'s `FromIterator<&char>` (through `collect`); claims that
/// the string holds the characters of `v`, in order.
#[verifier::external_body]
pub(crate) fn string_of(v: &Vec<char>) -> (r: String)
    ensures
        r@ == v@,
{
    v.iter().collect()
}

/// The lowercase form of a string, as `str::to_lowercase` gives it: Unicode
/// lowercase mapping, a function of the characters alone.
pub uninterp spec fn lowercase(s: Seq<char>) -> Seq<char>;

/// Calls `str::to_lowercase`; claims that the characters of the result are
/// `lowercase` of the characters of `s`.
#[verifier::external_body]
fn lowercase_string(s: &str) -> (r: String)
    ensures
        r@ == lowercase(s@),
{
    s.to_lowercase()
}

/// The characters of the lowercase form of `s`.
pub fn lowercase_chars(s: &str) -> (r: Vec<char>)
    ensures
        r@ == lowercase(s@),
{
    let lower = lowercase_string(s);
    chars_of(lower.as_str())
}

/// Lexicographic order on characters by code point, the order of `str`'s
/// `Ord`.
pub open spec fn lex_compare(a: Seq<char>, b: Seq<char>) -> Comparison
    decreases a.len(),
{
    if a.len() == 0 {
        if b.len() == 0 {
            Comparison::Equal
        } else {
            Comparison::Less
        }
    } else if b.len() == 0 {
        Comparison::Greater
    } else if a[0] < b[0] {
        Comparison::Less
    } else if a[0] > b[0] {
        Comparison::Greater
    } else {
        lex_compare(a.drop_first(), b.drop_first())
    }
}

/// Lexicographic comparison is antisymmetric: swapping the sides swaps
/// `Less` and `Greater`, and `Equal` holds exactly of equal sequences.
pub proof fn lemma_lex_compare_flip(a: Seq<char>, b: Seq<char>)
    ensures
        (lex_compare(a, b) == Comparison::Less) <==> (lex_compare(b, a) == Comparison::Greater),
        (lex_compare(a, b) == Comparison::Equal) <==> (a == b),
    decreases a.len(),
{
    if a.len() > 0 && b.len() > 0 && a[0] == b[0] {
        let (ra, rb) = (a.drop_first(), b.drop_first());
        lemma_lex_compare_flip(ra, rb);
        assert(lex_compare(a, b) == lex_compare(ra, rb));
        assert(lex_compare(b, a) == lex_compare(rb, ra));
        if ra == rb {
            assert(a =~= seq![a[0]] + ra);
            assert(b =~= seq![b[0]] + rb);
            assert(a == b);
        }
        if a == b {
            assert(ra =~= rb);
        }
    } else if a.len() > 0 && b.len() > 0 {
        assert(a[0] != b[0]);
        assert(a != b);
    } else if a.len() == 0 && b.len() == 0 {
        assert(a =~= b);
    } else {
        assert(a.len() != b.len());
    }
}

/// Lexicographic "not greater" is transitive.
pub proof fn lemma_lex_compare_transitive(a: Seq<char>, b: Seq<char>, c: Seq<char>)
    requires
        lex_compare(a, b) != Comparison::Greater,
        lex_compare(b, c) != Comparison::Greater,
    ensures
        lex_compare(a, c) != Comparison::Greater,
    decreases a.len(),
{
    if a.len() > 0 && b.len() > 0 && c.len() > 0 && a[0] == b[0] && b[0] == c[0] {
        lemma_lex_compare_transitive(a.drop_first(), b.drop_first(), c.drop_first());
    }
}

/// Compares `a` and `b` lexicographically.
pub fn compare_chars(a: &Vec<char>, b: &Vec<char>) -> (r: Comparison)
    ensures
        r == lex_compare(a@, b@),
{
    let mut i: usize = 0;
    assert(a@.skip(0) =~= a@);
    assert(b@.skip(0) =~= b@);
    while i < a.len() && i < b.len()
        invariant
            i <= a@.len(),
            i <= b@.len(),
            lex_compare(a@, b@) == lex_compare(a@.skip(i as int), b@.skip(i as int)),
        decreases a@.len() - i,
    {
        let x = a[i];
        let y = b[i];
        if x < y {
            return Comparison::Less;
        }
        if x > y {
            return Comparison::Greater;
        }
        assert(a@.skip(i as int).drop_first() =~= a@.skip(i + 1));
        assert(b@.skip(i as int).drop_first() =~= b@.skip(i + 1));
        i = i + 1;
    }
    if i < b.len() {
        Comparison::Less
    } else if i < a.len() {
        Comparison::Greater
    } else {
        Comparison::Equal
    }
}

/// The character of the decimal digit `d`.
pub open spec fn digit_char(d: int) -> char {
    if d == 0 {
        '0'
    } else if d == 1 {
        '1'
    } else if d == 2 {
        '2'
    } else if d == 3 {
        '3'
    } else if d == 4 {
        '4'
    } else if d == 5 {
        '5'
    } else if d == 6 {
        '6'
    } else if d == 7 {
        '7'
    } else if d == 8 {
        '8'
    } else {
        '9'
    }
}

fn digit(d: u64) -> (c: char)
    requires
        d < 10,
    ensures
        c == digit_char(d as int),
{
    if d == 0 {
        '0'
    } else if d == 1 {
        '1'
    } else if d == 2 {
        '2'
    } else if d == 3 {
        '3'
    } else if d == 4 {
        '4'
    } else if d == 5 {
        '5'
    } else if d == 6 {
        '6'
    } else if d == 7 {
        '7'
    } else if d == 8 {
        '8'
    } else {
        '9'
    }
}

/// The decimal numeral of `n`, without leading zeros.
pub open spec fn decimal(n: nat) -> Seq<char>
    decreases n,
{
    if n < 10 {
        seq![digit_char(n as int)]
    } else {
        decimal(n / 10).push(digit_char((n % 10) as int))
    }
}

/// The decimal numeral of `n`, with a leading `-` when it is negative.
pub open spec fn signed_decimal(n: int) -> Seq<char> {
    if n < 0 {
        seq!['-'] + decimal((-n) as nat)
    } else {
        decimal(n as nat)
    }
}

/// The decimal numeral of `n`.
pub fn decimal_u64(n: u64) -> (r: Vec<char>)
    ensures
        r@ == decimal(n as nat),
    decreases n,
{
    if n < 10 {
        vec![digit(n)]
    } else {
        let mut r = decimal_u64(n / 10);
        r.push(digit(n % 10));
        r
    }
}

/// The decimal numeral of `n`, as `i64`'s `Display` writes it.
pub fn decimal_i64(n: i64) -> (r: Vec<char>)
    ensures
        r@ == signed_decimal(n as int),
{
    if n < 0 {
        let magnitude: u64 = (0i128 - (n as i128)) as u64;
        let digits = decimal_u64(magnitude);
        let mut r: Vec<char> = vec!['-'];
        let mut i: usize = 0;
        while i < digits.len()
            invariant
                i <= digits@.len(),
                r@ == seq!['-'] + digits@.take(i as int),
            decreases digits@.len() - i,
        {
            r.push(digits[i]);
            assert(digits@.take(i + 1) =~= digits@.take(i as int).push(digits@[i as int]));
            i = i + 1;
        }
        assert(digits@.take(i as int) =~= digits@);
        r
    } else {
        decimal_u64(n as u64)
    }
}

/// Appends the characters of `tail` to `v`.
pub fn extend_chars(v: &mut Vec<char>, tail: &Vec<char>)
    ensures
        final(v)@ == old(v)@ + tail@,
{
    let mut i: usize = 0;
    while i < tail.len()
        invariant
            i <= tail@.len(),
            v@ == old(v)@ + tail@.take(i as int),
        decreases tail@.len() - i,
    {
        v.push(tail[i]);
        assert(tail@.take(i + 1) =~= tail@.take(i as int).push(tail@[i as int]));
        i = i + 1;
    }
    assert(tail@.take(i as int) =~= tail@);
}

/// `s` with a comma after each character that has a positive multiple of
/// three characters after it: the thousands separators of a run of digits.
pub open spec fn group_thousands(s: Seq<char>) -> Seq<char>
    decreases s.len(),
{
    if s.len() == 0 {
        s
    } else {
        let rest = s.drop_first();
        if rest.len() > 0 && rest.len() % 3 == 0 {
            seq![s[0], ','] + group_thousands(rest)
        } else {
            seq![s[0]] + group_thousands(rest)
        }
    }
}

/// `s` with its commas removed.
pub open spec fn without_commas(s: Seq<char>) -> Seq<char>
    decreases s.len(),
{
    if s.len() == 0 {
        s
    } else if s[0] == ',' {
        without_commas(s.drop_first())
    } else {
        seq![s[0]] + without_commas(s.drop_first())
    }
}

/// The index of the first `.` in `s`, or its length when there is none.
pub open spec fn first_dot(s: Seq<char>) -> int
    decreases s.len(),
{
    if s.len() == 0 {
        0
    } else if s[0] == '.' {
        0
    } else {
        1 + first_dot(s.drop_first())
    }
}

/// A formatted number with thousands separators in the part before its
/// first `.`; the `.` and what follows it are kept when something follows
/// it, and dropped when nothing does.
pub open spec fn with_thousands_separators(s: Seq<char>) -> Seq<char> {
    let k = first_dot(s);
    let whole = s.take(k);
    let fraction = if k < s.len() {
        s.skip(k + 1)
    } else {
        Seq::empty()
    };
    if fraction.len() == 0 {
        group_thousands(whole)
    } else {
        group_thousands(whole) + seq!['.'] + fraction
    }
}

proof fn lemma_first_dot(s: Seq<char>, k: int)
    requires
        0 <= k <= s.len(),
        k < s.len() ==> s[k] == '.',
        forall|j: int| 0 <= j < k ==> s[j] != '.',
    ensures
        first_dot(s) == k,
    decreases k,
{
    if k > 0 {
        assert(s[0] != '.');
        lemma_first_dot(s.drop_first(), k - 1);
    }
}

/// Inserts thousands separators into the whole part of a formatted number,
/// as `with_thousands_separators` describes.
pub fn insert_thousands_separators(formatted: &str) -> (r: String)
    ensures
        r@ == with_thousands_separators(formatted@),
{
    let s = chars_of(formatted);
    let n = s.len();
    let mut k: usize = 0;
    while k < n
        invariant
            k <= n,
            n == s@.len(),
            forall|j: int| 0 <= j < k ==> s@[j] != '.',
        ensures
            k <= n,
            k < n ==> s@[k as int] == '.',
            forall|j: int| 0 <= j < k ==> s@[j] != '.',
        decreases n - k,
    {
        if s[k] == '.' {
            break;
        }
        k = k + 1;
    }
    proof {
        lemma_first_dot(s@, k as int);
    }
    let ghost whole = s@.take(k as int);
    // builds the grouped whole part from its last character backwards
    let mut grouped: Vec<char> = Vec::new();
    let mut i: usize = 0;
    while i < k
        invariant
            i <= k,
            k <= n,
            n == s@.len(),
            whole == s@.take(k as int),
            grouped@ == group_thousands(whole.subrange(k - i, k as int)),
        decreases k - i,
    {
        let c = s[k - 1 - i];
        if i > 0 && i % 3 == 0 {
            grouped.insert(0, ',');
        }
        grouped.insert(0, c);
        proof {
            let suffix = whole.subrange(k - i, k as int);
            let longer = whole.subrange(k - i - 1, k as int);
            assert(longer.drop_first() =~= suffix);
            assert(longer[0] == c);
            assert(grouped@ =~= group_thousands(longer));
        }
        i = i + 1;
    }
    assert(whole.subrange(0, k as int) =~= whole);
    if k < n && k + 1 < n {
        grouped.push('.');
        let mut j: usize = k + 1;
        while j < n
            invariant
                k + 1 <= j <= n,
                n == s@.len(),
                grouped@ == group_thousands(whole) + seq!['.'] + s@.subrange(k + 1, j as int),
            decreases n - j,
        {
            grouped.push(s[j]);
            assert(s@.subrange(k + 1, j + 1) =~= s@.subrange(k + 1, j as int).push(s@[j as int]));
            j = j + 1;
        }
        assert(s@.subrange(k + 1, n as int) =~= s@.skip(k + 1));
    }
    string_of(&grouped)
}

/// Thousands separators are the only characters that grouping adds: taking
/// the commas out of the grouped form of a run without commas gives the run
/// back.
pub proof fn lemma_grouping_only_adds_commas(s: Seq<char>)
    requires
        forall|i: int| 0 <= i < s.len() ==> s[i] != ',',
    ensures
        without_commas(group_thousands(s)) == s,
    decreases s.len(),
{
    if s.len() > 0 {
        let rest = s.drop_first();
        lemma_grouping_only_adds_commas(rest);
        let g = group_thousands(rest);
        if rest.len() > 0 && rest.len() % 3 == 0 {
            let t = seq![s[0], ','] + g;
            let u = seq![','] + g;
            assert(t.drop_first() =~= u);
            assert(u.drop_first() =~= g);
            assert(u[0] == ',');
            assert(without_commas(u) == without_commas(g));
            assert(t[0] == s[0]);
            assert(without_commas(t) == seq![s[0]] + without_commas(u));
        } else {
            let t = seq![s[0]] + g;
            assert(t.drop_first() =~= g);
            assert(t[0] == s[0]);
            assert(without_commas(t) == seq![s[0]] + without_commas(g));
        }
        assert(s =~= seq![s[0]] + rest);
    }
}

/// The code of the digit character of `d` is that of `'0'` plus `d`.
pub proof fn lemma_digit_char_code(d: int)
    requires
        0 <= d <= 9,
    ensures
        digit_char(d) as u32 == 48 + d,
{
}

/// Where grouping puts each character of a run: the character at position
/// `k` of `s` moves right by the number of thousands separators before it,
/// `(n - 1) / 3 - (n - 1 - k) / 3` for a run of `n`; a comma follows it
/// exactly when a positive multiple of three characters follow it in the
/// run, whatever the character is; and the grouped run is `(n - 1) / 3`
/// characters longer.
pub proof fn lemma_grouping_positions(s: Seq<char>)
    ensures
        s.len() == 0 ==> group_thousands(s).len() == 0,
        s.len() > 0 ==> group_thousands(s).len() == s.len() + (s.len() - 1) / 3,
        forall|k: int|
            0 <= k < s.len() ==> group_thousands(s)[k + (s.len() - 1) / 3 - (s.len() - 1 - k) / 3]
                == #[trigger] s[k],
        forall|k: int|
            0 <= k < s.len() && s.len() - 1 - k > 0 && (s.len() - 1 - k) % 3 == 0 ==> #[trigger] group_thousands(
                s,
            )[k + (s.len() - 1) / 3 - (s.len() - 1 - k) / 3 + 1] == ',',
        forall|k: int|
            0 <= k < s.len() - 1 && (s.len() - 1 - k) % 3 != 0 ==> #[trigger] group_thousands(
                s,
            )[k + (s.len() - 1) / 3 - (s.len() - 1 - k) / 3 + 1] == s[k + 1],
    decreases s.len(),
{
    if s.len() > 0 {
        let n = s.len() as int;
        let m = n - 1;
        let rest = s.drop_first();
        let g = group_thousands(s);
        let gr = group_thousands(rest);
        lemma_grouping_positions(rest);
        let e: int = if m > 0 && m % 3 == 0 {
            1
        } else {
            0
        };
        if m > 0 && m % 3 == 0 {
            assert(g == seq![s[0], ','] + gr);
        } else {
            assert(g == seq![s[0]] + gr);
        }
        assert(forall|i: int| 0 <= i < gr.len() ==> g[1 + e + i] == #[trigger] gr[i]);
        assert(m > 0 ==> e + (m - 1) / 3 == m / 3);
        assert forall|k: int| 0 <= k < n implies g[k + (n - 1) / 3 - (n - 1 - k) / 3]
            == #[trigger] s[k] by {
            if k > 0 {
                let j = k - 1;
                assert(rest[j] == s[k]);
                assert(gr[j + (m - 1) / 3 - (m - 1 - j) / 3] == rest[j]);
            }
        }
        assert forall|k: int| 0 <= k < n && n - 1 - k > 0 && (n - 1 - k) % 3 == 0 implies #[trigger] g[k
            + (n - 1) / 3 - (n - 1 - k) / 3 + 1] == ',' by {
            if k > 0 {
                let j = k - 1;
                assert(gr[j + (m - 1) / 3 - (m - 1 - j) / 3 + 1] == ',');
            }
        }
        assert forall|k: int| 0 <= k < n - 1 && (n - 1 - k) % 3 != 0 implies #[trigger] g[k + (n - 1)
            / 3 - (n - 1 - k) / 3 + 1] == s[k + 1] by {
            assert(rest[k] == s[k + 1]);
            if k > 0 {
                let j = k - 1;
                assert(gr[j + (m - 1) / 3 - (m - 1 - j) / 3 + 1] == rest[j + 1]);
            } else {
                assert(gr[0 + (m - 1) / 3 - (m - 1) / 3] == rest[0]);
            }
        }
    }
}

/// A formatted number `whole.fraction` whose whole part has no `.` is
/// shown as the grouped whole part, `.` and the fraction, unchanged; a
/// number without `.` is shown grouped; a `.` with nothing after it is
/// dropped.
pub proof fn lemma_separators_split_at_first_dot(whole: Seq<char>, fraction: Seq<char>)
    requires
        forall|i: int| 0 <= i < whole.len() ==> whole[i] != '.',
    ensures
        with_thousands_separators(whole) == group_thousands(whole),
        fraction.len() > 0 ==> with_thousands_separators(whole + seq!['.'] + fraction)
            == group_thousands(whole) + seq!['.'] + fraction,
        with_thousands_separators(whole + seq!['.']) == group_thousands(whole),
{
    lemma_first_dot(whole, whole.len() as int);
    assert(whole.take(whole.len() as int) =~= whole);
    let s = whole + seq!['.'] + fraction;
    assert forall|j: int| 0 <= j < whole.len() implies s[j] != '.' by {
        assert(s[j] == whole[j]);
    }
    lemma_first_dot(s, whole.len() as int);
    assert(s.take(whole.len() as int) =~= whole);
    assert(s.skip(whole.len() as int + 1) =~= fraction);
    let t = whole + seq!['.'];
    assert forall|j: int| 0 <= j < whole.len() implies t[j] != '.' by {
        assert(t[j] == whole[j]);
    }
    lemma_first_dot(t, whole.len() as int);
    assert(t.take(whole.len() as int) =~= whole);
    assert(t.skip(whole.len() as int + 1) =~= Seq::<char>::empty());
}

/// `a` comes before `b` at their first difference: they agree on the first
/// `k` characters, and then `a` ends while `b` goes on, or `a`'s next
/// character has the smaller code.
pub open spec fn differs_first_below(a: Seq<char>, b: Seq<char>, k: int) -> bool {
    &&& 0 <= k <= a.len()
    &&& k <= b.len()
    &&& a.take(k) == b.take(k)
    &&& (k == a.len() && k < b.len()) || (k < a.len() && k < b.len() && a[k] < b[k])
}

proof fn lemma_less_has_first_difference(a: Seq<char>, b: Seq<char>)
    requires
        lex_compare(a, b) == Comparison::Less,
    ensures
        exists|k: int| differs_first_below(a, b, k),
    decreases a.len(),
{
    if a.len() == 0 {
        assert(a.take(0) =~= b.take(0));
        assert(differs_first_below(a, b, 0));
    } else if a[0] < b[0] {
        assert(a.take(0) =~= b.take(0));
        assert(differs_first_below(a, b, 0));
    } else {
        let (ra, rb) = (a.drop_first(), b.drop_first());
        lemma_less_has_first_difference(ra, rb);
        let k = choose|k: int| differs_first_below(ra, rb, k);
        assert(a.take(k + 1) =~= seq![a[0]] + ra.take(k));
        assert(b.take(k + 1) =~= seq![b[0]] + rb.take(k));
        assert(differs_first_below(a, b, k + 1));
    }
}

proof fn lemma_first_difference_is_less(a: Seq<char>, b: Seq<char>, k: int)
    requires
        differs_first_below(a, b, k),
    ensures
        lex_compare(a, b) == Comparison::Less,
    decreases k,
{
    if k == 0 {
        if a.len() > 0 {
            assert(a[0] < b[0]);
        }
    } else {
        assert(a[0] == a.take(k)[0]);
        assert(b[0] == b.take(k)[0]);
        let (ra, rb) = (a.drop_first(), b.drop_first());
        assert(ra.take(k - 1) =~= a.take(k).drop_first());
        assert(rb.take(k - 1) =~= b.take(k).drop_first());
        assert(differs_first_below(ra, rb, k - 1));
        lemma_first_difference_is_less(ra, rb, k - 1);
    }
}

/// Lexicographic order by code point: `a` is less than `b` exactly when, at
/// the first place where they differ, `a` has ended or has the character
/// with the smaller code; greater exactly when `b` is less than `a`; equal
/// exactly when they are the same sequence.
pub proof fn lemma_lex_compare_by_first_difference(a: Seq<char>, b: Seq<char>)
    ensures
        (lex_compare(a, b) == Comparison::Less) == (exists|k: int| differs_first_below(a, b, k)),
        (lex_compare(a, b) == Comparison::Greater) == (exists|k: int| differs_first_below(b, a, k)),
        (lex_compare(a, b) == Comparison::Equal) == (a == b),
{
    lemma_lex_compare_flip(a, b);
    lemma_lex_compare_flip(b, a);
    if lex_compare(a, b) == Comparison::Less {
        lemma_less_has_first_difference(a, b);
    }
    if exists|k: int| differs_first_below(a, b, k) {
        let k = choose|k: int| differs_first_below(a, b, k);
        lemma_first_difference_is_less(a, b, k);
    }
    if lex_compare(b, a) == Comparison::Less {
        lemma_less_has_first_difference(b, a);
    }
    if exists|k: int| differs_first_below(b, a, k) {
        let k = choose|k: int| differs_first_below(b, a, k);
        lemma_first_difference_is_less(b, a, k);
    }
}

/// The value of a run of decimal digits, read from the left.
pub open spec fn digits_value(s: Seq<char>) -> int
    decreases s.len(),
{
    if s.len() == 0 {
        0
    } else {
        digits_value(s.drop_last()) * 10 + ((s.last() as u32) - 48)
    }
}

/// The decimal numeral of `n` is a nonempty run of the digits `0` to `9`,
/// read back as `n`, and it starts with `0` only when `n` is zero.
pub proof fn lemma_decimal_reads_back(n: nat)
    ensures
        decimal(n).len() > 0,
        forall|i: int|
            0 <= i < decimal(n).len() ==> 48 <= (#[trigger] decimal(n)[i]) as u32 <= 57,
        digits_value(decimal(n)) == n,
        n > 0 ==> decimal(n)[0] != '0',
    decreases n,
{
    if n < 10 {
        lemma_digit_char_code(n as int);
        let d = decimal(n);
        assert(d.drop_last() =~= Seq::<char>::empty());
        assert(d.last() == digit_char(n as int));
        assert(digits_value(d) == digits_value(d.drop_last()) * 10 + ((d.last() as u32) - 48));
    } else {
        lemma_decimal_reads_back(n / 10);
        lemma_digit_char_code((n % 10) as int);
        let d = decimal(n);
        assert(d.drop_last() =~= decimal(n / 10));
        assert(d.last() == digit_char((n % 10) as int));
        assert(digits_value(d) == digits_value(d.drop_last()) * 10 + ((d.last() as u32) - 48));
        assert((n / 10) * 10 + n % 10 == n) by (nonlinear_arith);
        assert(d[0] == decimal(n / 10)[0]);
        assert forall|i: int| 0 <= i < d.len() implies 48 <= (#[trigger] d[i]) as u32 <= 57 by {
            if i < d.len() - 1 {
                assert(d[i] == decimal(n / 10)[i]);
            }
        }
    }
}

} // verus!
