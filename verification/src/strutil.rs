//! Verified text utilities: substring search, splitting, decimal numerals
//! and lexicographic comparison, over the character view of `str`.

use vstd::prelude::*;

verus! {

/// Index of the first occurrence of `p` inside `s`, if any.
pub open spec fn first_sub_index(s: Seq<char>, p: Seq<char>) -> Option<int>
    decreases s.len(),
{
    if p.len() > s.len() {
        None
    } else if s.subrange(0, p.len() as int) == p {
        Some(0int)
    } else if s.len() == 0 {
        None
    } else {
        match first_sub_index(s.skip(1), p) {
            None => None,
            Some(i) => Some(i + 1),
        }
    }
}

/// `p` occurs somewhere inside `s`.
pub open spec fn has_sub(s: Seq<char>, p: Seq<char>) -> bool {
    first_sub_index(s, p) is Some
}

proof fn lemma_skip_subrange(s: Seq<char>, n: int, a: int, b: int)
    requires
        0 <= n <= s.len(),
        0 <= a <= b <= s.len() - n,
    ensures
        s.skip(n).subrange(a, b) == s.subrange(a + n, b + n),
{
    assert(s.skip(n).subrange(a, b) =~= s.subrange(a + n, b + n));
}

/// `first_sub_index` names the first match: the pattern occurs there and
/// nowhere earlier; `None` means no occurrence at all.
pub proof fn lemma_first_sub_index(s: Seq<char>, p: Seq<char>)
    ensures
        match first_sub_index(s, p) {
            Some(i) => 0 <= i && i + p.len() <= s.len() && s.subrange(i, i + p.len() as int) == p
                && forall|k: int|
                0 <= k < i ==> #[trigger] s.subrange(k, k + p.len() as int) != p,
            None => forall|k: int|
                0 <= k <= s.len() - p.len() ==> #[trigger] s.subrange(k, k + p.len() as int) != p,
        },
    decreases s.len(),
{
    if p.len() > s.len() {
    } else if s.subrange(0, p.len() as int) == p {
    } else if s.len() == 0 {
    } else {
        lemma_first_sub_index(s.skip(1), p);
        assert forall|k: int| 1 <= k <= s.len() - p.len() implies #[trigger] s.subrange(
            k,
            k + p.len() as int,
        ) == s.skip(1).subrange(k - 1, k - 1 + p.len() as int) by {
            lemma_skip_subrange(s, 1, k - 1, k - 1 + p.len() as int);
        }
    }
}

/// True exactly when `p` stands in `s` at offset `i`.
fn match_at(s: &str, i: usize, p: &str) -> (b: bool)
    requires
        i + p@.len() <= s@.len(),
        s@.len() <= usize::MAX,
    ensures
        b == (s@.subrange(i as int, i as int + p@.len() as int) == p@),
{
    let m = p.unicode_len();
    let mut j: usize = 0;
    while j < m
        invariant
            m == p@.len(),
            i + m <= s@.len() <= usize::MAX,
            0 <= j <= m,
            forall|k: int| 0 <= k < j ==> s@[i + k] == p@[k],
        decreases m - j,
    {
        if s.get_char(i + j) != p.get_char(j) {
            proof {
                assert(s@.subrange(i as int, i as int + m as int)[j as int] != p@[j as int]);
            }
            return false;
        }
        j += 1;
    }
    proof {
        assert(s@.subrange(i as int, i as int + m as int) =~= p@);
    }
    true
}

/// First offset at which `p` occurs in `s`, scanning left to right.
pub fn find_sub(s: &str, p: &str) -> (r: Option<usize>)
    ensures
        match r {
            Some(i) => first_sub_index(s@, p@) == Some(i as int),
            None => first_sub_index(s@, p@) is None,
        },
{
    let n = s.unicode_len();
    let m = p.unicode_len();
    proof {
        lemma_first_sub_index(s@, p@);
    }
    if m > n {
        return None;
    }
    if m == 0 {
        proof {
            assert(s@.subrange(0, 0) =~= p@);
        }
        return Some(0);
    }
    let mut i: usize = 0;
    while i <= n - m
        invariant
            n == s@.len(),
            m == p@.len(),
            1 <= m <= n,
            0 <= i <= n - m + 1,
            forall|k: int| 0 <= k < i ==> #[trigger] s@.subrange(k, k + p@.len() as int) != p@,
        decreases n - i,
    {
        if match_at(s, i, p) {
            proof {
                lemma_first_sub_index(s@, p@);
                if first_sub_index(s@, p@) != Some(i as int) {
                    match first_sub_index(s@, p@) {
                        Some(j) => {
                            assert(j < i || j > i);
                        },
                        None => {},
                    }
                }
            }
            return Some(i);
        }
        i += 1;
    }
    proof {
        lemma_first_sub_index(s@, p@);
    }
    None
}

/// `p` stands at the start of `s`.
pub open spec fn has_prefix(s: Seq<char>, p: Seq<char>) -> bool {
    p.len() <= s.len() && s.subrange(0, p.len() as int) == p
}

/// `p` stands at the end of `s`.
pub open spec fn has_suffix(s: Seq<char>, p: Seq<char>) -> bool {
    p.len() <= s.len() && s.subrange(s.len() - p.len(), s.len() as int) == p
}

/// Whether `s` starts with `p`.
pub fn starts_with_str(s: &str, p: &str) -> (r: bool)
    ensures
        r == has_prefix(s@, p@),
{
    let n = s.unicode_len();
    let m = p.unicode_len();
    if m > n {
        return false;
    }
    match_at(s, 0, p)
}

/// Whether `s` ends with `p`.
pub fn ends_with_str(s: &str, p: &str) -> (r: bool)
    ensures
        r == has_suffix(s@, p@),
{
    let n = s.unicode_len();
    let m = p.unicode_len();
    if m > n {
        return false;
    }
    match_at(s, n - m, p)
}

/// Whether two strings hold the same characters.
pub fn str_eq(a: &str, b: &str) -> (r: bool)
    ensures
        r == (a@ == b@),
{
    let n = a.unicode_len();
    let m = b.unicode_len();
    if n != m {
        return false;
    }
    let r = match_at(a, 0, b);
    proof {
        assert(a@.subrange(0, a@.len() as int) =~= a@);
    }
    r
}

/// Whether `s` contains `p` as a contiguous substring.
pub fn contains_sub(s: &str, p: &str) -> (b: bool)
    ensures
        b == has_sub(s@, p@),
{
    find_sub(s, p).is_some()
}

/// The pieces of `s` between occurrences of the separator `p`, in order.
/// Every character of `s` outside the separators is kept; splitting never
/// yields an empty sequence of pieces.
pub open spec fn split_spec(s: Seq<char>, p: Seq<char>) -> Seq<Seq<char>>
    decreases s.len(),
{
    if p.len() == 0 {
        seq![s]
    } else {
        match first_sub_index(s, p) {
            None => seq![s],
            Some(i) => if 0 <= i && i + p.len() <= s.len() {
                seq![s.take(i)] + split_spec(s.skip(i + p.len() as int), p)
            } else {
                seq![s]
            },
        }
    }
}

/// Split `s` at every occurrence of `p`, left to right.
pub fn split_by(s: &str, p: &str) -> (r: Vec<String>)
    requires
        p@.len() >= 1,
    ensures
        r.deep_view() == split_spec(s@, p@),
        r.len() >= 1,
{
    let mut parts: Vec<String> = Vec::new();
    let mut rest: &str = s;
    loop
        invariant
            p@.len() >= 1,
            split_spec(s@, p@) == parts.deep_view() + split_spec(rest@, p@),
        decreases rest@.len(),
    {
        let ghost old_parts = parts.deep_view();
        match find_sub(rest, p) {
            None => {
                parts.push(rest.to_owned());
                proof {
                    assert(parts.deep_view() =~= old_parts.push(rest@));
                    assert(split_spec(rest@, p@) == seq![rest@]);
                    assert(parts.deep_view() + split_spec(rest@, p@).skip(1) =~= parts.deep_view());
                    assert(old_parts + split_spec(rest@, p@) =~= parts.deep_view());
                }
                return parts;
            },
            Some(i) => {
                proof {
                    lemma_first_sub_index(rest@, p@);
                }
                let m = p.unicode_len();
                let n_rest = rest.unicode_len();
                let piece = rest.substring_char(0, i);
                parts.push(piece.to_owned());
                let new_rest = rest.substring_char(i + m, n_rest);
                proof {
                    assert(piece@ =~= rest@.take(i as int));
                    assert(new_rest@ =~= rest@.skip(i + p@.len() as int));
                    assert(parts.deep_view() =~= old_parts.push(rest@.take(i as int)));
                    assert(split_spec(rest@, p@) == seq![rest@.take(i as int)] + split_spec(
                        rest@.skip(i + p@.len() as int),
                        p@,
                    ));
                    assert(parts.deep_view() + split_spec(new_rest@, p@) =~= old_parts
                        + split_spec(rest@, p@));
                }
                rest = new_rest;
            },
        }
    }
}

/// `c` is an ASCII decimal digit.
pub open spec fn is_digit(c: char) -> bool {
    48 <= c as int <= 57
}

/// Numeric value of a digit character.
pub open spec fn digit_val(c: char) -> int {
    c as int - 48
}

/// Every character of `s` is an ASCII decimal digit.
pub open spec fn is_digit_seq(s: Seq<char>) -> bool {
    forall|i: int| 0 <= i < s.len() ==> is_digit(#[trigger] s[i])
}

/// The number denoted by a sequence of decimal digits, most significant first.
pub open spec fn digits_val(s: Seq<char>) -> int
    decreases s.len(),
{
    if s.len() == 0 {
        0
    } else {
        digits_val(s.drop_last()) * 10 + digit_val(s.last())
    }
}

pub open spec fn pow10(n: nat) -> int
    decreases n,
{
    if n == 0 {
        1
    } else {
        10 * pow10((n - 1) as nat)
    }
}

pub proof fn lemma_digits_val_bound(s: Seq<char>)
    requires
        is_digit_seq(s),
    ensures
        0 <= digits_val(s) < pow10(s.len()),
    decreases s.len(),
{
    if s.len() > 0 {
        assert(is_digit_seq(s.drop_last()));
        lemma_digits_val_bound(s.drop_last());
    }
}

pub proof fn lemma_pow10_mono(a: nat, b: nat)
    requires
        a <= b,
    ensures
        pow10(a) <= pow10(b),
    decreases b,
{
    if a < b {
        lemma_pow10_mono(a, (b - 1) as nat);
        lemma_pow10_pos((b - 1) as nat);
    }
}

pub proof fn lemma_pow10_pos(n: nat)
    ensures
        pow10(n) >= 1,
    decreases n,
{
    if n > 0 {
        lemma_pow10_pos((n - 1) as nat);
    }
}

proof fn lemma_mul_step(acc: int, d: int, p: int)
    requires
        0 <= acc < p,
        0 <= d < 10,
    ensures
        acc * 10 + d < 10 * p,
{
    assert(acc * 10 + d < 10 * p) by (nonlinear_arith)
        requires
            0 <= acc < p,
            0 <= d < 10,
    ;
}

/// The value of a well-formed duration count: one to fifteen decimal
/// digits.  Anything longer or with a stray character does not count.
pub open spec fn parse_digits_spec(s: Seq<char>) -> Option<int> {
    if 1 <= s.len() <= 15 && is_digit_seq(s) {
        Some(digits_val(s))
    } else {
        None
    }
}

/// Read a decimal numeral of at most fifteen digits.
pub fn parse_digits(s: &str) -> (r: Option<u64>)
    ensures
        match r {
            Some(v) => parse_digits_spec(s@) == Some(v as int),
            None => parse_digits_spec(s@) is None,
        },
{
    let n = s.unicode_len();
    if n == 0 || n > 15 {
        return None;
    }
    let mut acc: u64 = 0;
    let mut i: usize = 0;
    proof {
        assert(s@.take(0) =~= Seq::<char>::empty());
        reveal_with_fuel(pow10, 17);
    }
    while i < n
        invariant
            n == s@.len(),
            1 <= n <= 15,
            0 <= i <= n,
            is_digit_seq(s@.take(i as int)),
            acc as int == digits_val(s@.take(i as int)),
            (acc as int) < pow10(i as nat),
            pow10(15) == 1000000000000000,
        decreases n - i,
    {
        let c = s.get_char(i);
        let u = c as u32;
        if u < 48 || u > 57 {
            proof {
                assert(!is_digit(s@[i as int]));
            }
            return None;
        }
        let d = (u - 48) as u64;
        proof {
            lemma_pow10_mono((i + 1) as nat, 15nat);
            lemma_mul_step(acc as int, d as int, pow10(i as nat));
            assert(pow10((i + 1) as nat) == 10 * pow10(i as nat));
        }
        acc = acc * 10 + d;
        i += 1;
        proof {
            assert(s@.take(i as int).drop_last() =~= s@.take(i - 1));
            assert(s@.take(i as int).last() == s@[i - 1]);
            assert(forall|k: int|
                0 <= k < i ==> #[trigger] s@.take(i as int)[k] == s@[k]);
        }
    }
    proof {
        assert(s@.take(n as int) =~= s@);
    }
    Some(acc)
}

/// Lexicographic order on character sequences, by code point.
pub open spec fn lex_le(a: Seq<char>, b: Seq<char>) -> bool
    decreases a.len(),
{
    if a.len() == 0 {
        true
    } else if b.len() == 0 {
        false
    } else if a[0] != b[0] {
        (a[0] as int) < (b[0] as int)
    } else {
        lex_le(a.skip(1), b.skip(1))
    }
}

/// The order is total: of two names one always goes first.
pub proof fn lemma_lex_le_total(a: Seq<char>, b: Seq<char>)
    ensures
        lex_le(a, b) || lex_le(b, a),
    decreases a.len(),
{
    if a.len() > 0 && b.len() > 0 && a[0] == b[0] {
        lemma_lex_le_total(a.skip(1), b.skip(1));
    }
}

/// Compare two strings in lexicographic code-point order.
pub fn str_le(a: &str, b: &str) -> (r: bool)
    ensures
        r == lex_le(a@, b@),
{
    let n = a.unicode_len();
    let m = b.unicode_len();
    let mut i: usize = 0;
    proof {
        assert(a@.skip(0) =~= a@);
        assert(b@.skip(0) =~= b@);
    }
    while i < n && i < m
        invariant
            n == a@.len(),
            m == b@.len(),
            0 <= i <= n,
            i <= m,
            lex_le(a@, b@) == lex_le(a@.skip(i as int), b@.skip(i as int)),
            lex_le(b@, a@) == lex_le(b@.skip(i as int), a@.skip(i as int)),
        decreases n - i,
    {
        let ca = a.get_char(i);
        let cb = b.get_char(i);
        if ca != cb {
            return (ca as u32) < (cb as u32);
        }
        i += 1;
        proof {
            assert(a@.skip(i - 1).skip(1) =~= a@.skip(i as int));
            assert(b@.skip(i - 1).skip(1) =~= b@.skip(i as int));
        }
    }
    n <= m
}

/// The order is transitive.
pub proof fn lemma_lex_le_trans(a: Seq<char>, b: Seq<char>, c: Seq<char>)
    requires
        lex_le(a, b),
        lex_le(b, c),
    ensures
        lex_le(a, c),
    decreases a.len(),
{
    if a.len() > 0 && b.len() > 0 && c.len() > 0 && a[0] == b[0] && b[0] == c[0] {
        lemma_lex_le_trans(a.skip(1), b.skip(1), c.skip(1));
    }
}

/// The decimal numeral of `n`, most significant digit first.
pub open spec fn dec_str(n: nat) -> Seq<char>
    decreases n,
{
    if n < 10 {
        seq![digit_char(n)]
    } else {
        dec_str(n / 10).push(digit_char(n % 10))
    }
}

/// The decimal numeral of an integer, with a leading minus sign if negative.
pub open spec fn int_str(n: int) -> Seq<char> {
    if n < 0 {
        seq!['-'] + dec_str((-n) as nat)
    } else {
        dec_str(n as nat)
    }
}

pub open spec fn digit_char(d: nat) -> char {
    if d == 0 {
        '0'
    } else if d == 1 {
        '1'
    } else if d == 2 {
        '2'
    } else if d == 3 {
        '3'
    } else if d == 4 {
        '4'
    } else if d == 5 {
        '5'
    } else if d == 6 {
        '6'
    } else if d == 7 {
        '7'
    } else if d == 8 {
        '8'
    } else {
        '9'
    }
}

fn digit_str(d: u64) -> (r: &'static str)
    requires
        d < 10,
    ensures
        r@ =~= seq![digit_char(d as nat)],
{
    proof {
        reveal_strlit("0");
        reveal_strlit("1");
        reveal_strlit("2");
        reveal_strlit("3");
        reveal_strlit("4");
        reveal_strlit("5");
        reveal_strlit("6");
        reveal_strlit("7");
        reveal_strlit("8");
        reveal_strlit("9");
    }
    match d {
        0 => "0",
        1 => "1",
        2 => "2",
        3 => "3",
        4 => "4",
        5 => "5",
        6 => "6",
        7 => "7",
        8 => "8",
        _ => "9",
    }
}

/// Render `n` in decimal.
pub fn u64_to_string(n: u64) -> (r: String)
    ensures
        r@ == dec_str(n as nat),
    decreases n,
{
    if n < 10 {
        digit_str(n).to_owned()
    } else {
        let mut s = u64_to_string(n / 10);
        s.append(digit_str(n % 10));
        proof {
            assert(dec_str((n / 10) as nat).push(digit_char((n % 10) as nat)) =~= dec_str(
                (n / 10) as nat,
            ) + seq![digit_char((n % 10) as nat)]);
        }
        s
    }
}

/// Render `n` in decimal.
pub fn u128_to_string(n: u128) -> (r: String)
    ensures
        r@ == dec_str(n as nat),
    decreases n,
{
    if n < 10 {
        digit_str(n as u64).to_owned()
    } else {
        let mut s = u128_to_string(n / 10);
        s.append(digit_str((n % 10) as u64));
        proof {
            assert(dec_str((n / 10) as nat).push(digit_char((n % 10) as nat)) =~= dec_str(
                (n / 10) as nat,
            ) + seq![digit_char((n % 10) as nat)]);
        }
        s
    }
}

/// Render a signed value in decimal.
pub fn i64_to_string(n: i64) -> (r: String)
    requires
        n > i64::MIN,
    ensures
        r@ == int_str(n as int),
{
    if n >= 0 {
        u64_to_string(n as u64)
    } else {
        let mut s = "-".to_owned();
        let rest = u64_to_string((-n) as u64);
        s.append(rest.as_str());
        proof {
            reveal_strlit("-");
            assert("-"@ =~= seq!['-']);
        }
        s
    }
}

} // verus!
