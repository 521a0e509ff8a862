//! Text helpers: character classes, whitespace splitting, trimming,
//! line splitting, and decimal parsing/formatting of 64-bit integers.
use vstd::prelude::*;

verus! {

/// The characters that `str::trim` and `str::split_whitespace` treat as
/// whitespace: the Unicode `White_Space` set.
pub open spec fn is_space(c: char) -> bool {
    ||| c as u32 == 0x09
    ||| c as u32 == 0x0a
    ||| c as u32 == 0x0b
    ||| c as u32 == 0x0c
    ||| c as u32 == 0x0d
    ||| c as u32 == 0x20
    ||| c as u32 == 0x85
    ||| c as u32 == 0xa0
    ||| c as u32 == 0x1680
    ||| (0x2000 <= c as u32 && c as u32 <= 0x200a)
    ||| c as u32 == 0x2028
    ||| c as u32 == 0x2029
    ||| c as u32 == 0x202f
    ||| c as u32 == 0x205f
    ||| c as u32 == 0x3000
}

pub fn is_space_char(c: char) -> (r: bool)
    ensures
        r == is_space(c),
{
    let u = c as u32;
    u == 0x09 || u == 0x0a || u == 0x0b || u == 0x0c || u == 0x0d || u == 0x20 || u == 0x85
        || u == 0xa0 || u == 0x1680 || (0x2000 <= u && u <= 0x200a) || u == 0x2028 || u == 0x2029
        || u == 0x202f || u == 0x205f || u == 0x3000
}

pub open spec fn is_digit(c: char) -> bool {
    0x30 <= c as u32 && c as u32 <= 0x39
}

pub fn is_digit_char(c: char) -> (r: bool)
    ensures
        r == is_digit(c),
{
    let u = c as u32;
    0x30 <= u && u <= 0x39
}

/// Relies on `str::chars`: a string is exactly its sequence of characters.
#[verifier::external_body]
pub fn chars_of(s: &str) -> (r: Vec<char>)
    ensures
        r@ == s@,
{
    s.chars().collect()
}

/// Relies on `FromIterator<char> for String`: collecting characters yields
/// the string with exactly those characters.
#[verifier::external_body]
pub fn string_of(v: &Vec<char>) -> (r: String)
    ensures
        r@ == v@,
{
    v.iter().collect()
}

pub open spec fn trim_start_spec(s: Seq<char>) -> Seq<char>
    decreases s.len(),
{
    if s.len() > 0 && is_space(s[0]) {
        trim_start_spec(s.drop_first())
    } else {
        s
    }
}

pub open spec fn trim_end_spec(s: Seq<char>) -> Seq<char>
    decreases s.len(),
{
    if s.len() > 0 && is_space(s.last()) {
        trim_end_spec(s.drop_last())
    } else {
        s
    }
}

/// What `str::trim` leaves: the text with leading and trailing whitespace removed.
pub open spec fn trim_spec(s: Seq<char>) -> Seq<char> {
    trim_end_spec(trim_start_spec(s))
}

proof fn lemma_trim_start_skip(s: Seq<char>, i: int)
    requires
        0 <= i <= s.len(),
        forall|j: int| 0 <= j < i ==> is_space(s[j]),
    ensures
        trim_start_spec(s) == trim_start_spec(s.skip(i)),
    decreases i,
{
    if i > 0 {
        assert(s.skip(0) =~= s);
        assert(s.drop_first() =~= s.skip(1));
        assert(s.skip(1).skip(i - 1) =~= s.skip(i));
        lemma_trim_start_skip(s.skip(1), i - 1);
    } else {
        assert(s.skip(0) =~= s);
    }
}

proof fn lemma_trim_end_take(s: Seq<char>, j: int)
    requires
        0 <= j <= s.len(),
        forall|k: int| j <= k < s.len() ==> is_space(s[k]),
    ensures
        trim_end_spec(s) == trim_end_spec(s.take(j)),
    decreases s.len() - j,
{
    if j < s.len() {
        assert(s.drop_last() =~= s.take(s.len() - 1));
        lemma_trim_end_take(s.take(s.len() - 1), j);
        assert(s.take(s.len() - 1).take(j) =~= s.take(j));
    } else {
        assert(s.take(j) =~= s);
    }
}

/// The text with leading and trailing whitespace removed, as `str::trim` does it.
pub fn trim_vec(v: &Vec<char>) -> (r: Vec<char>)
    ensures
        r@ == trim_spec(v@),
{
    let n = v.len();
    let mut i: usize = 0;
    while i < n && is_space_char(v[i])
        invariant
            0 <= i <= n == v@.len(),
            forall|j: int| 0 <= j < i ==> is_space(v@[j]),
        decreases n - i,
    {
        i = i + 1;
    }
    proof {
        lemma_trim_start_skip(v@, i as int);
        if i < n {
            assert(trim_start_spec(v@.skip(i as int)) == v@.skip(i as int));
        } else {
            assert(v@.skip(i as int) =~= Seq::<char>::empty());
        }
    }
    // v@.skip(i) is trim_start_spec(v@); now drop trailing whitespace
    let mut j: usize = n;
    while j > i && is_space_char(v[j - 1])
        invariant
            i <= j <= n == v@.len(),
            forall|k: int| j <= k < n ==> is_space(v@[k]),
        decreases j,
    {
        j = j - 1;
    }
    proof {
        lemma_trim_end_take(v@.skip(i as int), j - i);
        assert(v@.skip(i as int).take(j - i) =~= v@.subrange(i as int, j as int));
        if j > i {
            assert(v@.subrange(i as int, j as int).last() == v@[j - 1]);
            assert(trim_end_spec(v@.subrange(i as int, j as int)) == v@.subrange(
                i as int,
                j as int,
            ));
        } else {
            assert(v@.subrange(i as int, j as int) =~= Seq::<char>::empty());
        }
    }
    let mut out: Vec<char> = Vec::new();
    let mut k: usize = i;
    while k < j
        invariant
            i <= k <= j <= v@.len(),
            out@ =~= v@.subrange(i as int, k as int),
        decreases j - k,
    {
        out.push(v[k]);
        k = k + 1;
    }
    assert(out@ =~= v@.subrange(i as int, j as int));
    out
}

/// Length of the maximal non-whitespace prefix.
pub open spec fn token_len(s: Seq<char>) -> nat
    decreases s.len(),
{
    if s.len() == 0 || is_space(s[0]) {
        0
    } else {
        1 + token_len(s.drop_first())
    }
}

proof fn lemma_token_len_is_boundary(s: Seq<char>, k: int)
    requires
        0 <= k <= s.len(),
        forall|m: int| 0 <= m < k ==> !is_space(s[m]),
        k == s.len() || is_space(s[k]),
    ensures
        token_len(s) == k,
    decreases k,
{
    if k > 0 {
        assert(s.drop_first() =~= s.skip(1));
        lemma_token_len_is_boundary(s.skip(1), k - 1);
    }
}
/// The first whitespace-separated token of a trimmed text and the
/// remainder after the whitespace run that follows it, or nothing when the
/// text holds fewer than two parts.
pub open spec fn split_first_token(t: Seq<char>) -> Option<(Seq<char>, Seq<char>)> {
    let k = token_len(t) as int;
    if k == 0 {
        None
    } else {
        let rest = trim_start_spec(t.skip(k));
        if rest.len() == 0 {
            None
        } else {
            Some((t.take(k), rest))
        }
    }
}

/// Splitting a line once at whitespace: a first token and the rest of the
/// line, both stripped of surrounding whitespace.
pub open spec fn split_ws_once_spec(s: Seq<char>) -> Option<(Seq<char>, Seq<char>)> {
    split_first_token(trim_spec(s))
}

/// The first token of an already-trimmed line and the remainder after it.
pub fn split_first_token_chars(t: &Vec<char>) -> (r: Option<(Vec<char>, Vec<char>)>)
    ensures
        match r {
            Some(p) => split_first_token(t@) == Some((p.0@, p.1@)),
            None => split_first_token(t@) is None,
        },
{
    let n = t.len();
    let mut k: usize = 0;
    while k < n && !is_space_char(t[k])
        invariant
            0 <= k <= n == t@.len(),
            forall|m: int| 0 <= m < k ==> !is_space(t@[m]),
        decreases n - k,
    {
        k = k + 1;
    }
    proof {
        lemma_token_len_is_boundary(t@, k as int);
    }
    if k == 0 {
        return None;
    }
    let mut j: usize = k;
    while j < n && is_space_char(t[j])
        invariant
            k <= j <= n == t@.len(),
            forall|m: int| k <= m < j ==> is_space(t@[m]),
        decreases n - j,
    {
        j = j + 1;
    }
    proof {
        lemma_trim_start_skip(t@.skip(k as int), j - k);
        assert(t@.skip(k as int).skip(j - k) =~= t@.skip(j as int));
        if j < n {
            assert(trim_start_spec(t@.skip(j as int)) == t@.skip(j as int));
        } else {
            assert(t@.skip(j as int) =~= Seq::<char>::empty());
        }
    }
    if j == n {
        return None;
    }
    let mut tok: Vec<char> = Vec::new();
    let mut a: usize = 0;
    while a < k
        invariant
            0 <= a <= k <= t@.len(),
            tok@ =~= t@.take(k as int).take(a as int),
        decreases k - a,
    {
        tok.push(t[a]);
        a = a + 1;
    }
    let mut rest: Vec<char> = Vec::new();
    let mut b: usize = j;
    while b < n
        invariant
            j <= b <= n == t@.len(),
            rest@ =~= t@.skip(j as int).take(b - j),
        decreases n - b,
    {
        rest.push(t[b]);
        b = b + 1;
    }
    proof {
        assert(tok@ =~= t@.take(k as int));
        assert(rest@ =~= t@.skip(j as int));
    }
    Some((tok, rest))
}

/// Splits a line once at whitespace into a single leading token and the
/// remainder, each stripped of surrounding whitespace; reports nothing
/// when the line has no second part.
pub fn split_once_whitespace(txt: &str) -> (r: Option<(String, String)>)
    ensures
        match r {
            Some(p) => split_ws_once_spec(txt@) == Some((p.0@, p.1@)),
            None => split_ws_once_spec(txt@) is None,
        },
{
    let cs = chars_of(txt);
    let t = trim_vec(&cs);
    match split_first_token_chars(&t) {
        None => None,
        Some((tok, rest)) => Some((string_of(&tok), string_of(&rest))),
    }
}

/// The single character of a one-character string, if it is one.
pub fn to_char(txt: &str) -> (r: Option<char>)
    ensures
        match r {
            Some(c) => txt@ == seq![c],
            None => txt@.len() != 1,
        },
{
    let cs = chars_of(txt);
    if cs.len() == 1 {
        proof {
            assert(txt@ =~= seq![txt@[0]]);
        }
        Some(cs[0])
    } else {
        None
    }
}

/// A line with one trailing carriage return removed, as `str::lines` does it.
pub open spec fn strip_cr(s: Seq<char>) -> Seq<char> {
    if s.len() > 0 && s.last() == '\r' {
        s.drop_last()
    } else {
        s
    }
}

/// Length of the prefix before the first newline, or of the whole text.
pub open spec fn line_len(s: Seq<char>) -> nat
    decreases s.len(),
{
    if s.len() == 0 || s[0] == '\n' {
        0
    } else {
        1 + line_len(s.drop_first())
    }
}

proof fn lemma_line_len_is_boundary(s: Seq<char>, k: int)
    requires
        0 <= k <= s.len(),
        forall|m: int| 0 <= m < k ==> s[m] != '\n',
        k == s.len() || s[k] == '\n',
    ensures
        line_len(s) == k,
    decreases k,
{
    if k > 0 {
        assert(s.drop_first() =~= s.skip(1));
        lemma_line_len_is_boundary(s.skip(1), k - 1);
    }
}

proof fn lemma_line_len_le(s: Seq<char>)
    ensures
        line_len(s) <= s.len(),
        forall|m: int| 0 <= m < line_len(s) ==> s[m] != '\n',
    decreases s.len(),
{
    if s.len() > 0 && s[0] != '\n' {
        lemma_line_len_le(s.drop_first());
        assert forall|m: int| 0 <= m < line_len(s) implies s[m] != '\n' by {
            if m > 0 {
                assert(s.drop_first()[m - 1] != '\n');
            }
        }
    }
}

/// The lines of the text as `str::lines` yields them: split at each newline,
/// no final empty line for a trailing newline, one trailing carriage return
/// removed from each line.
pub open spec fn lines_spec(s: Seq<char>) -> Seq<Seq<char>>
    decreases s.len(),
    via lines_spec_decreases
{
    if s.len() == 0 {
        Seq::empty()
    } else if line_len(s) == s.len() {
        seq![strip_cr(s)]
    } else {
        seq![strip_cr(s.take(line_len(s) as int))] + lines_spec(s.skip(line_len(s) as int + 1))
    }
}

#[via_fn]
proof fn lines_spec_decreases(s: Seq<char>) {
    lemma_line_len_le(s);
}

/// The lines of the text, each as its own vector.
pub fn split_lines(v: &Vec<char>) -> (r: Vec<Vec<char>>)
    ensures
        r@.map_values(|t: Vec<char>| t@) == lines_spec(v@),
{
    let n = v.len();
    let mut out: Vec<Vec<char>> = Vec::new();
    let mut i: usize = 0;
    proof {
        assert(v@.skip(0) =~= v@);
        assert(lines_spec(v@) =~= out@.map_values(|t: Vec<char>| t@) + lines_spec(v@.skip(0)));
    }
    while i < n
        invariant
            0 <= i <= n == v@.len(),
            lines_spec(v@) == out@.map_values(|t: Vec<char>| t@) + lines_spec(v@.skip(i as int)),
        decreases n - i,
    {
        let mut j: usize = i;
        while j < n && v[j] != '\n'
            invariant
                i <= j <= n == v@.len(),
                forall|m: int| i <= m < j ==> v@[m] != '\n',
            decreases n - j,
        {
            j = j + 1;
        }
        proof {
            lemma_line_len_is_boundary(v@.skip(i as int), j - i);
        }
        // the line body, without a trailing carriage return
        let end = if j > i && v[j - 1] == '\r' {
            j - 1
        } else {
            j
        };
        let mut line: Vec<char> = Vec::new();
        let mut k: usize = i;
        while k < end
            invariant
                i <= k <= end <= v@.len(),
                line@ =~= v@.subrange(i as int, k as int),
            decreases end - k,
        {
            line.push(v[k]);
            k = k + 1;
        }
        proof {
            let rest = v@.skip(i as int);
            let f = |t: Vec<char>| t@;
            assert(line@ =~= v@.subrange(i as int, end as int));
            assert(rest.take(j - i) =~= v@.subrange(i as int, j as int));
            if end < j {
                assert(rest.take(j - i).last() == v@[j - 1]);
                assert(rest.take(j - i).drop_last() =~= v@.subrange(i as int, end as int));
            }
            assert(strip_cr(rest.take(j - i)) =~= line@);
            assert(out@.push(line).map_values(f) =~= out@.map_values(f).push(line@));
            if j < n {
                assert(rest.skip(j - i + 1) =~= v@.skip(j + 1));
                assert(lines_spec(rest) == seq![line@] + lines_spec(v@.skip(j + 1)));
                assert(out@.map_values(f) + (seq![line@] + lines_spec(v@.skip(j + 1)))
                    =~= out@.map_values(f).push(line@) + lines_spec(v@.skip(j + 1)));
            } else {
                assert(line_len(rest) == rest.len());
                assert(rest.take(j - i) =~= rest);
                assert(strip_cr(rest) =~= line@);
                assert(lines_spec(rest) == seq![line@]);
                assert(v@.skip(j as int).len() == 0);
                assert(lines_spec(v@.skip(j as int)) == Seq::<Seq<char>>::empty());
                assert(out@.map_values(f) + seq![line@]
                    =~= out@.map_values(f).push(line@) + lines_spec(v@.skip(j as int)));
            }
        }
        out.push(line);
        if j < n {
            i = j + 1;
        } else {
            i = j;
        }
    }
    proof {
        assert(v@.skip(n as int) =~= Seq::<char>::empty());
        assert(lines_spec(v@) =~= out@.map_values(|t: Vec<char>| t@));
    }
    out
}

pub open spec fn digit_val(c: char) -> int {
    c as u32 - 0x30
}

/// Value of a digit string, most significant digit first.
pub open spec fn digits_val(s: Seq<char>) -> int
    decreases s.len(),
{
    if s.len() == 0 {
        0
    } else {
        digits_val(s.drop_last()) * 10 + digit_val(s.last())
    }
}

pub open spec fn all_digits(s: Seq<char>) -> bool {
    forall|i: int| 0 <= i < s.len() ==> is_digit(s[i])
}

/// What `str::parse::<i64>` accepts and returns: an optional sign followed by
/// one or more decimal digits, with the value in the type's range.
pub open spec fn parse_i64_spec(s: Seq<char>) -> Option<i64> {
    let signed = s.len() > 0 && (s[0] == '+' || s[0] == '-');
    let body = if signed {
        s.drop_first()
    } else {
        s
    };
    let neg = s.len() > 0 && s[0] == '-';
    if body.len() == 0 || !all_digits(body) {
        None
    } else {
        let v = if neg {
            -digits_val(body)
        } else {
            digits_val(body)
        };
        if i64::MIN <= v <= i64::MAX {
            Some(v as i64)
        } else {
            None
        }
    }
}

proof fn lemma_digits_val_bounds(s: Seq<char>)
    requires
        all_digits(s),
    ensures
        digits_val(s) >= 0,
    decreases s.len(),
{
    if s.len() > 0 {
        assert(all_digits(s.drop_last()));
        lemma_digits_val_bounds(s.drop_last());
        assert(is_digit(s.last()));
    }
}

proof fn lemma_digits_val_mono(s: Seq<char>, i: int)
    requires
        all_digits(s),
        0 <= i <= s.len(),
    ensures
        digits_val(s.take(i)) <= digits_val(s),
    decreases s.len(),
{
    lemma_digits_val_bounds(s);
    if i < s.len() {
        assert(all_digits(s.drop_last()));
        assert(s.take(i) =~= s.drop_last().take(i));
        lemma_digits_val_mono(s.drop_last(), i);
        lemma_digits_val_bounds(s.drop_last());
        assert(is_digit(s.last()));
    } else {
        assert(s.take(i) =~= s);
    }
}

/// The integer a piece of text denotes, read as `str::parse::<i64>` reads it.
pub fn parse_i64(s: &str) -> (r: Option<i64>)
    ensures
        r == parse_i64_spec(s@),
{
    let cs = chars_of(s);
    parse_i64_chars(&cs)
}

/// As `parse_i64`, for text already split into characters.
pub fn parse_i64_chars(cs: &Vec<char>) -> (r: Option<i64>)
    ensures
        r == parse_i64_spec(cs@),
{
    let n = cs.len();
    let mut idx: usize = 0;
    let mut neg = false;
    if n > 0 && (cs[0] == '+' || cs[0] == '-') {
        neg = cs[0] == '-';
        idx = 1;
    }
    let ghost body = if idx == 1 { cs@.drop_first() } else { cs@ };
    proof {
        if idx == 1 {
            assert(body =~= cs@.skip(1));
        }
        assert(body =~= cs@.skip(idx as int));
    }
    if idx == n {
        return None;
    }
    let mut k: usize = idx;
    while k < n
        invariant
            idx <= k <= n == cs@.len(),
            body == cs@.skip(idx as int),
            idx == 0 || idx == 1,
            (idx == 1) == (cs@.len() > 0 && (cs@[0] == '+' || cs@[0] == '-')),
            neg == (cs@.len() > 0 && cs@[0] == '-'),
            idx < n,
            forall|m: int| idx <= m < k ==> is_digit(cs@[m]),
        decreases n - k,
    {
        if !is_digit_char(cs[k]) {
            proof {
                assert(body[k - idx] == cs@[k as int]);
                assert(!is_digit(body[k - idx]));
            }
            return None;
        }
        k = k + 1;
    }
    proof {
        assert forall|m: int| 0 <= m < body.len() implies is_digit(body[m]) by {
            assert(body[m] == cs@[m + idx]);
        }
    }
    let mut acc: i128 = 0;
    let mut k: usize = idx;
    while k < n
        invariant
            idx <= k <= n == cs@.len(),
            body == cs@.skip(idx as int),
            idx == 0 || idx == 1,
            (idx == 1) == (cs@.len() > 0 && (cs@[0] == '+' || cs@[0] == '-')),
            neg == (cs@.len() > 0 && cs@[0] == '-'),
            idx < n,
            all_digits(body),
            acc == digits_val(body.take(k - idx)),
            0 <= acc <= 0x8000000000000000,
        decreases n - k,
    {
        proof {
            assert(body[k - idx] == cs@[k as int]);
            assert(is_digit(body[k - idx]));
            assert(body.take(k - idx + 1).drop_last() =~= body.take(k - idx));
            assert(body.take(k - idx + 1).last() == body[k - idx]);
        }
        let d = (cs[k] as u32 - 0x30) as i128;
        proof {
            assert(d == digit_val(body[k - idx]));
        }
        acc = acc * 10 + d;
        if acc > 9223372036854775808i128 {
            proof {
                assert(acc == digits_val(body.take(k - idx + 1)));
                lemma_digits_val_mono(body, k - idx + 1);
                if idx == 1 {
                    assert(cs@.drop_first() =~= body);
                } else {
                    assert(cs@.skip(0) =~= cs@);
                }
                assert(digits_val(body) > 0x8000000000000000);
            }
            return None;
        }
        k = k + 1;
    }
    proof {
        assert(body.take(n - idx) =~= body);
    }
    if neg {
        Some((-acc) as i64)
    } else {
        if acc == 9223372036854775808i128 {
            None
        } else {
            Some(acc as i64)
        }
    }
}

pub open spec fn digit_char(d: int) -> char {
    if d == 0 {
        '0'
    } else if d == 1 {
        '1'
    } else if d == 2 {
        '2'
    } else if d == 3 {
        '3'
    } else if d == 4 {
        '4'
    } else if d == 5 {
        '5'
    } else if d == 6 {
        '6'
    } else if d == 7 {
        '7'
    } else if d == 8 {
        '8'
    } else {
        '9'
    }
}

/// Decimal digits of a non-negative integer, most significant first,
/// without leading zeros.
pub open spec fn dec_str_nat(m: nat) -> Seq<char>
    decreases m,
{
    if m < 10 {
        seq![digit_char(m as int)]
    } else {
        dec_str_nat(m / 10).push(digit_char((m % 10) as int))
    }
}

/// The decimal text of an integer, as `i64::to_string` writes it:
/// a minus sign for negative values, then the digits.
pub open spec fn i64_dec_spec(n: i64) -> Seq<char> {
    if n >= 0 {
        dec_str_nat(n as nat)
    } else {
        seq!['-'] + dec_str_nat((-(n as int)) as nat)
    }
}

fn digit_char_exec(d: u64) -> (c: char)
    requires
        d < 10,
    ensures
        c == digit_char(d as int),
{
    if d == 0 {
        '0'
    } else if d == 1 {
        '1'
    } else if d == 2 {
        '2'
    } else if d == 3 {
        '3'
    } else if d == 4 {
        '4'
    } else if d == 5 {
        '5'
    } else if d == 6 {
        '6'
    } else if d == 7 {
        '7'
    } else if d == 8 {
        '8'
    } else {
        '9'
    }
}

fn u64_dec_chars(m: u64) -> (r: Vec<char>)
    ensures
        r@ == dec_str_nat(m as nat),
    decreases m,
{
    if m < 10 {
        let mut v: Vec<char> = Vec::new();
        v.push(digit_char_exec(m));
        proof {
            assert(v@ =~= dec_str_nat(m as nat));
        }
        v
    } else {
        let mut v = u64_dec_chars(m / 10);
        v.push(digit_char_exec(m % 10));
        v
    }
}

/// The decimal text of the integer, as `i64::to_string` writes it.
pub fn i64_to_string(n: i64) -> (r: String)
    ensures
        r@ == i64_dec_spec(n),
{
    if n >= 0 {
        let ds = u64_dec_chars(n as u64);
        string_of(&ds)
    } else {
        let m: u64 = if n == i64::MIN {
            9223372036854775808u64
        } else {
            (-n) as u64
        };
        assert(m as nat == (-(n as int)) as nat);
        let ds = u64_dec_chars(m);
        let mut v: Vec<char> = Vec::new();
        v.push('-');
        let mut k: usize = 0;
        while k < ds.len()
            invariant
                0 <= k <= ds@.len(),
                v@ =~= seq!['-'] + ds@.take(k as int),
            decreases ds@.len() - k,
        {
            v.push(ds[k]);
            k = k + 1;
        }
        proof {
            assert(v@ =~= seq!['-'] + ds@);
        }
        string_of(&v)
    }
}

proof fn lemma_digit_char_val(d: int)
    requires
        0 <= d < 10,
    ensures
        digit_val(digit_char(d)) == d,
        is_digit(digit_char(d)),
{
}

proof fn lemma_dec_str_digits(m: nat)
    ensures
        all_digits(dec_str_nat(m)),
        digits_val(dec_str_nat(m)) == m,
        dec_str_nat(m).len() >= 1,
        is_digit(dec_str_nat(m)[0]),
    decreases m,
{
    if m < 10 {
        lemma_digit_char_val(m as int);
        let s = dec_str_nat(m);
        assert(s =~= seq![digit_char(m as int)]);
        assert(s.drop_last() =~= Seq::<char>::empty());
        assert(digits_val(Seq::<char>::empty()) == 0);
        assert(s.last() == digit_char(m as int));
        assert(digits_val(s) == digits_val(s.drop_last()) * 10 + digit_val(s.last()));
    } else {
        lemma_digit_char_val((m % 10) as int);
        lemma_dec_str_digits(m / 10);
        let s = dec_str_nat(m);
        assert(s.drop_last() =~= dec_str_nat(m / 10));
        assert(s.last() == digit_char((m % 10) as int));
        assert(digit_val(digit_char((m % 10) as int)) == m % 10);
        assert(digits_val(s) == (m / 10) * 10 + m % 10);
        assert(m == 10 * (m / 10) + m % 10) by {
            vstd::arithmetic::div_mod::lemma_fundamental_div_mod(m as int, 10);
        }
        assert forall|i: int| 0 <= i < s.len() implies is_digit(s[i]) by {
            if i < s.len() - 1 {
                assert(is_digit(dec_str_nat(m / 10)[i]));
            }
        }
    }
}

/// The decimal text of an integer holds only digits and a minus sign.
pub proof fn lemma_i64_dec_chars(n: i64)
    ensures
        forall|i: int|
            0 <= i < i64_dec_spec(n).len() ==> (is_digit(#[trigger] i64_dec_spec(n)[i])
                || i64_dec_spec(n)[i] == '-'),
{
    if n >= 0 {
        lemma_dec_str_digits(n as nat);
    } else {
        let m = (-(n as int)) as nat;
        lemma_dec_str_digits(m);
        assert forall|i: int|
            0 <= i < i64_dec_spec(n).len() implies (is_digit(#[trigger] i64_dec_spec(n)[i])
            || i64_dec_spec(n)[i] == '-') by {
            if i > 0 {
                assert(i64_dec_spec(n)[i] == dec_str_nat(m)[i - 1]);
            }
        }
    }
}

/// Reading back the decimal text of an integer yields that integer.
pub proof fn lemma_parse_i64_round_trip(n: i64)
    ensures
        parse_i64_spec(i64_dec_spec(n)) == Some(n),
{
    if n >= 0 {
        let s = dec_str_nat(n as nat);
        lemma_dec_str_digits(n as nat);
        assert(s[0] != '+' && s[0] != '-');
    } else {
        let m = (-(n as int)) as nat;
        let s = seq!['-'] + dec_str_nat(m);
        lemma_dec_str_digits(m);
        assert(s[0] == '-');
        assert(s.drop_first() =~= dec_str_nat(m));
        assert(digits_val(dec_str_nat(m)) == m);
    }
}

} // verus!
