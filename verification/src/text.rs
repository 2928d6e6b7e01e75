//! Character-level helpers shared by the tokenizer, completion and commands.
use vstd::prelude::*;

verus! {

/// The Unicode `White_Space` property, which `char::is_whitespace` and
/// `str::split_whitespace` / `str::trim_end` go by.
pub open spec fn is_ws(c: char) -> bool {
    ||| ('\u{9}' <= c && c <= '\u{d}')
    ||| c == ' '
    ||| c == '\u{85}'
    ||| c == '\u{a0}'
    ||| c == '\u{1680}'
    ||| ('\u{2000}' <= c && c <= '\u{200a}')
    ||| c == '\u{2028}'
    ||| c == '\u{2029}'
    ||| c == '\u{202f}'
    ||| c == '\u{205f}'
    ||| c == '\u{3000}'
}

/// Whether `c` is a whitespace character (Unicode `White_Space`).
pub fn is_whitespace(c: char) -> (r: bool)
    ensures
        r == is_ws(c),
{
    ('\u{9}' <= c && c <= '\u{d}') || c == ' ' || c == '\u{85}' || c == '\u{a0}' || c
        == '\u{1680}' || ('\u{2000}' <= c && c <= '\u{200a}') || c == '\u{2028}' || c
        == '\u{2029}' || c == '\u{202f}' || c == '\u{205f}' || c == '\u{3000}'
}

/// Appends one character to a `String` (std's `String::push`).
#[verifier::external_body]
pub(crate) fn push_char(s: &mut String, c: char)
    ensures
        final(s)@ == old(s)@.push(c),
{
    s.push(c);
}

/// The characters of `s`, in order.
pub fn chars_of(s: &str) -> (v: Vec<char>)
    ensures
        v@ == s@,
{
    let n = s.unicode_len();
    let mut v: Vec<char> = Vec::new();
    let mut i: usize = 0;
    while i < n
        invariant
            n == s@.len(),
            i <= n,
            v@ == s@.take(i as int),
        decreases n - i,
    {
        v.push(s.get_char(i));
        i = i + 1;
        assert(v@ =~= s@.take(i as int));
    }
    assert(s@.take(n as int) =~= s@);
    v
}

/// `s` without the whitespace at its end (what `str::trim_end` keeps).
pub open spec fn trim_end_ws(s: Seq<char>) -> Seq<char>
    decreases s.len(),
{
    if s.len() > 0 && is_ws(s.last()) {
        trim_end_ws(s.drop_last())
    } else {
        s
    }
}

/// Where the last run of non-whitespace characters of `s` starts: just
/// after the last whitespace character, or 0 when there is none.
pub open spec fn word_start(s: Seq<char>) -> nat
    decreases s.len(),
{
    if s.len() == 0 {
        0
    } else if is_ws(s.last()) {
        s.len()
    } else {
        word_start(s.drop_last())
    }
}

/// The last whitespace-separated word of `s` (what
/// `s.split_whitespace().last()` gives), or `None` when `s` holds only
/// whitespace.
pub open spec fn last_word(s: Seq<char>) -> Option<Seq<char>> {
    let t = trim_end_ws(s);
    if t.len() == 0 {
        None
    } else {
        Some(t.skip(word_start(t) as int))
    }
}

/// Whether `p` is a prefix of `s`.
pub open spec fn is_prefix(p: Seq<char>, s: Seq<char>) -> bool {
    p.len() <= s.len() && s.take(p.len() as int) == p
}

pub proof fn lemma_word_start_bound(s: Seq<char>)
    ensures
        word_start(s) <= s.len(),
    decreases s.len(),
{
    if s.len() > 0 && !is_ws(s.last()) {
        lemma_word_start_bound(s.drop_last());
    }
}

pub proof fn lemma_trim_end_ws_push_ws(s: Seq<char>, c: char)
    requires
        is_ws(c),
    ensures
        trim_end_ws(s.push(c)) == trim_end_ws(s),
{
    assert(s.push(c).drop_last() =~= s);
}

pub proof fn lemma_word_start_append(s: Seq<char>, t: Seq<char>)
    requires
        forall|k: int| 0 <= k < t.len() ==> !is_ws(#[trigger] t[k]),
    ensures
        word_start(s + t) == word_start(s),
    decreases t.len(),
{
    if t.len() == 0 {
        assert(s + t =~= s);
    } else {
        assert((s + t).drop_last() =~= s + t.drop_last());
        assert((s + t).last() == t[t.len() - 1]);
        lemma_word_start_append(s, t.drop_last());
    }
}

proof fn lemma_trim_end_ws_shape(s: Seq<char>)
    ensures
        trim_end_ws(s).len() <= s.len(),
        trim_end_ws(s) == s.take(trim_end_ws(s).len() as int),
        forall|k: int| trim_end_ws(s).len() <= k < s.len() ==> is_ws(#[trigger] s[k]),
        trim_end_ws(s).len() > 0 ==> !is_ws(s[trim_end_ws(s).len() - 1]),
    decreases s.len(),
{
    if s.len() > 0 && is_ws(s.last()) {
        let r = s.drop_last();
        lemma_trim_end_ws_shape(r);
        let n = trim_end_ws(r).len();
        assert(r.take(n as int) =~= s.take(n as int));
        assert forall|k: int| n <= k < s.len() implies is_ws(#[trigger] s[k]) by {
            if k < s.len() - 1 {
                assert(s[k] == r[k]);
            }
        }
    } else {
        assert(s.take(s.len() as int) =~= s);
    }
}

proof fn lemma_word_start_shape(t: Seq<char>)
    ensures
        word_start(t) <= t.len(),
        forall|k: int| word_start(t) <= k < t.len() ==> !is_ws(#[trigger] t[k]),
        word_start(t) > 0 ==> is_ws(t[word_start(t) - 1]),
        t.len() > 0 && !is_ws(t.last()) ==> word_start(t) < t.len(),
    decreases t.len(),
{
    if t.len() > 0 && !is_ws(t.last()) {
        let r = t.drop_last();
        lemma_word_start_shape(r);
        assert forall|k: int| word_start(t) <= k < t.len() implies !is_ws(#[trigger] t[k]) by {
            if k < t.len() - 1 {
                assert(t[k] == r[k]);
            }
        }
        if word_start(t) > 0 {
            assert(t[word_start(t) - 1] == r[word_start(t) - 1]);
        }
    }
}

/// The last word of a line is a non-empty run of non-whitespace characters
/// of the line that starts at the line's start or after whitespace and is
/// followed by nothing but whitespace; a line has no last word only when it
/// is all whitespace.
pub proof fn law_last_word(s: Seq<char>)
    ensures
        last_word(s) matches Some(w) ==> w.len() > 0 && exists|i: int|
            0 <= i && i + w.len() <= s.len() && #[trigger] s.subrange(i, i + w.len()) == w && (i == 0
                || is_ws(s[i - 1])) && forall|k: int| i + w.len() <= k < s.len() ==> is_ws(#[trigger] s[k]),
        last_word(s) matches Some(w) ==> forall|k: int| 0 <= k < w.len() ==> !is_ws(#[trigger] w[k]),
        last_word(s) is None ==> forall|k: int| 0 <= k < s.len() ==> is_ws(#[trigger] s[k]),
{
    lemma_trim_end_ws_shape(s);
    let t = trim_end_ws(s);
    let n = t.len();
    if n > 0 {
        lemma_word_start_shape(t);
        let i = word_start(t) as int;
        assert(t.last() == s[n - 1]);
        let w = t.skip(i);
        assert(w =~= s.subrange(i, n as int));
        assert(s.subrange(i, i + w.len()) == w);
        if i > 0 {
            assert(t[i - 1] == s[i - 1]);
        }
        assert forall|k: int| 0 <= k < w.len() implies !is_ws(#[trigger] w[k]) by {
            assert(w[k] == t[k + i]);
        }
        assert(i < n);
        assert(i + w.len() == n);
        assert(forall|k: int| i + w.len() <= k < s.len() ==> is_ws(#[trigger] s[k]));
        assert(0 <= i && i + w.len() <= s.len() && s.subrange(i, i + w.len()) == w && (i == 0
            || is_ws(s[i - 1])) && forall|k: int| i + w.len() <= k < s.len() ==> is_ws(#[trigger] s[k]));
    }
}

/// The prefix of `s` that `trim_end_ws` keeps, as a length.
pub fn trim_end_len(s: &Vec<char>) -> (n: usize)
    ensures
        n <= s.len(),
        trim_end_ws(s@) == s@.take(n as int),
{
    let mut end: usize = s.len();
    assert(s@.take(end as int) =~= s@);
    while end > 0 && is_whitespace(s[end - 1])
        invariant
            end <= s.len(),
            trim_end_ws(s@) == trim_end_ws(s@.take(end as int)),
        decreases end,
    {
        assert(s@.take(end as int).drop_last() =~= s@.take(end - 1));
        end = end - 1;
    }
    end
}

/// The last whitespace-separated word of `s`.
pub fn last_word_of(s: &Vec<char>) -> (w: Option<Vec<char>>)
    ensures
        match last_word(s@) {
            None => w is None,
            Some(lw) => w matches Some(v) && v@ == lw,
        },
{
    let end = trim_end_len(s);
    if end == 0 {
        return None;
    }
    let ghost t = s@.take(end as int);
    let mut start: usize = end;
    assert(t.take(start as int) =~= t);
    while start > 0 && !is_whitespace(s[start - 1])
        invariant
            start <= end <= s.len(),
            t == s@.take(end as int),
            word_start(t) == word_start(t.take(start as int)),
        decreases start,
    {
        assert(t.take(start as int).drop_last() =~= t.take(start - 1));
        start = start - 1;
    }
    let mut w: Vec<char> = Vec::new();
    let mut k: usize = start;
    while k < end
        invariant
            start <= k <= end <= s.len(),
            w@ == s@.subrange(start as int, k as int),
        decreases end - k,
    {
        w.push(s[k]);
        k = k + 1;
        assert(w@ =~= s@.subrange(start as int, k as int));
    }
    assert(word_start(t) == start);
    assert(t.skip(start as int) =~= s@.subrange(start as int, end as int));
    Some(w)
}

/// Whether `p` is a prefix of `s`.
pub fn starts_with(s: &Vec<char>, p: &Vec<char>) -> (r: bool)
    ensures
        r == is_prefix(p@, s@),
{
    if p.len() > s.len() {
        return false;
    }
    let mut k: usize = 0;
    while k < p.len()
        invariant
            p.len() <= s.len(),
            k <= p.len(),
            s@.take(k as int) == p@.take(k as int),
        decreases p.len() - k,
    {
        if s[k] != p[k] {
            assert(s@.take(p.len() as int)[k as int] != p@[k as int]);
            return false;
        }
        k = k + 1;
        assert(s@.take(k as int) =~= p@.take(k as int));
    }
    assert(p@.take(p.len() as int) =~= p@);
    true
}

/// Appends the characters `v[from..]` to `s`.
pub(crate) fn push_chars_from(s: &mut String, v: &Vec<char>, from: usize)
    requires
        from <= v.len(),
    ensures
        final(s)@ == old(s)@ + v@.skip(from as int),
{
    let mut k: usize = from;
    while k < v.len()
        invariant
            from <= k <= v.len(),
            s@ == old(s)@ + v@.subrange(from as int, k as int),
        decreases v.len() - k,
    {
        push_char(s, v[k]);
        k = k + 1;
        assert(s@ =~= old(s)@ + v@.subrange(from as int, k as int));
    }
    assert(v@.subrange(from as int, v.len() as int) =~= v@.skip(from as int));
}

/// Whether `s` reads exactly `lit`.
pub fn eq_str(s: &String, lit: &str) -> (r: bool)
    ensures
        r == (s@ == lit@),
{
    let l = String::from_str(lit);
    *s == l
}

/// The decimal digit `d` as a character.
pub open spec fn digit_char(d: nat) -> char {
    (d + 48) as char
}

/// The decimal numeral of `n`, without leading zeros (what `to_string`
/// writes for an unsigned integer).
pub open spec fn decimal(n: nat) -> Seq<char>
    decreases n,
{
    if n < 10 {
        seq![digit_char(n)]
    } else {
        decimal(n / 10).push(digit_char(n % 10))
    }
}

/// Appends the decimal numeral of `n` to `s`.
pub fn push_decimal(s: &mut String, n: usize)
    ensures
        final(s)@ == old(s)@ + decimal(n as nat),
    decreases n,
{
    if n >= 10 {
        push_decimal(s, n / 10);
    }
    let d = (n % 10) as u8;
    let c = (d + 48u8) as char;
    assert(c == digit_char((n % 10) as nat));
    push_char(s, c);
    assert(s@ =~= old(s)@ + decimal(n as nat));
}

/// Whether `c` is an ASCII decimal digit.
pub open spec fn is_digit(c: char) -> bool {
    '0' <= c && c <= '9'
}

/// The value of the decimal digits `s`.
pub open spec fn digits_value(s: Seq<char>) -> nat
    decreases s.len(),
{
    if s.len() == 0 {
        0
    } else {
        digits_value(s.drop_last()) * 10 + ((s.last() as nat) - 48) as nat
    }
}

/// Whether every character of `d` is a decimal digit.
pub open spec fn all_digits(d: Seq<char>) -> bool {
    forall|k: int| 0 <= k < d.len() ==> is_digit(#[trigger] d[k])
}

/// `s` without one leading `+`, if it has one.
pub open spec fn without_plus(s: Seq<char>) -> Seq<char> {
    if s.len() > 0 && s[0] == '+' {
        s.drop_first()
    } else {
        s
    }
}

/// The number that `s` writes in the syntax `str::parse` accepts for an
/// unsigned integer: an optional `+`, then one or more decimal digits.
/// `None` when `s` is not in that syntax; the value may be too large for
/// any machine integer.
pub open spec fn decimal_value(s: Seq<char>) -> Option<nat> {
    let d = without_plus(s);
    if d.len() > 0 && all_digits(d) {
        Some(digits_value(d))
    } else {
        None
    }
}

/// What `s.parse::<usize>()` gives, as an `Option`.
pub open spec fn parse_usize_spec(s: Seq<char>) -> Option<usize> {
    match decimal_value(s) {
        Some(v) => if v <= usize::MAX {
            Some(v as usize)
        } else {
            None
        },
        None => None,
    }
}

proof fn lemma_digits_value_grows(d: Seq<char>, k: int)
    requires
        0 <= k <= d.len(),
        forall|j: int| 0 <= j < d.len() ==> is_digit(#[trigger] d[j]),
    ensures
        digits_value(d.take(k)) <= digits_value(d),
    decreases d.len() - k,
{
    if k < d.len() {
        lemma_digits_value_grows(d, k + 1);
        assert(d.take(k + 1).drop_last() =~= d.take(k));
        assert(d.take(k + 1).last() == d[k]);
        assert(is_digit(d[k]));
    } else {
        assert(d.take(k) =~= d);
    }
}

proof fn lemma_decimal_digits(n: nat)
    ensures
        decimal(n).len() > 0,
        all_digits(decimal(n)),
        digits_value(decimal(n)) == n,
        decimal(n)[0] != '+',
    decreases n,
{
    let d = (n % 10) as nat;
    assert((d + 48) as char as nat == d + 48);
    if n >= 10 {
        lemma_decimal_digits(n / 10);
        let s = decimal(n / 10);
        let t = s.push(digit_char(d));
        assert(t.drop_last() =~= s);
        assert forall|k: int| 0 <= k < t.len() implies is_digit(#[trigger] t[k]) by {
            if k < s.len() {
                assert(t[k] == s[k]);
            }
        }
        assert(t[0] == s[0]);
        assert(t.last() == digit_char(d));
        assert(n == (n / 10) * 10 + d) by (nonlinear_arith)
            requires
                d == n % 10,
        ;
        assert(digits_value(t) == digits_value(s) * 10 + d);
    } else {
        assert(seq![digit_char(n)].drop_last() =~= Seq::<char>::empty());
        assert(n % 10 == n);
        assert(digits_value(decimal(n)) == digits_value(Seq::<char>::empty()) * 10 + d);
    }
}

/// The numbers `history` writes read back as the same number: what
/// `push_decimal` writes for `n` is what `parse_usize` reads as `n`.
pub proof fn law_decimal_round_trip(n: usize)
    ensures
        parse_usize_spec(decimal(n as nat)) == Some(n),
{
    lemma_decimal_digits(n as nat);
}

/// Reads an unsigned decimal number as `str::parse::<usize>` does.
pub fn parse_usize(s: &String) -> (r: Option<usize>)
    ensures
        r == parse_usize_spec(s@),
{
    let chars = chars_of(s.as_str());
    let start: usize = if chars.len() > 0 && chars[0] == '+' {
        1
    } else {
        0
    };
    let ghost d = chars@.skip(start as int);
    assert(d =~= without_plus(s@));
    if chars.len() == start {
        return None;
    }
    let mut k: usize = start;
    let mut acc: usize = 0;
    assert(d.take(0) =~= Seq::<char>::empty());
    while k < chars.len()
        invariant
            start <= k <= chars.len(),
            chars@ == s@,
            d == chars@.skip(start as int),
            d == without_plus(s@),
            d.len() > 0,
            forall|j: int| 0 <= j < k - start ==> is_digit(#[trigger] d[j]),
            acc == digits_value(d.take(k - start)),
        decreases chars.len() - k,
    {
        let c = chars[k];
        assert(d[k - start] == c);
        if !('0' <= c && c <= '9') {
            assert(!is_digit(d[k - start]));
            return None;
        }
        let dig = (c as u32 - 48) as usize;
        assert(d.take(k - start + 1).drop_last() =~= d.take(k - start));
        assert(d.take(k - start + 1).last() == c);
        assert(dig == (c as nat) - 48);
        assert(digits_value(d.take(k - start + 1)) == acc * 10 + dig);
        match acc.checked_mul(10) {
            None => {
                proof {
                    if all_digits(d) {
                        lemma_digits_value_grows(d, k - start + 1);
                    }
                }
                return None;
            },
            Some(m) => match m.checked_add(dig) {
                None => {
                    proof {
                        if all_digits(d) {
                            lemma_digits_value_grows(d, k - start + 1);
                        }
                    }
                    return None;
                },
                Some(v) => {
                    acc = v;
                },
            },
        }
        k = k + 1;
    }
    assert(d.take(k - start) =~= d);
    Some(acc)
}

} // verus!
