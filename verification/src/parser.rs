//! Splitting a command line into words, with single quotes, double quotes
//! and backslash escapes.
use vstd::prelude::*;

use crate::text::{chars_of, is_whitespace, is_ws, push_char};

verus! {

/// Where the tokenizer stands between two characters: inside single quotes,
/// inside double quotes, right after an unquoted backslash; the word being
/// built and the words finished so far.
pub struct ScanState {
    pub in_single: bool,
    pub in_double: bool,
    pub escape: bool,
    pub cur: Seq<char>,
    pub out: Seq<Seq<char>>,
}

/// The state before the first character.
pub open spec fn scan_start() -> ScanState {
    ScanState { in_single: false, in_double: false, escape: false, cur: seq![], out: seq![] }
}

/// `s` without the line endings (`'\n'`, `'\r'`) at its end.
pub open spec fn trim_line_end(s: Seq<char>) -> Seq<char>
    decreases s.len(),
{
    if s.len() > 0 && (s.last() == '\n' || s.last() == '\r') {
        trim_line_end(s.drop_last())
    } else {
        s
    }
}

/// The words once the input is exhausted: the word being built, if any, is
/// finished.
pub open spec fn scan_finish(st: ScanState) -> Seq<Seq<char>> {
    if st.cur.len() > 0 {
        st.out.push(st.cur)
    } else {
        st.out
    }
}

/// `st` with `c` added to the word being built.
pub open spec fn with_char(st: ScanState, c: char) -> ScanState {
    ScanState { cur: st.cur.push(c), ..st }
}

/// How the tokenizer takes the first character `s[0]` (looking at `s[1]`
/// as well after a backslash inside double quotes): how many characters it
/// consumes and the state after them. The rules, in order of priority:
/// - the character right after an unquoted backslash is taken as it is,
///   whatever it is (so `\\` stands for one backslash, `\ ` for a space);
/// - an unquoted backslash escapes the next character;
/// - inside double quotes a backslash before `\` or `"` stands for that
///   character; before anything else it stands for itself; at the very end
///   it is dropped;
/// - inside single quotes a backslash stands for itself;
/// - `"` outside single quotes opens or closes double quotes, `'` outside
///   double quotes opens or closes single quotes;
/// - any character but whitespace is part of the word, and so is quoted
///   whitespace;
/// - unquoted whitespace (spaces, tabs, ...) ends the word being built, if
///   there is one.
pub open spec fn scan_step(s: Seq<char>, st: ScanState) -> (nat, ScanState)
    recommends
        s.len() > 0,
{
    let c = s[0];
    if st.escape && !st.in_double && !st.in_single {
        (1, ScanState { escape: false, ..with_char(st, c) })
    } else if c == '\\' && !st.in_single && !st.in_double {
        (1, ScanState { escape: true, ..st })
    } else if c == '\\' && st.in_double {
        if s.len() > 1 {
            let next = s[1];
            if next == '\\' || next == '"' {
                (2, with_char(st, next))
            } else {
                (1, with_char(st, c))
            }
        } else {
            (1, st)
        }
    } else if c == '\\' && st.in_single {
        (1, with_char(st, c))
    } else if c == '"' && !st.in_single {
        (1, ScanState { in_double: !st.in_double, ..st })
    } else if c == '\'' && !st.in_double {
        (1, ScanState { in_single: !st.in_single, ..st })
    } else if !is_ws(c) {
        (1, with_char(st, c))
    } else if st.in_single || st.in_double {
        (1, with_char(st, c))
    } else if st.cur.len() > 0 {
        (1, ScanState { cur: seq![], out: st.out.push(st.cur), ..st })
    } else {
        (1, st)
    }
}

/// The words of `s`, read from state `st`, one `scan_step` at a time.
pub open spec fn scan(s: Seq<char>, st: ScanState) -> Seq<Seq<char>>
    decreases s.len(),
{
    if s.len() == 0 {
        scan_finish(st)
    } else {
        let (n, next) = scan_step(s, st);
        scan(s.skip(n as int), next)
    }
}

/// The words of a command line.
pub open spec fn parse_spec(input: Seq<char>) -> Seq<Seq<char>> {
    scan(trim_line_end(input), scan_start())
}

proof fn lemma_trim_take(s: Seq<char>, end: int)
    requires
        0 < end <= s.len(),
        s[end - 1] == '\n' || s[end - 1] == '\r',
    ensures
        trim_line_end(s.take(end)) == trim_line_end(s.take(end - 1)),
{
    assert(s.take(end).drop_last() =~= s.take(end - 1));
}

/// Splits a command line into words at unquoted whitespace. Line endings
/// at the end are ignored;
/// quotes group characters into one word and are themselves dropped;
/// backslashes escape as `scan` describes.
pub fn parse_input(input: &str) -> (words: Vec<String>)
    ensures
        words.deep_view() == parse_spec(input@),
{
    let chars = chars_of(input);
    let mut end: usize = chars.len();
    assert(chars@.take(end as int) =~= chars@);
    while end > 0 && (chars[end - 1] == '\n' || chars[end - 1] == '\r')
        invariant
            end <= chars.len(),
            chars@ == input@,
            trim_line_end(chars@.take(end as int)) == trim_line_end(input@),
        decreases end,
    {
        proof {
            lemma_trim_take(chars@, end as int);
        }
        end = end - 1;
    }
    let ghost text = chars@.take(end as int);
    assert(trim_line_end(text) == text);
    let mut words: Vec<String> = Vec::new();
    let mut in_single: bool = false;
    let mut in_double: bool = false;
    let mut escape: bool = false;
    let mut cur = String::new();
    let mut i: usize = 0;
    assert(text.skip(0) =~= text);
    assert(words.deep_view() =~= Seq::<Seq<char>>::empty());
    assert(ScanState { in_single, in_double, escape, cur: cur@, out: words.deep_view() } == scan_start());
    while i < end
        invariant
            end <= chars.len(),
            i <= end,
            text == chars@.take(end as int),
            parse_spec(input@) == scan(
                text.skip(i as int),
                ScanState { in_single, in_double, escape, cur: cur@, out: words.deep_view() },
            ),
        decreases end - i,
    {
        let ghost st = ScanState {
            in_single,
            in_double,
            escape,
            cur: cur@,
            out: words.deep_view(),
        };
        let ghost rest = text.skip(i as int);
        assert(rest[0] == chars@[i as int]);
        assert(rest.skip(1) =~= text.skip(i + 1));
        let c = chars[i];
        if escape && !in_double && !in_single {
            push_char(&mut cur, c);
            escape = false;
            i = i + 1;
        } else if c == '\\' && !in_single && !in_double {
            escape = true;
            i = i + 1;
        } else if c == '\\' && in_double {
            if i + 1 < end {
                let next = chars[i + 1];
                assert(rest[1] == next);
                if next == '\\' || next == '"' {
                    assert(rest.skip(2) =~= text.skip(i + 2));
                    push_char(&mut cur, next);
                    i = i + 2;
                } else {
                    push_char(&mut cur, c);
                    i = i + 1;
                }
            } else {
                i = i + 1;
            }
        } else if c == '\\' && in_single {
            push_char(&mut cur, c);
            i = i + 1;
        } else if c == '"' && !in_single {
            in_double = !in_double;
            i = i + 1;
        } else if c == '\'' && !in_double {
            in_single = !in_single;
            i = i + 1;
        } else if !is_whitespace(c) {
            push_char(&mut cur, c);
            i = i + 1;
        } else if in_single || in_double {
            push_char(&mut cur, c);
            i = i + 1;
        } else if cur.as_str().unicode_len() > 0 {
            let ghost old_words = words.deep_view();
            words.push(cur);
            assert(words.deep_view() =~= old_words.push(st.cur));
            cur = String::new();
            i = i + 1;
        } else {
            i = i + 1;
        }
    }
    assert(text.skip(i as int) =~= Seq::<char>::empty());
    if cur.as_str().unicode_len() > 0 {
        let ghost old_words = words.deep_view();
        let ghost last = cur@;
        words.push(cur);
        assert(words.deep_view() =~= old_words.push(last));
    }
    words
}

/// The index of the first whitespace character in `s`, or its length when
/// it has none.
pub open spec fn first_ws(s: Seq<char>) -> nat
    decreases s.len(),
{
    if s.len() == 0 || is_ws(s[0]) {
        0
    } else {
        1 + first_ws(s.drop_first())
    }
}

pub proof fn lemma_first_ws_bound(s: Seq<char>)
    ensures
        first_ws(s) <= s.len(),
        s.len() > 0 && !is_ws(s[0]) ==> first_ws(s) >= 1,
    decreases s.len(),
{
    if s.len() > 0 && !is_ws(s[0]) {
        lemma_first_ws_bound(s.drop_first());
    }
}

/// The pieces of `s` between whitespace characters, empty pieces left out
/// (what `str::split_whitespace` gives).
pub open spec fn ws_words(s: Seq<char>) -> Seq<Seq<char>>
    decreases s.len(),
{
    if s.len() == 0 {
        seq![]
    } else if is_ws(s[0]) {
        ws_words(s.drop_first())
    } else {
        let k = first_ws(s);
        proof {
            lemma_first_ws_bound(s);
        }
        seq![s.take(k as int)] + ws_words(s.skip(k as int))
    }
}

/// A character that the tokenizer treats specially: a quote or a backslash.
pub open spec fn is_special(c: char) -> bool {
    c == '\'' || c == '"' || c == '\\'
}

proof fn lemma_scan_words_nonempty(s: Seq<char>, st: ScanState)
    requires
        forall|k: int| 0 <= k < st.out.len() ==> #[trigger] st.out[k].len() > 0,
    ensures
        forall|k: int|
            0 <= k < scan(s, st).len() ==> #[trigger] scan(s, st)[k].len() > 0,
    decreases s.len(),
{
    let finished = scan_finish(st);
    assert forall|k: int| 0 <= k < finished.len() implies #[trigger] finished[k].len() > 0 by {
        if k < st.out.len() {
            assert(finished[k] == st.out[k]);
        }
    }
    if s.len() > 0 {
        let (n, next) = scan_step(s, st);
        assert(next.out == st.out || (st.cur.len() > 0 && next.out == st.out.push(st.cur)));
        assert forall|k: int| 0 <= k < next.out.len() implies #[trigger] next.out[k].len() > 0 by {
            if k < st.out.len() {
                assert(next.out[k] == st.out[k]);
            }
        }
        lemma_scan_words_nonempty(s.skip(n as int), next);
        assert(scan(s, st) == scan(s.skip(n as int), next));
    }
}

/// No word of a command line is empty: a quoted empty string such as `''`
/// gives no word.
pub proof fn law_words_nonempty(input: Seq<char>)
    ensures
        forall|k: int|
            0 <= k < parse_spec(input).len() ==> #[trigger] parse_spec(input)[k].len() > 0,
{
    lemma_scan_words_nonempty(trim_line_end(input), scan_start());
}

/// A line ending typed at the end of a command line changes none of its
/// words.
pub proof fn law_line_end_ignored(input: Seq<char>, c: char)
    requires
        c == '\n' || c == '\r',
    ensures
        parse_spec(input.push(c)) == parse_spec(input),
{
    assert(input.push(c).drop_last() =~= input);
}

proof fn lemma_quoted_run(x: Seq<char>, rest: Seq<char>, st: ScanState)
    requires
        !st.escape,
        st.in_single != st.in_double,
        st.in_single ==> forall|k: int| 0 <= k < x.len() ==> #[trigger] x[k] != '\'',
        st.in_double ==> forall|k: int| 0 <= k < x.len() ==> #[trigger] x[k] != '"' && x[k] != '\\',
    ensures
        scan(x + rest, st) == scan(rest, ScanState { cur: st.cur + x, ..st }),
    decreases x.len(),
{
    if x.len() == 0 {
        assert(x + rest =~= rest);
        assert(st.cur + x =~= st.cur);
    } else {
        let c = x[0];
        assert((x + rest)[0] == c);
        assert((x + rest).skip(1) =~= x.drop_first() + rest);
        let x2 = x.drop_first();
        assert forall|k: int| 0 <= k < x2.len() implies #[trigger] x2[k] == x[k + 1] by {}
        lemma_quoted_run(x2, rest, with_char(st, c));
        assert(st.cur.push(c) + x2 =~= st.cur + x);
    }
}

/// Between single quotes every character but `'` stands for itself,
/// whitespace and backslashes included: `'x'` is the one word `x`.
pub proof fn law_single_quotes_literal(x: Seq<char>)
    requires
        x.len() > 0,
        forall|k: int| 0 <= k < x.len() ==> #[trigger] x[k] != '\'',
    ensures
        parse_spec(seq!['\''] + x + seq!['\'']) == seq![x],
{
    let line = seq!['\''] + x + seq!['\''];
    assert(line.last() == '\'');
    assert(trim_line_end(line) == line);
    let st1 = ScanState { in_single: true, ..scan_start() };
    assert(line[0] == '\'');
    assert(line.skip(1) =~= x + seq!['\'']);
    assert(scan(line, scan_start()) == scan(x + seq!['\''], st1));
    lemma_quoted_run(x, seq!['\''], st1);
    let st2 = ScanState { cur: st1.cur + x, ..st1 };
    assert(st1.cur + x =~= x);
    let tail = seq!['\''];
    assert(tail.skip(1) =~= Seq::<char>::empty());
    assert(scan(tail, st2) == scan(tail.skip(1), ScanState { in_single: false, ..st2 }));
    assert(seq![].push(x) =~= seq![x]);
}

/// Between double quotes every character but `"` and `\` stands for
/// itself, whitespace and single quotes included: `"x"` is the one word `x`.
pub proof fn law_double_quotes_group(x: Seq<char>)
    requires
        x.len() > 0,
        forall|k: int| 0 <= k < x.len() ==> #[trigger] x[k] != '"' && x[k] != '\\',
    ensures
        parse_spec(seq!['"'] + x + seq!['"']) == seq![x],
{
    let line = seq!['"'] + x + seq!['"'];
    assert(line.last() == '"');
    assert(trim_line_end(line) == line);
    let st1 = ScanState { in_double: true, ..scan_start() };
    assert(line[0] == '"');
    assert(line.skip(1) =~= x + seq!['"']);
    assert(scan(line, scan_start()) == scan(x + seq!['"'], st1));
    lemma_quoted_run(x, seq!['"'], st1);
    let st2 = ScanState { cur: st1.cur + x, ..st1 };
    assert(st1.cur + x =~= x);
    let tail = seq!['"'];
    assert(tail.skip(1) =~= Seq::<char>::empty());
    assert(scan(tail, st2) == scan(tail.skip(1), ScanState { in_double: false, ..st2 }));
    assert(seq![].push(x) =~= seq![x]);
}

/// Outside quotes a backslash makes the next character part of the word,
/// whatever it is: `\` followed by `c` is the one word `c`.
pub proof fn law_backslash_escapes(c: char)
    requires
        c != '\n' && c != '\r',
    ensures
        parse_spec(seq!['\\', c]) == seq![seq![c]],
{
    let line = seq!['\\', c];
    assert(line.drop_last() =~= seq!['\\']);
    assert(trim_line_end(line) == line);
    let st1 = ScanState { escape: true, ..scan_start() };
    assert(line.skip(1) =~= seq![c]);
    assert(scan(line, scan_start()) == scan(seq![c], st1));
    let st2 = ScanState { escape: false, ..with_char(st1, c) };
    assert(seq![c].skip(1) =~= Seq::<char>::empty());
    assert(scan(seq![c], st1) == scan(Seq::<char>::empty(), st2));
    assert(st2.cur =~= seq![c]);
    assert(seq![].push(seq![c]) =~= seq![seq![c]]);
}

pub proof fn lemma_first_ws_concat(a: Seq<char>, b: Seq<char>)
    requires
        forall|k: int| 0 <= k < a.len() ==> !is_ws(#[trigger] a[k]),
    ensures
        first_ws(a + b) == a.len() + first_ws(b),
    decreases a.len(),
{
    if a.len() > 0 {
        assert((a + b)[0] == a[0]);
        assert((a + b).drop_first() =~= a.drop_first() + b);
        let a2 = a.drop_first();
        assert forall|k: int| 0 <= k < a2.len() implies !is_ws(#[trigger] a2[k]) by {
            assert(a2[k] == a[k + 1]);
        }
        lemma_first_ws_concat(a2, b);
    } else {
        assert(a + b =~= b);
    }
}

proof fn lemma_plain_scan(t: Seq<char>, st: ScanState)
    requires
        !st.in_single,
        !st.in_double,
        !st.escape,
        forall|k: int| 0 <= k < t.len() ==> !is_special(#[trigger] t[k]),
        forall|k: int| 0 <= k < st.cur.len() ==> !is_ws(#[trigger] st.cur[k]),
    ensures
        scan(t, st) == st.out + ws_words(st.cur + t),
    decreases t.len(),
{
    let cur = st.cur;
    if t.len() == 0 {
        assert(cur + t =~= cur);
        if cur.len() > 0 {
            lemma_first_ws_concat(cur, seq![]);
            assert(cur + seq![] =~= cur);
            assert(first_ws(cur) == cur.len());
            assert(cur.take(cur.len() as int) =~= cur);
            assert(cur.skip(cur.len() as int) =~= Seq::<char>::empty());
            assert(ws_words(cur) == seq![cur] + ws_words(Seq::<char>::empty()));
            assert(st.out.push(cur) =~= st.out + seq![cur]);
        } else {
            assert(st.out + seq![] =~= st.out);
        }
    } else {
        let c = t[0];
        let rest = t.skip(1);
        assert(!is_special(t[0]));
        assert forall|k: int| 0 <= k < rest.len() implies !is_special(#[trigger] rest[k]) by {
            assert(rest[k] == t[k + 1]);
        }
        assert(scan(t, st) == scan(rest, scan_step(t, st).1));
        if !is_ws(c) {
            let next = with_char(st, c);
            assert forall|k: int| 0 <= k < next.cur.len() implies !is_ws(#[trigger] next.cur[k]) by {
                if k < cur.len() {
                    assert(next.cur[k] == cur[k]);
                }
            }
            lemma_plain_scan(rest, next);
            assert(cur.push(c) + rest =~= cur + t);
        } else if cur.len() > 0 {
            let next = ScanState { cur: seq![], out: st.out.push(cur), ..st };
            lemma_plain_scan(rest, next);
            assert(next.cur + rest =~= rest);
            lemma_first_ws_concat(cur, t);
            assert(first_ws(t) == 0);
            assert((cur + t)[0] == cur[0]);
            assert((cur + t).take(cur.len() as int) =~= cur);
            assert((cur + t).skip(cur.len() as int) =~= t);
            assert(t.drop_first() =~= rest);
            assert(ws_words(cur + t) == seq![cur] + ws_words(t));
            assert(ws_words(t) == ws_words(rest));
            assert(st.out.push(cur) + ws_words(rest) =~= st.out + (seq![cur] + ws_words(rest)));
        } else {
            lemma_plain_scan(rest, st);
            assert(cur + t =~= t);
            assert(cur + rest =~= rest);
            assert(t.drop_first() =~= rest);
        }
    }
}

proof fn lemma_trim_line_end_prefix(s: Seq<char>)
    ensures
        trim_line_end(s).len() <= s.len(),
        trim_line_end(s) == s.take(trim_line_end(s).len() as int),
    decreases s.len(),
{
    if s.len() > 0 && (s.last() == '\n' || s.last() == '\r') {
        lemma_trim_line_end_prefix(s.drop_last());
        let t = trim_line_end(s.drop_last());
        assert(s.drop_last().take(t.len() as int) =~= s.take(t.len() as int));
    } else {
        assert(s.take(s.len() as int) =~= s);
    }
}

proof fn lemma_first_ws_push_ws(s: Seq<char>, c: char)
    requires
        is_ws(c),
    ensures
        first_ws(s.push(c)) == first_ws(s),
    decreases s.len(),
{
    if s.len() > 0 {
        assert(s.push(c)[0] == s[0]);
        assert(s.push(c).drop_first() =~= s.drop_first().push(c));
        lemma_first_ws_push_ws(s.drop_first(), c);
    }
}

proof fn lemma_ws_words_push_ws(s: Seq<char>, c: char)
    requires
        is_ws(c),
    ensures
        ws_words(s.push(c)) == ws_words(s),
    decreases s.len(),
{
    let sc = s.push(c);
    if s.len() == 0 {
        assert(sc[0] == c);
        assert(sc.drop_first() =~= Seq::<char>::empty());
        assert(ws_words(sc) == ws_words(sc.drop_first()));
    } else if is_ws(s[0]) {
        assert(sc[0] == s[0]);
        assert(sc.drop_first() =~= s.drop_first().push(c));
        lemma_ws_words_push_ws(s.drop_first(), c);
    } else {
        assert(sc[0] == s[0]);
        lemma_first_ws_push_ws(s, c);
        lemma_first_ws_bound(s);
        let k = first_ws(s);
        assert(sc.take(k as int) =~= s.take(k as int));
        assert(sc.skip(k as int) =~= s.skip(k as int).push(c));
        lemma_ws_words_push_ws(s.skip(k as int), c);
        assert(ws_words(sc) == seq![sc.take(k as int)] + ws_words(sc.skip(k as int)));
        assert(ws_words(s) == seq![s.take(k as int)] + ws_words(s.skip(k as int)));
    }
}

proof fn lemma_ws_words_trim_line_end(s: Seq<char>)
    ensures
        ws_words(trim_line_end(s)) == ws_words(s),
    decreases s.len(),
{
    if s.len() > 0 && (s.last() == '\n' || s.last() == '\r') {
        lemma_ws_words_trim_line_end(s.drop_last());
        lemma_ws_words_push_ws(s.drop_last(), s.last());
        assert(s.drop_last().push(s.last()) =~= s);
    }
}

/// Without quotes and backslashes a command line is split at whitespace,
/// as `str::split_whitespace` splits it: its words are the pieces between
/// whitespace characters (spaces, tabs, line endings, ...), empty pieces
/// left out.
pub proof fn law_plain_words(input: Seq<char>)
    requires
        forall|k: int| 0 <= k < input.len() ==> !is_special(#[trigger] input[k]),
    ensures
        parse_spec(input) == ws_words(input),
{
    let t = trim_line_end(input);
    lemma_trim_line_end_prefix(input);
    assert forall|k: int| 0 <= k < t.len() implies !is_special(#[trigger] t[k]) by {
        assert(t[k] == input[k]);
    }
    lemma_plain_scan(t, scan_start());
    assert(scan_start().cur + t =~= t);
    assert(scan_start().out + ws_words(t) =~= ws_words(t));
    lemma_ws_words_trim_line_end(input);
}

proof fn lemma_word_run(x: Seq<char>, rest: Seq<char>, st: ScanState)
    requires
        !st.escape,
        !st.in_single,
        !st.in_double,
        forall|k: int| 0 <= k < x.len() ==> !is_ws(#[trigger] x[k]) && !is_special(x[k]),
    ensures
        scan(x + rest, st) == scan(rest, ScanState { cur: st.cur + x, ..st }),
    decreases x.len(),
{
    if x.len() == 0 {
        assert(x + rest =~= rest);
        assert(st.cur + x =~= st.cur);
    } else {
        let c = x[0];
        assert(!is_ws(x[0]) && !is_special(x[0]));
        assert((x + rest)[0] == c);
        assert((x + rest).skip(1) =~= x.drop_first() + rest);
        let x2 = x.drop_first();
        assert forall|k: int| 0 <= k < x2.len() implies !is_ws(#[trigger] x2[k]) && !is_special(
            x2[k],
        ) by {
            assert(x2[k] == x[k + 1]);
        }
        lemma_word_run(x2, rest, with_char(st, c));
        assert(st.cur.push(c) + x2 =~= st.cur + x);
    }
}

/// Outside quotes a backslash makes the next character part of the word it
/// stands in, wherever that word is in the line: after a plain first word
/// `p`, the text `x`, a backslash, any character `c` and the text `y` form
/// the one word `x`, `c`, `y` — an escaped space or tab does not end it.
pub proof fn law_escape_inside_word(p: Seq<char>, x: Seq<char>, c: char, y: Seq<char>)
    requires
        p.len() > 0,
        c != '\n' && c != '\r',
        forall|k: int| 0 <= k < p.len() ==> !is_ws(#[trigger] p[k]) && !is_special(p[k]),
        forall|k: int| 0 <= k < x.len() ==> !is_ws(#[trigger] x[k]) && !is_special(x[k]),
        forall|k: int| 0 <= k < y.len() ==> !is_ws(#[trigger] y[k]) && !is_special(y[k]),
    ensures
        parse_spec(p + seq![' '] + x + seq!['\\', c] + y) == seq![p, x + seq![c] + y],
{
    let tail = seq!['\\', c] + y;
    let line = p + seq![' '] + x + tail;
    assert(line =~= p + (seq![' '] + (x + tail)));
    assert(p + seq![' '] + x + seq!['\\', c] + y =~= line);
    if y.len() > 0 {
        assert(line.last() == y[y.len() - 1]);
    } else {
        assert(line.last() == c);
    }
    assert(trim_line_end(line) == line);
    let st0 = scan_start();
    lemma_word_run(p, seq![' '] + (x + tail), st0);
    let st1 = ScanState { cur: st0.cur + p, ..st0 };
    assert(st0.cur + p =~= p);
    let sp = seq![' '] + (x + tail);
    assert(sp[0] == ' ');
    assert(sp.skip(1) =~= x + tail);
    let st2 = ScanState { cur: seq![], out: st1.out.push(p), ..st1 };
    assert(scan(sp, st1) == scan(x + tail, st2));
    lemma_word_run(x, tail, st2);
    let st3 = ScanState { cur: st2.cur + x, ..st2 };
    assert(st2.cur + x =~= x);
    assert(tail[0] == '\\');
    assert(tail.skip(1) =~= seq![c] + y);
    let st4 = ScanState { escape: true, ..st3 };
    assert(scan(tail, st3) == scan(seq![c] + y, st4));
    let cy = seq![c] + y;
    assert(cy[0] == c);
    assert(cy.skip(1) =~= y);
    let st5 = ScanState { escape: false, ..with_char(st4, c) };
    assert(scan(cy, st4) == scan(y, st5));
    assert(y =~= y + Seq::<char>::empty());
    lemma_word_run(y, Seq::<char>::empty(), st5);
    let st6 = ScanState { cur: st5.cur + y, ..st5 };
    assert(st6.cur =~= x + seq![c] + y);
    assert(st6.out =~= seq![p]);
    assert(scan(Seq::<char>::empty(), st6) == st6.out.push(st6.cur));
    assert(st6.out.push(st6.cur) =~= seq![p, x + seq![c] + y]);
    assert(scan(y, st5) == scan(Seq::<char>::empty(), st6));
    assert(scan(line, st0) == scan(sp, st1));
    assert(scan(line, st0) == seq![p, x + seq![c] + y]);
}

/// Inside double quotes, `\"` and `\\` stand for `"` and `\`, and a
/// backslash before any other character stands for itself: the quoted text
/// `x`, backslash, `c`, `y` is one word.
pub proof fn law_double_quote_escapes(x: Seq<char>, c: char, y: Seq<char>)
    requires
        forall|k: int| 0 <= k < x.len() ==> #[trigger] x[k] != '"' && x[k] != '\\',
        forall|k: int| 0 <= k < y.len() ==> #[trigger] y[k] != '"' && y[k] != '\\',
    ensures
        (c == '"' || c == '\\') ==> parse_spec(seq!['"'] + x + seq!['\\', c] + y + seq!['"']) == seq![
            x + seq![c] + y,
        ],
        !(c == '"' || c == '\\') ==> parse_spec(seq!['"'] + x + seq!['\\', c] + y + seq!['"'])
            == seq![x + seq!['\\', c] + y],
{
    let q = seq!['"'];
    let tail = seq!['\\', c] + (y + q);
    let line = q + (x + tail);
    assert(seq!['"'] + x + seq!['\\', c] + y + seq!['"'] =~= line);
    assert(line.last() == '"');
    assert(trim_line_end(line) == line);
    let st1 = ScanState { in_double: true, ..scan_start() };
    assert(line[0] == '"');
    assert(line.skip(1) =~= x + tail);
    assert(scan(line, scan_start()) == scan(x + tail, st1));
    lemma_quoted_run(x, tail, st1);
    let st2 = ScanState { cur: st1.cur + x, ..st1 };
    assert(st1.cur + x =~= x);
    assert(tail[0] == '\\' && tail[1] == c);
    let yq = y + q;
    if c == '"' || c == '\\' {
        assert(tail.skip(2) =~= yq);
        let st3 = with_char(st2, c);
        assert(scan(tail, st2) == scan(yq, st3));
        lemma_quoted_run(y, q, st3);
        let st4 = ScanState { cur: st3.cur + y, ..st3 };
        assert(q.skip(1) =~= Seq::<char>::empty());
        assert(scan(q, st4) == scan(Seq::<char>::empty(), ScanState { in_double: false, ..st4 }));
        assert(st4.cur =~= x + seq![c] + y);
        assert(seq![].push(st4.cur) =~= seq![x + seq![c] + y]);
    } else {
        assert(tail.skip(1) =~= seq![c] + yq);
        let st3 = with_char(st2, '\\');
        assert(scan(tail, st2) == scan(seq![c] + yq, st3));
        let cyq = seq![c] + yq;
        assert(cyq[0] == c);
        assert(cyq.skip(1) =~= yq);
        let st4 = with_char(st3, c);
        assert(scan(cyq, st3) == scan(yq, st4));
        lemma_quoted_run(y, q, st4);
        let st5 = ScanState { cur: st4.cur + y, ..st4 };
        assert(q.skip(1) =~= Seq::<char>::empty());
        assert(scan(q, st5) == scan(Seq::<char>::empty(), ScanState { in_double: false, ..st5 }));
        assert(st5.cur =~= x + seq!['\\', c] + y);
        assert(seq![].push(st5.cur) =~= seq![x + seq!['\\', c] + y]);
    }
}

proof fn lemma_first_ws_prefix(a: Seq<char>, b: Seq<char>)
    requires
        first_ws(a) < a.len(),
    ensures
        first_ws(a + b) == first_ws(a),
    decreases a.len(),
{
    assert((a + b)[0] == a[0]);
    if !is_ws(a[0]) {
        assert((a + b).drop_first() =~= a.drop_first() + b);
        lemma_first_ws_prefix(a.drop_first(), b);
    }
}

/// Splitting at whitespace after a space and a word `x` gives the words
/// before, then `x`.
pub proof fn lemma_ws_words_append_word(a: Seq<char>, x: Seq<char>)
    requires
        x.len() > 0,
        forall|k: int| 0 <= k < x.len() ==> !is_ws(#[trigger] x[k]),
    ensures
        ws_words(a + seq![' '] + x) == ws_words(a).push(x),
    decreases a.len(),
{
    let ax = a + seq![' '] + x;
    if a.len() == 0 {
        assert(ax =~= seq![' '] + x);
        assert(ax[0] == ' ');
        assert(ax.drop_first() =~= x);
        lemma_first_ws_concat(x, Seq::<char>::empty());
        assert(x + Seq::<char>::empty() =~= x);
        assert(x.take(x.len() as int) =~= x);
        assert(x.skip(x.len() as int) =~= Seq::<char>::empty());
        assert(ws_words(x) == seq![x] + ws_words(Seq::<char>::empty()));
        assert(ws_words(a) =~= Seq::<Seq<char>>::empty());
        assert(seq![x] + Seq::<Seq<char>>::empty() =~= Seq::<Seq<char>>::empty().push(x));
    } else if is_ws(a[0]) {
        assert(ax[0] == a[0]);
        assert(ax.drop_first() =~= a.drop_first() + seq![' '] + x);
        lemma_ws_words_append_word(a.drop_first(), x);
    } else {
        assert(ax[0] == a[0]);
        lemma_first_ws_bound(a);
        let k = first_ws(a);
        if k < a.len() {
            lemma_first_ws_prefix(a, seq![' '] + x);
            assert(ax =~= a + (seq![' '] + x));
            assert(ax.take(k as int) =~= a.take(k as int));
            assert(ax.skip(k as int) =~= a.skip(k as int) + seq![' '] + x);
            lemma_ws_words_append_word(a.skip(k as int), x);
            assert(ws_words(ax) == seq![a.take(k as int)] + ws_words(ax.skip(k as int)));
            assert(ws_words(a) == seq![a.take(k as int)] + ws_words(a.skip(k as int)));
            assert(seq![a.take(k as int)] + ws_words(a.skip(k as int)).push(x) =~= (seq![a.take(k as int)]
                + ws_words(a.skip(k as int))).push(x));
        } else {
            assert forall|j: int| 0 <= j < a.len() implies !is_ws(#[trigger] a[j]) by {
                lemma_first_ws_no_ws_before(a, j);
            }
            lemma_first_ws_concat(a, seq![' '] + x);
            assert(ax =~= a + (seq![' '] + x));
            assert(first_ws(seq![' '] + x) == 0);
            assert(ax.take(a.len() as int) =~= a);
            assert(ax.skip(a.len() as int) =~= seq![' '] + x);
            assert(ws_words(ax) == seq![a] + ws_words(seq![' '] + x));
            assert((seq![' '] + x).drop_first() =~= x);
            lemma_ws_words_append_word(Seq::<char>::empty(), x);
            assert(Seq::<char>::empty() + seq![' '] + x =~= seq![' '] + x);
            assert(a.take(a.len() as int) =~= a);
            assert(a.skip(a.len() as int) =~= Seq::<char>::empty());
            assert(ws_words(a) == seq![a] + ws_words(Seq::<char>::empty()));
            assert(seq![a] + seq![x] =~= (seq![a] + Seq::<Seq<char>>::empty()).push(x));
        }
    }
}

proof fn lemma_first_ws_no_ws_before(a: Seq<char>, i: int)
    requires
        0 <= i < first_ws(a),
    ensures
        !is_ws(a[i]),
    decreases a.len(),
{
    lemma_first_ws_bound(a);
    if i > 0 {
        assert(a.drop_first()[i - 1] == a[i]);
        lemma_first_ws_no_ws_before(a.drop_first(), i - 1);
    }
}

} // verus!
