//! What a request about a patch carries that changes from day to day.
//!
//! The date of the day, the hash of the commit at hand and the date line
//! above its message say nothing about the patch, so they are replaced by fixed
//! texts before a request is hashed.

use vstd::prelude::*;

verus! {

/// The kinds of text that are replaced, in the order in which they are.
#[derive(Clone, Copy, Debug, PartialEq, Eq, Structural)]
pub enum Noise {
    /// The daily date in a system prompt.
    CurrentDate,
    /// The line that names a commit.
    CommitHash,
    /// The line that dates a commit.
    DateLine,
}

/// The characters with the Unicode property `White_Space`.
pub open spec fn is_space(c: char) -> bool {
    let u = c as int;
    ||| 0x9 <= u <= 0xD
    ||| u == 0x20
    ||| u == 0x85
    ||| u == 0xA0
    ||| u == 0x1680
    ||| 0x2000 <= u <= 0x200A
    ||| u == 0x2028
    ||| u == 0x2029
    ||| u == 0x202F
    ||| u == 0x205F
    ||| u == 0x3000
}

/// The code points beyond ASCII that stand for zero in some script; the nine
/// that follow each of them are the script's other digits.
pub open spec fn script_zeros() -> Seq<int> {
    seq![
        0x660, 0x6F0, 0x7C0, 0x966, 0x9E6, 0xA66, 0xAE6, 0xB66,
        0xBE6, 0xC66, 0xCE6, 0xD66, 0xDE6, 0xE50, 0xED0, 0xF20,
        0x1040, 0x1090, 0x17E0, 0x1810, 0x1946, 0x19D0, 0x1A80, 0x1A90,
        0x1B50, 0x1BB0, 0x1C40, 0x1C50, 0xA620, 0xA8D0, 0xA900, 0xA9D0,
        0xA9F0, 0xAA50, 0xABF0, 0xFF10, 0x104A0, 0x10D30, 0x10D40, 0x11066,
        0x110F0, 0x11136, 0x111D0, 0x112F0, 0x11450, 0x114D0, 0x11650, 0x116C0,
        0x116D0, 0x116DA, 0x11730, 0x118E0, 0x11950, 0x11BF0, 0x11C50, 0x11D50,
        0x11DA0, 0x11F50, 0x16130, 0x16A60, 0x16AC0, 0x16B50, 0x16D70, 0x1CCF0,
        0x1D7CE, 0x1D7D8, 0x1D7E2, 0x1D7EC, 0x1D7F6, 0x1E140, 0x1E2F0, 0x1E4F0,
        0x1E5F1, 0x1E950, 0x1FBF0,
    ]
}

/// The characters of the Unicode category `Nd`.
pub open spec fn is_decimal_digit(c: char) -> bool {
    let u = c as int;
    ||| 0x30 <= u <= 0x39
    ||| u >= 0x660 && exists|i: int|
        0 <= i < script_zeros().len() && #[trigger] script_zeros()[i] <= u < script_zeros()[i] + 10
}

/// `A` to `Z`.
pub open spec fn is_upper(c: char) -> bool {
    0x41 <= c as int <= 0x5A
}

/// `a` to `z`.
pub open spec fn is_lower(c: char) -> bool {
    0x61 <= c as int <= 0x7A
}

/// A digit of a commit hash: `0` to `9` or `a` to `f`.
pub open spec fn is_hash_digit(c: char) -> bool {
    0x30 <= c as int <= 0x39 || 0x61 <= c as int <= 0x66
}

/// Neither a line feed nor a backslash nor a quote: a date line runs on over
/// everything else. Inside a JSON string a backslash begins what is written for a
/// line feed, and a quote without one ends the string.
pub open spec fn is_on_line(c: char) -> bool {
    c != '\n' && c != '\\' && c != '"'
}

/// One upper-case letter and at least one lower-case letter after it.
pub open spec fn is_capitalized(s: Seq<char>) -> bool {
    &&& s.len() >= 2
    &&& is_upper(s[0])
    &&& forall|i: int| 1 <= i < s.len() ==> is_lower(#[trigger] s[i])
}

/// `n` decimal digits.
pub open spec fn is_number(s: Seq<char>, n: nat) -> bool {
    &&& s.len() == n
    &&& forall|i: int| 0 <= i < s.len() ==> is_decimal_digit(#[trigger] s[i])
}

/// The parts of a current date, put together.
pub open spec fn current_date(
    day: Seq<char>,
    month: Seq<char>,
    date: Seq<char>,
    year: Seq<char>,
) -> Seq<char> {
    "the current date is "@ + day + ", "@ + month + " "@ + date + ", "@ + year
}

/// The texts of one kind of noise.
pub open spec fn is_noise(kind: Noise, word: Seq<char>) -> bool {
    match kind {
        Noise::CurrentDate => exists|
            day: Seq<char>,
            month: Seq<char>,
            date: Seq<char>,
            year: Seq<char>,
        |
            {
                &&& word == #[trigger] current_date(day, month, date, year)
                &&& is_capitalized(day)
                &&& is_capitalized(month)
                &&& is_number(date, 2)
                &&& is_number(year, 4)
            },
        Noise::CommitHash => {
            &&& word.len() == 47
            &&& word.take(7) == "commit "@
            &&& forall|i: int| 7 <= i < 47 ==> is_hash_digit(#[trigger] word[i])
        },
        Noise::DateLine => exists|gap: int| is_date_line(word, gap),
    }
}

/// `Date:`, then `gap` white-space characters, then at least one character that
/// stays on the line.
pub open spec fn is_date_line(word: Seq<char>, gap: int) -> bool {
    &&& 1 <= gap < word.len() - 5
    &&& word.take(5) == "Date:"@
    &&& forall|i: int| 5 <= i < 5 + gap ==> is_space(#[trigger] word[i])
    &&& forall|i: int| 5 + gap <= i < word.len() ==> is_on_line(#[trigger] word[i])
}

/// The regular expression that describes one kind of noise.
pub open spec fn noise_pattern(kind: Noise) -> Seq<char> {
    match kind {
        Noise::CurrentDate => "the current date is [A-Z][a-z]+, [A-Z][a-z]+ \\d{2}, \\d{4}"@,
        Noise::CommitHash => "commit [0-9a-f]{40}"@,
        Noise::DateLine => "Date:\\s+[^\\n\\\\\"]+"@,
    }
}

/// What one kind of noise is replaced with.
pub open spec fn noise_placeholder(kind: Noise) -> Seq<char> {
    match kind {
        Noise::CurrentDate => "the current date is <DATE>"@,
        Noise::CommitHash => "commit <HASH>"@,
        Noise::DateLine => "Date: <DATE>"@,
    }
}

/// The largest `m` up to `n` for which the first `m` characters of `text` are
/// noise, or 0 if there is none.
pub open spec fn longest_noise(kind: Noise, text: Seq<char>, n: nat) -> nat
    decreases n,
{
    if n == 0 || is_noise(kind, text.take(n as int)) {
        n
    } else {
        longest_noise(kind, text, (n - 1) as nat)
    }
}

/// `text` with every occurrence of one kind of noise replaced, from left to
/// right, each occurrence taken as long as it can be.
pub open spec fn replaced(kind: Noise, text: Seq<char>, replacement: Seq<char>) -> Seq<char>
    decreases text.len(),
{
    let n = longest_noise(kind, text, text.len());
    if text.len() == 0 {
        text
    } else if 0 < n <= text.len() {
        replacement + replaced(kind, text.skip(n as int), replacement)
    } else {
        seq![text[0]] + replaced(kind, text.skip(1), replacement)
    }
}

/// `Regex::new` on one of the patterns above, all of which compile, and
/// `Regex::replace_all` with it. The search goes from left to right and its
/// matches do not overlap; the match that these three patterns prefer at a given
/// place is the longest one there. `\d` and `\s` are the Unicode classes. A
/// replacement without a dollar sign is inserted as it is.
#[verifier::external_body]
fn regex_replace_all(pattern: &str, text: &str, replacement: &str) -> (res: String)
    requires
        exists|kind: Noise| pattern@ == #[trigger] noise_pattern(kind),
        !replacement@.contains('$'),
    ensures
        forall|kind: Noise|
            pattern@ == #[trigger] noise_pattern(kind) ==> res@ == replaced(
                kind,
                text@,
                replacement@,
            ),
{
    regex::Regex::new(pattern).unwrap().replace_all(text, replacement).into_owned()
}

/// One kind of noise replaced by its placeholder.
pub open spec fn without(kind: Noise, text: Seq<char>) -> Seq<char> {
    replaced(kind, text, noise_placeholder(kind))
}

/// `text` with all noise replaced.
pub open spec fn scrubbed(text: Seq<char>) -> Seq<char> {
    without(Noise::DateLine, without(Noise::CommitHash, without(Noise::CurrentDate, text)))
}

fn without_noise(kind: Noise, text: &str) -> (res: String)
    ensures
        res@ == without(kind, text@),
{
    proof {
        reveal_strlit("the current date is <DATE>");
        reveal_strlit("commit <HASH>");
        reveal_strlit("Date: <DATE>");
    }
    let (pattern, placeholder) = match kind {
        Noise::CurrentDate => (
            "the current date is [A-Z][a-z]+, [A-Z][a-z]+ \\d{2}, \\d{4}",
            "the current date is <DATE>",
        ),
        Noise::CommitHash => ("commit [0-9a-f]{40}", "commit <HASH>"),
        Noise::DateLine => ("Date:\\s+[^\\n\\\\\"]+", "Date: <DATE>"),
    };
    assert(pattern@ == noise_pattern(kind));
    regex_replace_all(pattern, text, placeholder)
}

/// Replaces dates and commit hashes, so that requests that differ in nothing
/// else come out the same. Only the text that is hashed goes through here, never
/// the one that is sent.
pub fn scrub_nondeterministic_content(s: &str) -> (res: String)
    ensures
        res@ == scrubbed(s@),
{
    let result = without_noise(Noise::CurrentDate, s);
    let result = without_noise(Noise::CommitHash, result.as_str());
    without_noise(Noise::DateLine, result.as_str())
}

/// No noise begins in `a` and ends in `b` when the two are put together.
pub open spec fn stays_apart(kind: Noise, a: Seq<char>, b: Seq<char>) -> bool {
    forall|i: int, j: int|
        0 <= i < a.len() && a.len() < j <= a.len() + b.len() ==> !is_noise(
            kind,
            #[trigger] (a + b).subrange(i, j),
        )
}

pub proof fn lemma_longest(kind: Noise, text: Seq<char>, n: nat)
    requires
        n <= text.len(),
    ensures
        longest_noise(kind, text, n) <= n,
        longest_noise(kind, text, n) > 0 ==> is_noise(
            kind,
            text.take(longest_noise(kind, text, n) as int),
        ),
        forall|k: int|
            longest_noise(kind, text, n) < k <= n ==> !is_noise(kind, #[trigger] text.take(k)),
    decreases n,
{
    if n > 0 && !is_noise(kind, text.take(n as int)) {
        lemma_longest(kind, text, (n - 1) as nat);
    }
}

/// A prefix that is noise, with no longer one, is the match.
pub proof fn lemma_match_at_front(kind: Noise, word: Seq<char>, rest: Seq<char>, replacement: Seq<char>)
    requires
        word.len() > 0,
        is_noise(kind, word),
        forall|k: int|
            word.len() < k <= word.len() + rest.len() ==> !is_noise(
                kind,
                #[trigger] (word + rest).take(k),
            ),
    ensures
        replaced(kind, word + rest, replacement) == replacement + replaced(kind, rest, replacement),
{
    let text = word + rest;
    lemma_longest(kind, text, text.len());
    assert(text.take(word.len() as int) =~= word);
    assert(text.skip(word.len() as int) =~= rest);
}

pub proof fn lemma_no_match_at_front(kind: Noise, text: Seq<char>, replacement: Seq<char>)
    requires
        text.len() > 0,
        forall|k: int| 0 < k <= text.len() ==> !is_noise(kind, #[trigger] text.take(k)),
    ensures
        replaced(kind, text, replacement) == seq![text[0]] + replaced(
            kind,
            text.skip(1),
            replacement,
        ),
{
    lemma_longest(kind, text, text.len());
}

/// Texts that stay apart are scrubbed one by one.
pub proof fn lemma_replaced_apart(kind: Noise, a: Seq<char>, b: Seq<char>, replacement: Seq<char>)
    requires
        stays_apart(kind, a, b),
    ensures
        replaced(kind, a + b, replacement) == replaced(kind, a, replacement) + replaced(
            kind,
            b,
            replacement,
        ),
    decreases a.len(),
{
    let text = a + b;
    if a.len() == 0 {
        assert(text =~= b);
        assert(replaced(kind, a, replacement) + replaced(kind, b, replacement) =~= replaced(
            kind,
            b,
            replacement,
        ));
    } else {
        let n = longest_noise(kind, text, text.len());
        let m = longest_noise(kind, a, a.len());
        lemma_longest(kind, text, text.len());
        lemma_longest(kind, a, a.len());
        assert forall|k: int| 0 <= k <= a.len() implies text.take(k) == #[trigger] a.take(k) by {
            assert(text.take(k) =~= a.take(k));
        }
        assert(n <= a.len()) by {
            if n > a.len() {
                assert(text.take(n as int) =~= text.subrange(0, n as int));
            }
        }
        assert(n == m) by {
            if n > m {
                assert(text.take(n as int) == a.take(n as int));
            } else if m > n {
                assert(text.take(m as int) == a.take(m as int));
            }
        }
        let step: int = if n > 0 { n as int } else { 1 };
        let tail = a.skip(step);
        assert(text.skip(step) =~= tail + b);
        assert forall|i: int, j: int|
            0 <= i < tail.len() && tail.len() < j <= tail.len() + b.len() implies !is_noise(
            kind,
            #[trigger] (tail + b).subrange(i, j),
        ) by {
            assert((tail + b).subrange(i, j) =~= text.subrange(i + step, j + step));
        }
        lemma_replaced_apart(kind, tail, b, replacement);
        assert(replaced(kind, text, replacement) =~= replaced(kind, a, replacement) + replaced(
            kind,
            b,
            replacement,
        ));
    }
}

/// A text without noise is left as it is.
pub proof fn lemma_untouched(kind: Noise, text: Seq<char>, replacement: Seq<char>)
    requires
        forall|i: int, j: int|
            0 <= i < j <= text.len() ==> !is_noise(kind, #[trigger] text.subrange(i, j)),
    ensures
        replaced(kind, text, replacement) == text,
    decreases text.len(),
{
    if text.len() > 0 {
        assert forall|k: int| 0 < k <= text.len() implies !is_noise(
            kind,
            #[trigger] text.take(k),
        ) by {
            assert(text.take(k) =~= text.subrange(0, k));
        }
        lemma_no_match_at_front(kind, text, replacement);
        let tail = text.skip(1);
        assert forall|i: int, j: int| 0 <= i < j <= tail.len() implies !is_noise(
            kind,
            #[trigger] tail.subrange(i, j),
        ) by {
            assert(tail.subrange(i, j) =~= text.subrange(i + 1, j + 1));
        }
        lemma_untouched(kind, tail, replacement);
        assert(seq![text[0]] + tail =~= text);
    }
}

/// Where the parts of a current date stand: the result gives the two spaces
/// around the month.
pub proof fn lemma_current_date_parts(w: Seq<char>) -> (r: (int, int))
    requires
        is_noise(Noise::CurrentDate, w),
    ensures
        23 <= r.0,
        r.0 + 3 <= r.1,
        w.len() == r.1 + 9,
        w.take(20) == "the current date is "@,
        is_upper(w[20]),
        forall|i: int| 21 <= i < r.0 - 1 ==> is_lower(#[trigger] w[i]),
        w[r.0 - 1] == ',',
        w[r.0] == ' ',
        is_upper(w[r.0 + 1]),
        forall|i: int| r.0 + 2 <= i < r.1 ==> is_lower(#[trigger] w[i]),
        w[r.1] == ' ',
        is_decimal_digit(w[r.1 + 1]),
        is_decimal_digit(w[r.1 + 2]),
        w[r.1 + 3] == ',',
        w[r.1 + 4] == ' ',
        forall|i: int| r.1 + 5 <= i < r.1 + 9 ==> is_decimal_digit(#[trigger] w[i]),
{
    reveal_strlit("the current date is ");
    reveal_strlit(", ");
    reveal_strlit(" ");
    let (day, month, date, year) = choose|
        day: Seq<char>,
        month: Seq<char>,
        date: Seq<char>,
        year: Seq<char>,
    |
        {
            &&& w == #[trigger] current_date(day, month, date, year)
            &&& is_capitalized(day)
            &&& is_capitalized(month)
            &&& is_number(date, 2)
            &&& is_number(year, 4)
        };
    let s1: int = 21 + day.len() as int;
    let s2: int = s1 + 1 + month.len() as int;
    assert(w.take(20) =~= "the current date is "@);
    assert forall|i: int| 0 <= i < day.len() implies w[20 + i] == #[trigger] day[i] by {}
    assert forall|i: int| 0 <= i < month.len() implies w[s1 + 1 + i] == #[trigger] month[i] by {}
    assert forall|i: int| 21 <= i < s1 - 1 implies is_lower(#[trigger] w[i]) by {
        assert(is_lower(day[i - 20]));
    }
    assert forall|i: int| s1 + 2 <= i < s2 implies is_lower(#[trigger] w[i]) by {
        assert(is_lower(month[i - s1 - 1]));
    }
    assert(w[20] == day[0]);
    assert(w[s1 + 1] == month[0]);
    assert(w[s2 + 1] == date[0]);
    assert(w[s2 + 2] == date[1]);
    assert forall|i: int| s2 + 5 <= i < s2 + 9 implies is_decimal_digit(#[trigger] w[i]) by {
        assert(w[i] == year[i - s2 - 5]);
    }
    (s1, s2)
}

/// No current date continues another one.
proof fn lemma_current_date_prefix_free(u: Seq<char>, v: Seq<char>)
    requires
        is_noise(Noise::CurrentDate, u),
        is_noise(Noise::CurrentDate, v),
        u.len() <= v.len(),
        v.take(u.len() as int) == u,
    ensures
        u.len() == v.len(),
{
    let (s1, s2) = lemma_current_date_parts(u);
    let (t1, t2) = lemma_current_date_parts(v);
    assert forall|i: int| 0 <= i < u.len() implies u[i] == #[trigger] v[i] by {
        assert(v.take(u.len() as int)[i] == v[i]);
    }
    assert(s1 == t1) by {
        assert(u[s1 - 1] == v[s1 - 1]);
        if t1 < s1 {
            assert(u[t1 - 1] == v[t1 - 1]);
        }
    }
    assert(u[s2] == v[s2]);
    if t2 < s2 {
        assert(u[t2] == v[t2]);
    }
}

/// A current date ends in a digit.
spec fn last_of_date_is_digit(w: Seq<char>) -> bool {
    is_decimal_digit(w[w.len() - 1])
}

/// The fixed words of a current date begin with `th`, and hold neither that nor
/// `co` further on.
proof fn lemma_current_date_letters(w: Seq<char>, p: int)
    requires
        is_noise(Noise::CurrentDate, w),
        0 < p < 20,
    ensures
        !(w[p] == 't' && w[p + 1] == 'h'),
        !(w[p] == 'c' && w[p + 1] == 'o'),
{
    let (s1, s2) = lemma_current_date_parts(w);
    reveal_strlit("the current date is ");
    assert forall|q: int| 0 <= q < 20 implies #[trigger] w[q] == "the current date is "@[q] by {
        assert(w.take(20)[q] == w[q]);
    }
    assert(p == 1 || p == 2 || p == 3 || p == 4 || p == 5 || p == 6 || p == 7 || p == 8 || p == 9
        || p == 10 || p == 11 || p == 12 || p == 13 || p == 14 || p == 15 || p == 16 || p == 17
        || p == 18 || p == 19);
}

/// Behind its fixed words, a space in a current date comes before a capital or a
/// digit, and before a digit only where a letter or a comma comes before it.
proof fn lemma_current_date_spaces(w: Seq<char>, q: int)
    requires
        is_noise(Noise::CurrentDate, w),
        20 <= q < w.len() - 1,
        w[q] == ' ',
    ensures
        is_upper(w[q + 1]) || (is_decimal_digit(w[q + 1]) && (w[q - 1] == ',' || (q + 3 < w.len()
            && w[q + 3] == ','))),
{
    let (s1, s2) = lemma_current_date_parts(w);
    if q < s1 {
        assert(q == 20 || q == s1 - 1 || is_lower(w[q]));
    } else if s1 < q < s2 {
        assert(q == s1 + 1 || is_lower(w[q]));
    } else if s2 + 4 < q {
        assert(is_decimal_digit(w[q]));
    }
}

/// A text that begins like a current date is not begun by an earlier one.
proof fn lemma_apart_from_current_date(pre: Seq<char>, t: Seq<char>)
    requires
        t.len() >= 5,
        t.take(5) == "the c"@,
    ensures
        stays_apart(Noise::CurrentDate, pre, t),
{
    reveal_strlit("the c");
    reveal_strlit("the current date is ");
    assert forall|k: int| 0 <= k < 5 implies #[trigger] t[k] == "the c"@[k] by {
        assert(t.take(5)[k] == t[k]);
    }
    assert forall|i: int, j: int|
        0 <= i < pre.len() && pre.len() < j <= pre.len() + t.len() implies !is_noise(
        Noise::CurrentDate,
        #[trigger] (pre + t).subrange(i, j),
    ) by {
        let w = (pre + t).subrange(i, j);
        if is_noise(Noise::CurrentDate, w) {
            let (s1, s2) = lemma_current_date_parts(w);
            let p = pre.len() - i;
            assert(last_of_date_is_digit(w));
            let last = w.len() - 1 - p;
            assert(w[p + last] == t[last]);
            if last <= 4 {
                assert(last == 0 || last == 1 || last == 2 || last == 3 || last == 4);
            }
            assert(w[p] == t[0] && w[p + 1] == t[1] && w[p + 3] == t[3] && w[p + 4] == t[4]);
            if p < 20 {
                lemma_current_date_letters(w, p);
            } else {
                lemma_current_date_spaces(w, p + 3);
            }
        }
    }
}

/// Scrubbing dates gives the same whatever the date is.
proof fn lemma_current_date_replaced(pre: Seq<char>, d: Seq<char>, post: Seq<char>)
    requires
        is_noise(Noise::CurrentDate, d),
    ensures
        without(Noise::CurrentDate, pre + d + post) == without(Noise::CurrentDate, pre)
            + noise_placeholder(Noise::CurrentDate) + without(Noise::CurrentDate, post),
{
    let kind = Noise::CurrentDate;
    let rep = noise_placeholder(kind);
    let t = d + post;
    let (s1, s2) = lemma_current_date_parts(d);
    reveal_strlit("the c");
    reveal_strlit("the current date is ");
    assert(t.take(5) =~= "the c"@) by {
        assert forall|k: int| 0 <= k < 5 implies t.take(5)[k] == "the c"@[k] by {
            assert(d.take(20)[k] == d[k]);
        }
    }
    lemma_apart_from_current_date(pre, t);
    lemma_replaced_apart(kind, pre, t, rep);
    assert forall|k: int| d.len() < k <= d.len() + post.len() implies !is_noise(
        kind,
        #[trigger] (d + post).take(k),
    ) by {
        let v = (d + post).take(k);
        if is_noise(kind, v) {
            assert(v.take(d.len() as int) =~= d);
            lemma_current_date_prefix_free(d, v);
        }
    }
    lemma_match_at_front(kind, d, post, rep);
    assert(pre + d + post =~= pre + t);
    assert(without(kind, pre + d + post) =~= without(kind, pre) + rep + without(kind, post));
}

/// The date of the day has no part in what is left after scrubbing: one current
/// date in the text may be exchanged for another.
pub proof fn current_date_is_ignored(
    pre: Seq<char>,
    date1: Seq<char>,
    date2: Seq<char>,
    post: Seq<char>,
)
    requires
        is_noise(Noise::CurrentDate, date1),
        is_noise(Noise::CurrentDate, date2),
    ensures
        scrubbed(pre + date1 + post) == scrubbed(pre + date2 + post),
{
    lemma_current_date_replaced(pre, date1, post);
    lemma_current_date_replaced(pre, date2, post);
}

/// If what is left does not hold the last character of the replacement, nothing
/// was replaced.
proof fn lemma_nothing_replaced(kind: Noise, text: Seq<char>, replacement: Seq<char>)
    requires
        replacement.len() > 0,
        !replaced(kind, text, replacement).contains(replacement.last()),
    ensures
        replaced(kind, text, replacement) == text,
    decreases text.len(),
{
    let out = replaced(kind, text, replacement);
    let n = longest_noise(kind, text, text.len());
    lemma_longest(kind, text, text.len());
    if text.len() > 0 {
        if n > 0 {
            assert(out[replacement.len() - 1] == replacement.last());
        } else {
            let tail = replaced(kind, text.skip(1), replacement);
            assert forall|i: int| 0 <= i < tail.len() implies tail[i] != replacement.last() by {
                assert(out[i + 1] == tail[i]);
            }
            lemma_nothing_replaced(kind, text.skip(1), replacement);
            assert(out =~= text);
        }
    }
}

/// An end of the scrubbed text that does not hold the last character of the
/// replacement was an end of the text already.
proof fn lemma_end_kept(
    kind: Noise,
    text: Seq<char>,
    replacement: Seq<char>,
    front: Seq<char>,
    end: Seq<char>,
)
    requires
        replacement.len() > 0,
        replaced(kind, text, replacement) == front + end,
        !end.contains(replacement.last()),
    ensures
        end.len() <= text.len(),
        text.skip(text.len() - end.len()) == end,
    decreases text.len(),
{
    let out = replaced(kind, text, replacement);
    let n = longest_noise(kind, text, text.len());
    lemma_longest(kind, text, text.len());
    if text.len() == 0 {
        assert(end =~= text);
    } else {
        let step: int = if n > 0 { n as int } else { 1 };
        let head = if n > 0 { replacement } else { seq![text[0]] };
        let tail = replaced(kind, text.skip(step), replacement);
        assert(out == head + tail);
        if end.len() <= tail.len() {
            let front2 = tail.take(tail.len() - end.len());
            assert(tail =~= front2 + end) by {
                assert forall|i: int| 0 <= i < end.len() implies tail[front2.len() + i]
                    == #[trigger] end[i] by {
                    assert(out[front.len() + i] == end[i]);
                }
            }
            lemma_end_kept(kind, text.skip(step), replacement, front2, end);
            assert(text.skip(text.len() - end.len()) =~= end) by {
                let t2 = text.skip(step);
                assert(t2.skip(t2.len() - end.len()) =~= text.skip(text.len() - end.len()));
            }
        } else {
            let k = head.len() - 1 - front.len();
            assert(out[front.len() + k] == end[k]);
            assert(out[front.len() + k] == head.last());
            assert(n == 0);
            assert(end =~= out) by {
                assert(front.len() == 0);
            }
            lemma_nothing_replaced(kind, text, replacement);
            assert(text.skip(0) =~= text);
        }
    }
}

/// `pre` ends like a commit line that lacks the last digit of its hash.
pub open spec fn ends_in_open_commit(pre: Seq<char>) -> bool {
    &&& pre.len() >= 46
    &&& pre.skip(pre.len() - 46).take(7) == "commit "@
    &&& forall|i: int| pre.len() - 39 <= i < pre.len() ==> is_hash_digit(#[trigger] pre[i])
}

/// A commit line is not part of a current date, nor does one begin in it.
proof fn lemma_commit_has_no_current_date(pre: Seq<char>, c: Seq<char>, post: Seq<char>)
    requires
        is_noise(Noise::CommitHash, c),
    ensures
        without(Noise::CurrentDate, pre + c + post) == without(Noise::CurrentDate, pre) + c
            + without(Noise::CurrentDate, post),
{
    let kind = Noise::CurrentDate;
    let rep = noise_placeholder(kind);
    let t = c + post;
    reveal_strlit("commit ");
    reveal_strlit("the current date is ");
    assert forall|k: int| 0 <= k < 7 implies #[trigger] c[k] == "commit "@[k] by {
        assert(c.take(7)[k] == c[k]);
    }
    assert forall|i: int, j: int|
        0 <= i < pre.len() && pre.len() < j <= pre.len() + t.len() implies !is_noise(
        kind,
        #[trigger] (pre + t).subrange(i, j),
    ) by {
        let w = (pre + t).subrange(i, j);
        if is_noise(kind, w) {
            let (s1, s2) = lemma_current_date_parts(w);
            let p = pre.len() - i;
            assert forall|k: int| 0 <= k < 47 && p + k < w.len() implies w[p + k]
                == #[trigger] c[k] by {}
            assert(last_of_date_is_digit(w));
            let last = w.len() - 1 - p;
            if last <= 6 {
                assert(w[p + last] == c[last]);
                assert(last == 0 || last == 1 || last == 2 || last == 3 || last == 4 || last == 5
                    || last == 6);
            }
            assert(w[p] == c[0] && w[p + 1] == c[1] && w[p + 5] == c[5] && w[p + 6] == c[6] && w[p
                + 7] == c[7]);
            if p < 20 {
                lemma_current_date_letters(w, p);
            } else {
                lemma_current_date_spaces(w, p + 6);
                assert(is_hash_digit(c[7]));
                if p + 9 < w.len() {
                    assert(w[p + 9] == c[9]);
                }
            }
        }
    }
    lemma_replaced_apart(kind, pre, t, rep);
    assert forall|i: int, j: int|
        0 <= i < c.len() && i < j <= c.len() + post.len() implies !is_noise(
        kind,
        #[trigger] (c + post).subrange(i, j),
    ) by {
        let w = (c + post).subrange(i, j);
        if is_noise(kind, w) {
            let (s1, s2) = lemma_current_date_parts(w);
            assert(w[0] == w.take(20)[0] && w[1] == w.take(20)[1]);
            assert(w[0] == c[i]);
            if i < 46 {
                assert(w[1] == c[i + 1]);
            }
            if i < 7 {
                assert(i == 0 || i == 1 || i == 2 || i == 3 || i == 4 || i == 5 || i == 6);
            }
        }
    }
    lemma_replaced_apart(kind, c, post, rep);
    assert forall|i: int, j: int| 0 <= i < j <= c.len() implies !is_noise(
        kind,
        #[trigger] c.subrange(i, j),
    ) by {
        assert(c.subrange(i, j) =~= (c + post).subrange(i, j));
    }
    lemma_untouched(kind, c, rep);
    assert(pre + c + post =~= pre + t);
    assert(without(kind, pre + c + post) =~= without(kind, pre) + c + without(kind, post));
}

/// Scrubbing commit hashes gives the same whatever the hash is.
proof fn lemma_commit_replaced(pre: Seq<char>, c: Seq<char>, post: Seq<char>)
    requires
        is_noise(Noise::CommitHash, c),
        !ends_in_open_commit(pre),
    ensures
        without(Noise::CommitHash, pre + c + post) == without(Noise::CommitHash, pre)
            + noise_placeholder(Noise::CommitHash) + without(Noise::CommitHash, post),
{
    let kind = Noise::CommitHash;
    let rep = noise_placeholder(kind);
    let t = c + post;
    reveal_strlit("commit ");
    assert(c[0] == c.take(7)[0] && c[1] == c.take(7)[1]);
    assert forall|i: int, j: int|
        0 <= i < pre.len() && pre.len() < j <= pre.len() + t.len() implies !is_noise(
        kind,
        #[trigger] (pre + t).subrange(i, j),
    ) by {
        let w = (pre + t).subrange(i, j);
        if is_noise(kind, w) {
            let p = pre.len() - i;
            assert(w[p] == c[0]);
            if p < 7 {
                assert(w.take(7)[p] == w[p]);
                assert(p == 1 || p == 2 || p == 3 || p == 4 || p == 5 || p == 6);
            } else if p < 46 {
                assert(w[p + 1] == c[1]);
            } else {
                assert(pre.skip(pre.len() - 46).take(7) =~= w.take(7));
                assert forall|q: int| pre.len() - 39 <= q < pre.len() implies is_hash_digit(
                    #[trigger] pre[q],
                ) by {
                    assert(w[q - i] == pre[q]);
                }
            }
        }
    }
    lemma_replaced_apart(kind, pre, t, rep);
    lemma_match_at_front(kind, c, post, rep);
    assert(pre + c + post =~= pre + t);
    assert(without(kind, pre + c + post) =~= without(kind, pre) + rep + without(kind, post));
}

/// A commit hash has no part in what is left after scrubbing: one commit line
/// may be exchanged for another. The exception is a line that follows directly
/// on a commit line with a hash too short by one digit, which takes the `c` of
/// `commit` for that digit.
pub proof fn commit_hash_is_ignored(
    pre: Seq<char>,
    commit1: Seq<char>,
    commit2: Seq<char>,
    post: Seq<char>,
)
    requires
        is_noise(Noise::CommitHash, commit1),
        is_noise(Noise::CommitHash, commit2),
        !ends_in_open_commit(pre),
    ensures
        scrubbed(pre + commit1 + post) == scrubbed(pre + commit2 + post),
{
    let rep = noise_placeholder(Noise::CurrentDate);
    let pre1 = without(Noise::CurrentDate, pre);
    let post1 = without(Noise::CurrentDate, post);
    reveal_strlit("the current date is <DATE>");
    reveal_strlit("commit ");
    assert(!ends_in_open_commit(pre1)) by {
        if ends_in_open_commit(pre1) {
            let end = pre1.skip(pre1.len() - 46);
            let front = pre1.take(pre1.len() - 46);
            assert(pre1 =~= front + end);
            assert forall|i: int| 0 <= i < end.len() implies end[i] != '>' by {
                if i < 7 {
                    assert(end.take(7)[i] == end[i]);
                    assert(i == 0 || i == 1 || i == 2 || i == 3 || i == 4 || i == 5 || i == 6);
                } else {
                    assert(is_hash_digit(pre1[pre1.len() - 46 + i]));
                }
            }
            lemma_end_kept(Noise::CurrentDate, pre, rep, front, end);
            assert forall|i: int| pre.len() - 39 <= i < pre.len() implies is_hash_digit(
                #[trigger] pre[i],
            ) by {
                let k = i - (pre.len() - 46);
                assert(pre.skip(pre.len() - 46)[k] == end[k]);
                assert(end[k] == pre1[pre1.len() - 46 + k]);
            }
        }
    }
    lemma_commit_has_no_current_date(pre, commit1, post);
    lemma_commit_has_no_current_date(pre, commit2, post);
    lemma_commit_replaced(pre1, commit1, post1);
    lemma_commit_replaced(pre1, commit2, post1);
}

/// What follows `Date:` on a line: white space first, and something else later.
pub open spec fn is_dated(rest: Seq<char>) -> bool {
    &&& rest.len() > 0
    &&& is_space(rest[0])
    &&& forall|i: int| 0 <= i < rest.len() ==> is_on_line(#[trigger] rest[i])
    &&& exists|i: int| 0 <= i < rest.len() && !is_space(#[trigger] rest[i])
}

/// The end of the text or a character that ends a line.
pub open spec fn breaks_off(post: Seq<char>) -> bool {
    post.len() == 0 || !is_on_line(post[0])
}

/// Neither a current date nor a commit line holds a colon, a quote, a backslash
/// or a control character, and neither is as short as `Date:`.
pub proof fn lemma_noise_characters(kind: Noise, w: Seq<char>)
    requires
        kind != Noise::DateLine,
        is_noise(kind, w),
    ensures
        forall|i: int|
            0 <= i < w.len() ==> #[trigger] w[i] != ':' && is_on_line(w[i]) && w[i] != '"' && w[i]
                as int >= 0x20,
        w.len() > 5,
        !is_space(w[0]),
{
    if kind == Noise::CurrentDate {
        let (s1, s2) = lemma_current_date_parts(w);
        reveal_strlit("the current date is ");
        assert forall|i: int| 0 <= i < w.len() implies #[trigger] w[i] != ':' && is_on_line(
            w[i],
        ) && w[i] != '"' && w[i] as int >= 0x20 by {
            if i < 20 {
                assert(w.take(20)[i] == w[i]);
                assert(i == 0 || i == 1 || i == 2 || i == 3 || i == 4 || i == 5 || i == 6 || i == 7
                    || i == 8 || i == 9 || i == 10 || i == 11 || i == 12 || i == 13 || i == 14 || i
                    == 15 || i == 16 || i == 17 || i == 18 || i == 19);
            }
        }
        assert(w.take(20)[0] == w[0]);
    } else {
        reveal_strlit("commit ");
        assert forall|i: int| 0 <= i < w.len() implies #[trigger] w[i] != ':' && is_on_line(
            w[i],
        ) && w[i] != '"' && w[i] as int >= 0x20 by {
            if i < 7 {
                assert(w.take(7)[i] == w[i]);
                assert(i == 0 || i == 1 || i == 2 || i == 3 || i == 4 || i == 5 || i == 6);
            }
        }
        assert(w.take(7)[0] == w[0]);
    }
}

/// The other two kinds of noise are replaced before, on and after a date line,
/// but not across its ends.
proof fn lemma_date_line_apart(kind: Noise, pre: Seq<char>, rest: Seq<char>, post: Seq<char>)
    requires
        kind != Noise::DateLine,
        breaks_off(post),
    ensures
        without(kind, pre + "Date:"@ + rest + post) == without(kind, pre) + "Date:"@ + without(
            kind,
            rest,
        ) + without(kind, post),
{
    reveal_strlit("Date:");
    let rep = noise_placeholder(kind);
    let date = "Date:"@;
    let a = pre + date;
    let b = rest + post;
    assert forall|i: int, j: int|
        0 <= i < a.len() && a.len() < j <= a.len() + b.len() implies !is_noise(
        kind,
        #[trigger] (a + b).subrange(i, j),
    ) by {
        let w = (a + b).subrange(i, j);
        if is_noise(kind, w) {
            lemma_noise_characters(kind, w);
            assert(w[a.len() - 1 - i] == ':');
        }
    }
    lemma_replaced_apart(kind, a, b, rep);
    assert forall|i: int, j: int|
        0 <= i < pre.len() && pre.len() < j <= pre.len() + date.len() implies !is_noise(
        kind,
        #[trigger] (pre + date).subrange(i, j),
    ) by {
        let w = (pre + date).subrange(i, j);
        let p = pre.len() - i;
        if is_noise(kind, w) {
            assert(w[p] == date[0]);
            if kind == Noise::CurrentDate {
                let (s1, s2) = lemma_current_date_parts(w);
                let last = w.len() - 1 - p;
                assert(w[p + last] == date[last]);
                assert(last == 0 || last == 1 || last == 2 || last == 3 || last == 4);
            } else {
                reveal_strlit("commit ");
                if p < 7 {
                    assert(w.take(7)[p] == w[p]);
                    assert(p == 1 || p == 2 || p == 3 || p == 4 || p == 5 || p == 6);
                }
            }
        }
    }
    lemma_replaced_apart(kind, pre, date, rep);
    assert forall|i: int, j: int| 0 <= i < j <= date.len() implies !is_noise(
        kind,
        #[trigger] date.subrange(i, j),
    ) by {
        if is_noise(kind, date.subrange(i, j)) {
            lemma_noise_characters(kind, date.subrange(i, j));
        }
    }
    lemma_untouched(kind, date, rep);
    assert forall|i: int, j: int|
        0 <= i < rest.len() && rest.len() < j <= rest.len() + post.len() implies !is_noise(
        kind,
        #[trigger] (rest + post).subrange(i, j),
    ) by {
        let w = (rest + post).subrange(i, j);
        if is_noise(kind, w) {
            lemma_noise_characters(kind, w);
            assert(w[rest.len() - i] == post[0]);
        }
    }
    lemma_replaced_apart(kind, rest, post, rep);
    assert(pre + date + rest + post =~= a + b);
    assert(without(kind, pre + date + rest + post) =~= without(kind, pre) + date + without(
        kind,
        rest,
    ) + without(kind, post));
}

/// Replacing the other two kinds of noise keeps to the line, and something other
/// than white space on it.
proof fn lemma_replaced_on_line(kind: Noise, text: Seq<char>)
    requires
        kind != Noise::DateLine,
        forall|i: int| 0 <= i < text.len() ==> is_on_line(#[trigger] text[i]),
    ensures
        forall|i: int|
            0 <= i < without(kind, text).len() ==> is_on_line(#[trigger] without(kind, text)[i]),
        (exists|i: int| 0 <= i < text.len() && !is_space(#[trigger] text[i])) ==> (exists|i: int|
            0 <= i < without(kind, text).len() && !is_space(#[trigger] without(kind, text)[i])),
    decreases text.len(),
{
    let rep = noise_placeholder(kind);
    let out = without(kind, text);
    let n = longest_noise(kind, text, text.len());
    lemma_longest(kind, text, text.len());
    if text.len() > 0 {
        let step: int = if n > 0 { n as int } else { 1 };
        let head = if n > 0 { rep } else { seq![text[0]] };
        let rest = text.skip(step);
        let tail = without(kind, rest);
        lemma_replaced_on_line(kind, rest);
        assert(out == head + tail);
        lemma_placeholder_on_line(kind);
        assert forall|i: int| 0 <= i < out.len() implies is_on_line(#[trigger] out[i]) by {
            if i < head.len() {
                assert(out[i] == head[i]);
            } else {
                assert(out[i] == tail[i - head.len()]);
            }
        }
        if exists|i: int| 0 <= i < text.len() && !is_space(#[trigger] text[i]) {
            let i = choose|i: int| 0 <= i < text.len() && !is_space(#[trigger] text[i]);
            if n > 0 || i == 0 {
                assert(out[0] == head[0]);
                assert(!is_space(out[0]));
            } else {
                assert(rest[i - 1] == text[i]);
                let k = choose|k: int| 0 <= k < tail.len() && !is_space(#[trigger] tail[k]);
                assert(out[k + 1] == tail[k]);
            }
        }
    }
}

proof fn lemma_placeholder_on_line(kind: Noise)
    requires
        kind != Noise::DateLine,
    ensures
        noise_placeholder(kind).len() > 0,
        forall|i: int|
            0 <= i < noise_placeholder(kind).len() ==> is_on_line(
                #[trigger] noise_placeholder(kind)[i],
            ),
        !is_space(noise_placeholder(kind)[0]),
{
    reveal_strlit("the current date is <DATE>");
    reveal_strlit("commit <HASH>");
    let rep = noise_placeholder(kind);
    assert forall|i: int| 0 <= i < rep.len() implies is_on_line(#[trigger] rep[i]) by {
        assert(i == 0 || i == 1 || i == 2 || i == 3 || i == 4 || i == 5 || i == 6 || i == 7 || i == 8
            || i == 9 || i == 10 || i == 11 || i == 12 || i == 13 || i == 14 || i == 15 || i == 16
            || i == 17 || i == 18 || i == 19 || i == 20 || i == 21 || i == 22 || i == 23 || i == 24
            || i == 25);
    }
}

/// Replacing the other two kinds of noise leaves a date line a date line.
proof fn lemma_still_dated(kind: Noise, rest: Seq<char>)
    requires
        kind != Noise::DateLine,
        is_dated(rest),
    ensures
        is_dated(without(kind, rest)),
{
    lemma_replaced_on_line(kind, rest);
    assert forall|k: int| 0 < k <= rest.len() implies !is_noise(kind, #[trigger] rest.take(k)) by {
        if is_noise(kind, rest.take(k)) {
            lemma_noise_characters(kind, rest.take(k));
            assert(rest.take(k)[0] == rest[0]);
        }
    }
    lemma_no_match_at_front(kind, rest, noise_placeholder(kind));
}

/// Replacing the other two kinds of noise leaves the end of a line in place.
proof fn lemma_still_breaks_off(kind: Noise, post: Seq<char>)
    requires
        kind != Noise::DateLine,
        breaks_off(post),
    ensures
        breaks_off(without(kind, post)),
{
    if post.len() > 0 {
        assert forall|k: int| 0 < k <= post.len() implies !is_noise(
            kind,
            #[trigger] post.take(k),
        ) by {
            if is_noise(kind, post.take(k)) {
                lemma_noise_characters(kind, post.take(k));
                assert(post.take(k)[0] == post[0]);
            }
        }
        lemma_no_match_at_front(kind, post, noise_placeholder(kind));
    }
}

/// A date line that began in `pre` and reached the date line after it runs on to
/// the end of that one.
proof fn lemma_date_line_runs_on(pre: Seq<char>, rest: Seq<char>, post: Seq<char>, gap: int, m: int)
    requires
        is_dated(rest),
        breaks_off(post),
        pre.len() < m <= pre.len() + 5 + rest.len() + post.len(),
        is_date_line((pre + "Date:"@ + rest + post).take(m), gap),
    ensures
        m <= pre.len() + 5 + rest.len(),
        pre.len() > 0 ==> pre.len() >= 5 + gap,
        pre.len() > 0 ==> is_date_line(pre + "Date:"@ + rest, gap),
{
    reveal_strlit("Date:");
    let date = "Date:"@;
    let text = pre + date + rest + post;
    let w = text.take(m);
    let p = pre.len() as int;
    assert(w[p] == text[p] && text[p] == date[0]);
    assert forall|k: int| 0 <= k < 5 implies #[trigger] w[k] == date[k] by {
        assert(w.take(5)[k] == w[k]);
    }
    if p > 0 {
        if p < 5 {
            assert(p == 1 || p == 2 || p == 3 || p == 4);
        }
        assert(p >= 5 + gap) by {
            if p < 5 + gap {
                assert(is_space(w[p]));
            }
        }
    }
    if m > p + 5 + rest.len() {
        let at = p + 5 + rest.len();
        assert(w[at] == post[0]);
        let k = choose|k: int| 0 <= k < rest.len() && !is_space(#[trigger] rest[k]);
        assert(w[p + 5 + k] == rest[k]);
        assert(at >= 5 + gap) by {
            if 5 + gap > p + 5 + k {
                assert(is_space(w[p + 5 + k]));
            }
        }
        assert(is_on_line(w[at]));
    }
    if p > 0 {
        let full = pre + date + rest;
        assert(full.take(5) =~= date) by {
            assert forall|k: int| 0 <= k < 5 implies full.take(5)[k] == #[trigger] date[k] by {
                assert(w[k] == full[k]);
            }
        }
        assert forall|i: int| 5 <= i < 5 + gap implies is_space(#[trigger] full[i]) by {
            assert(w[i] == full[i]);
        }
        assert forall|i: int| 5 + gap <= i < full.len() implies is_on_line(#[trigger] full[i]) by {
            if i < p {
                assert(w[i] == full[i]);
            } else if i < p + 5 {
                let k = i - p;
                assert(full[i] == date[k]);
                assert(k == 0 || k == 1 || k == 2 || k == 3 || k == 4);
            } else {
                assert(full[i] == rest[i - p - 5]);
            }
        }
    }
}

/// Scrubbing date lines gives the same whatever the date is.
proof fn lemma_date_line_replaced(
    pre: Seq<char>,
    rest1: Seq<char>,
    rest2: Seq<char>,
    post: Seq<char>,
)
    requires
        is_dated(rest1),
        is_dated(rest2),
        breaks_off(post),
    ensures
        without(Noise::DateLine, pre + "Date:"@ + rest1 + post) == without(
            Noise::DateLine,
            pre + "Date:"@ + rest2 + post,
        ),
    decreases pre.len(),
{
    reveal_strlit("Date:");
    let kind = Noise::DateLine;
    let rep = noise_placeholder(kind);
    let date = "Date:"@;
    let text1 = pre + date + rest1 + post;
    let text2 = pre + date + rest2 + post;
    if pre.len() == 0 || crosses_into_date_line(pre, rest1, post) || crosses_into_date_line(
        pre,
        rest2,
        post,
    ) {
        lemma_date_line_swallowed(pre, rest1, rest2, post);
        lemma_date_line_swallowed(pre, rest2, rest1, post);
    } else {
        let n1 = longest_noise(kind, text1, text1.len());
        let n2 = longest_noise(kind, text2, text2.len());
        lemma_longest(kind, text1, text1.len());
        lemma_longest(kind, text2, text2.len());
        assert(n1 <= pre.len() && n2 <= pre.len());
        assert forall|k: int| 0 <= k <= pre.len() implies #[trigger] text1.take(k) == text2.take(
            k,
        ) by {
            assert(text1.take(k) =~= text2.take(k));
        }
        assert(n1 == n2) by {
            assert(text1.take(n1 as int) == text2.take(n1 as int));
            assert(text1.take(n2 as int) == text2.take(n2 as int));
        }
        let step: int = if n1 > 0 { n1 as int } else { 1 };
        let tail = pre.skip(step);
        assert(text1.skip(step) =~= tail + date + rest1 + post);
        assert(text2.skip(step) =~= tail + date + rest2 + post);
        lemma_date_line_replaced(tail, rest1, rest2, post);
    }
}

/// A date line begins at the front of `pre` and reaches beyond it.
spec fn crosses_into_date_line(pre: Seq<char>, rest: Seq<char>, post: Seq<char>) -> bool {
    exists|m: int|
        pre.len() < m <= pre.len() + 5 + rest.len() + post.len() && is_noise(
            Noise::DateLine,
            #[trigger] (pre + "Date:"@ + rest + post).take(m),
        )
}

/// A date line that reaches into the next one, or is that one, is replaced
/// together with it.
proof fn lemma_date_line_swallowed(
    pre: Seq<char>,
    rest1: Seq<char>,
    rest2: Seq<char>,
    post: Seq<char>,
)
    requires
        is_dated(rest1),
        is_dated(rest2),
        breaks_off(post),
        pre.len() == 0 || crosses_into_date_line(pre, rest1, post) || crosses_into_date_line(
            pre,
            rest2,
            post,
        ),
    ensures
        without(Noise::DateLine, pre + "Date:"@ + rest1 + post) == noise_placeholder(
            Noise::DateLine,
        ) + without(Noise::DateLine, post),
{
    reveal_strlit("Date:");
    let kind = Noise::DateLine;
    let date = "Date:"@;
    let full = pre + date + rest1;
    let text = full + post;
    assert(is_noise(kind, full)) by {
        if pre.len() == 0 {
            assert(full.take(5) =~= date);
            assert forall|i: int| 6 <= i < full.len() implies is_on_line(#[trigger] full[i]) by {
                assert(full[i] == rest1[i - 5]);
            }
            assert(rest1.len() >= 2);
            assert(full[5] == rest1[0]);
            assert(is_date_line(full, 1));
        } else {
            let rest = if crosses_into_date_line(pre, rest1, post) { rest1 } else { rest2 };
            let m = choose|m: int|
                pre.len() < m <= pre.len() + 5 + rest.len() + post.len() && is_noise(
                    kind,
                    #[trigger] (pre + date + rest + post).take(m),
                );
            let gap = choose|gap: int| is_date_line((pre + date + rest + post).take(m), gap);
            lemma_date_line_runs_on(pre, rest, post, gap, m);
            let other = pre + date + rest;
            assert(full.take(5) =~= date) by {
                assert forall|k: int| 0 <= k < 5 implies full.take(5)[k] == #[trigger] date[k] by {
                    assert(other.take(5)[k] == date[k]);
                }
            }
            assert forall|i: int| 5 <= i < 5 + gap implies is_space(#[trigger] full[i]) by {
                assert(other[i] == full[i]);
            }
            assert forall|i: int| 5 + gap <= i < full.len() implies is_on_line(
                #[trigger] full[i],
            ) by {
                if i < pre.len() + 5 {
                    assert(other[i] == full[i]);
                } else {
                    assert(full[i] == rest1[i - pre.len() - 5]);
                }
            }
            assert(is_date_line(full, gap));
        }
    }
    assert forall|k: int| full.len() < k <= full.len() + post.len() implies !is_noise(
        kind,
        #[trigger] (full + post).take(k),
    ) by {
        if is_noise(kind, (full + post).take(k)) {
            let gap = choose|gap: int| is_date_line((full + post).take(k), gap);
            lemma_date_line_runs_on(pre, rest1, post, gap, k);
        }
    }
    lemma_match_at_front(kind, full, post, noise_placeholder(kind));
}

/// How many characters are left on the line that the text begins with.
spec fn line_length(text: Seq<char>) -> int
    decreases text.len(),
{
    if text.len() == 0 || !is_on_line(text[0]) {
        0
    } else {
        1 + line_length(text.skip(1))
    }
}

proof fn lemma_line_length(text: Seq<char>)
    ensures
        0 <= line_length(text) <= text.len(),
        forall|i: int| 0 <= i < line_length(text) ==> is_on_line(#[trigger] text[i]),
        breaks_off(text.skip(line_length(text))),
    decreases text.len(),
{
    if text.len() > 0 && is_on_line(text[0]) {
        let tail = text.skip(1);
        lemma_line_length(tail);
        assert forall|i: int| 0 <= i < line_length(text) implies is_on_line(#[trigger] text[i]) by {
            if i > 0 {
                assert(text[i] == tail[i - 1]);
            }
        }
        assert(text.skip(line_length(text)) =~= tail.skip(line_length(tail)));
    } else {
        assert(text.skip(0) =~= text);
    }
}

/// More of the line may follow a date.
proof fn lemma_dated_runs_on(rest: Seq<char>, run: Seq<char>)
    requires
        is_dated(rest),
        forall|i: int| 0 <= i < run.len() ==> is_on_line(#[trigger] run[i]),
    ensures
        is_dated(rest + run),
{
    let all = rest + run;
    let k = choose|k: int| 0 <= k < rest.len() && !is_space(#[trigger] rest[k]);
    assert(all[k] == rest[k]);
    assert forall|i: int| 0 <= i < all.len() implies is_on_line(#[trigger] all[i]) by {
        if i < rest.len() {
            assert(all[i] == rest[i]);
        } else {
            assert(all[i] == run[i - rest.len()]);
        }
    }
}

/// The date of a commit has no part in what is left after scrubbing: one date
/// line may be exchanged for another, and all that stands around it stays. The
/// line goes up to a line feed, a backslash (which is how a line feed begins inside
/// a JSON string), a quote (which ends the string) or the end of the text.
pub proof fn date_line_is_ignored(
    pre: Seq<char>,
    rest1: Seq<char>,
    rest2: Seq<char>,
    post: Seq<char>,
)
    requires
        is_dated(rest1),
        is_dated(rest2),
    ensures
        scrubbed(pre + "Date:"@ + rest1 + post) == scrubbed(pre + "Date:"@ + rest2 + post),
{
    lemma_line_length(post);
    let run = post.take(line_length(post));
    let end = post.skip(line_length(post));
    lemma_dated_runs_on(rest1, run);
    lemma_dated_runs_on(rest2, run);
    lemma_whole_date_line_ignored(pre, rest1 + run, rest2 + run, end);
    assert(pre + "Date:"@ + rest1 + post =~= pre + "Date:"@ + (rest1 + run) + end);
    assert(pre + "Date:"@ + rest2 + post =~= pre + "Date:"@ + (rest2 + run) + end);
}

/// A date line may be exchanged for another if the line ends there.
proof fn lemma_whole_date_line_ignored(
    pre: Seq<char>,
    rest1: Seq<char>,
    rest2: Seq<char>,
    post: Seq<char>,
)
    requires
        is_dated(rest1),
        is_dated(rest2),
        breaks_off(post),
    ensures
        scrubbed(pre + "Date:"@ + rest1 + post) == scrubbed(pre + "Date:"@ + rest2 + post),
{
    let k1 = Noise::CurrentDate;
    let k2 = Noise::CommitHash;
    lemma_date_line_apart(k1, pre, rest1, post);
    lemma_date_line_apart(k1, pre, rest2, post);
    lemma_still_dated(k1, rest1);
    lemma_still_dated(k1, rest2);
    lemma_still_breaks_off(k1, post);
    let pre1 = without(k1, pre);
    let post1 = without(k1, post);
    lemma_date_line_apart(k2, pre1, without(k1, rest1), post1);
    lemma_date_line_apart(k2, pre1, without(k1, rest2), post1);
    lemma_still_dated(k2, without(k1, rest1));
    lemma_still_dated(k2, without(k1, rest2));
    lemma_still_breaks_off(k2, post1);
    lemma_date_line_replaced(
        without(k2, pre1),
        without(k2, without(k1, rest1)),
        without(k2, without(k1, rest2)),
        without(k2, post1),
    );
}

} // verus!
