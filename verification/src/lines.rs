//! What scrubbing does to a text, said over its characters.

use vstd::prelude::*;
use crate::noise::{scrub_nondeterministic_content, Noise};

verus! {

/// A word of letters with a capital in front.
pub open spec fn is_capital_word(s: Seq<char>) -> bool {
    &&& s.len() >= 2
    &&& 'A' <= s[0] <= 'Z'
    &&& forall|i: int| 1 <= i < s.len() ==> 'a' <= #[trigger] s[i] <= 'z'
}

/// A number of digits.
pub open spec fn is_digits(s: Seq<char>, n: nat) -> bool {
    s.len() == n && forall|i: int| 0 <= i < n ==> '0' <= #[trigger] s[i] <= '9'
}

/// The hash of a commit.
pub open spec fn is_hash(s: Seq<char>) -> bool {
    s.len() == 40 && forall|i: int|
        0 <= i < 40 ==> '0' <= #[trigger] s[i] <= '9' || 'a' <= s[i] <= 'f'
}

/// White space in front, something else later, and nothing that ends a line.
pub open spec fn is_after_date(s: Seq<char>) -> bool {
    &&& s.len() > 0
    &&& crate::noise::is_space(s[0])
    &&& forall|i: int| 0 <= i < s.len() ==> #[trigger] s[i] != '\n' && s[i] != '\\' && s[i] != '"'
    &&& exists|i: int| 0 <= i < s.len() && !crate::noise::is_space(#[trigger] s[i])
}

/// The text has the word at a place.
pub open spec fn has_at(text: Seq<char>, word: Seq<char>, i: int) -> bool {
    0 <= i <= text.len() - word.len() && text.subrange(i, i + word.len()) == word
}

/// Nothing in the text is to be replaced: no capital follows where the date of the
/// day would, no hash where that of a commit would, and no white space where the
/// date of a commit would.
pub open spec fn is_settled(text: Seq<char>) -> bool {
    &&& forall|i: int| #[trigger]
        has_at(text, "the current date is "@, i) ==> !(i + 20 < text.len() && 'A' <= text[i + 20]
            <= 'Z')
    &&& forall|i: int| #[trigger]
        has_at(text, "commit "@, i) ==> !(i + 47 <= text.len() && is_hash(
            text.subrange(i + 7, i + 47),
        ))
    &&& forall|i: int| #[trigger]
        has_at(text, "Date:"@, i) ==> !(i + 5 < text.len() && crate::noise::is_space(text[i + 5]))
}

pub proof fn lemma_day_is_noise(day: Seq<char>, month: Seq<char>, date: Seq<char>, year: Seq<char>)
    requires
        is_capital_word(day),
        is_capital_word(month),
        is_digits(date, 2),
        is_digits(year, 4),
    ensures
        crate::noise::is_noise(
            Noise::CurrentDate,
            "the current date is "@ + day + ", "@ + month + " "@ + date + ", "@ + year,
        ),
{
    assert(crate::noise::is_capitalized(day));
    assert(crate::noise::is_capitalized(month));
    assert(crate::noise::is_number(date, 2));
    assert(crate::noise::is_number(year, 4));
    assert(crate::noise::current_date(day, month, date, year) == "the current date is "@ + day
        + ", "@ + month + " "@ + date + ", "@ + year);
}

pub proof fn lemma_hash_is_noise(hash: Seq<char>)
    requires
        is_hash(hash),
    ensures
        crate::noise::is_noise(Noise::CommitHash, "commit "@ + hash),
{
    reveal_strlit("commit ");
    let w = "commit "@ + hash;
    assert(w.take(7) =~= "commit "@);
    assert forall|i: int| 7 <= i < 47 implies crate::noise::is_hash_digit(#[trigger] w[i]) by {
        assert(w[i] == hash[i - 7]);
    }
}

/// A settled text holds no noise.
proof fn lemma_settled_is_free(kind: Noise, text: Seq<char>)
    requires
        is_settled(text),
    ensures
        crate::settled::is_free_of(kind, text),
{
    reveal_strlit("the current date is ");
    reveal_strlit("commit ");
    reveal_strlit("Date:");
    assert forall|i: int, j: int| 0 <= i < j <= text.len() implies !crate::noise::is_noise(
        kind,
        #[trigger] text.subrange(i, j),
    ) by {
        let w = text.subrange(i, j);
        if crate::noise::is_noise(kind, w) {
            match kind {
                Noise::CurrentDate => {
                    let (s1, s2) = crate::noise::lemma_current_date_parts(w);
                    assert(text.subrange(i, i + 20) =~= w.take(20));
                    assert(has_at(text, "the current date is "@, i));
                    assert(text[i + 20] == w[20]);
                },
                Noise::CommitHash => {
                    assert(text.subrange(i, i + 7) =~= w.take(7));
                    assert(has_at(text, "commit "@, i));
                    let hash = text.subrange(i + 7, i + 47);
                    assert forall|k: int| 0 <= k < 40 implies '0' <= #[trigger] hash[k] <= '9'
                        || 'a' <= hash[k] <= 'f' by {
                        assert(hash[k] == w[k + 7]);
                        assert(crate::noise::is_hash_digit(w[k + 7]));
                    }
                },
                Noise::DateLine => {
                    let gap = choose|gap: int| crate::noise::is_date_line(w, gap);
                    assert(text.subrange(i, i + 5) =~= w.take(5));
                    assert(has_at(text, "Date:"@, i));
                    assert(text[i + 5] == w[5]);
                    assert(crate::noise::is_space(w[5]));
                },
            }
        }
    }
}

pub proof fn lemma_settled_stays(text: Seq<char>)
    requires
        is_settled(text),
    ensures
        crate::noise::scrubbed(text) == text,
        forall|kind: Noise| #[trigger] crate::noise::without(kind, text) == text,
{
    assert forall|kind: Noise| #[trigger] crate::noise::without(kind, text) == text by {
        lemma_settled_is_free(kind, text);
        crate::noise::lemma_untouched(kind, text, crate::noise::noise_placeholder(kind));
    }
}

/// A text with nothing to replace comes out as it went in.
pub proof fn settled_texts_come_out_as_they_are(s: &str, r: String)
    requires
        call_ensures(scrub_nondeterministic_content, (s,), r),
        is_settled(s@),
    ensures
        r@ == s@,
{
    lemma_settled_stays(s@);
}

/// The text ends a line, or is empty. What follows the backslash of a line feed
/// ends a line too.
pub open spec fn ends_line(text: Seq<char>) -> bool {
    text.len() == 0 || text.last() == '\n' || text.last() == '"' || text == seq!['n']
}

/// The text begins behind a line, or is empty.
pub open spec fn begins_behind_line(text: Seq<char>) -> bool {
    text.len() == 0 || text[0] == '\n' || text[0] == '\\' || text[0] == '"'
}

proof fn lemma_first_letter(kind: Noise, w: Seq<char>)
    requires
        crate::noise::is_noise(kind, w),
    ensures
        w.len() > 0,
        w[0] == 't' || w[0] == 'c' || w[0] == 'D',
{
    reveal_strlit("the current date is ");
    reveal_strlit("commit ");
    reveal_strlit("Date:");
    match kind {
        Noise::CurrentDate => {
            let (s1, s2) = crate::noise::lemma_current_date_parts(w);
            assert(w.take(20)[0] == w[0]);
        },
        Noise::CommitHash => {
            assert(w.take(7)[0] == w[0]);
        },
        Noise::DateLine => {
            let gap = choose|gap: int| crate::noise::is_date_line(w, gap);
            assert(w.take(5)[0] == w[0]);
        },
    }
}

/// No noise reaches from a line into the text before it.
proof fn lemma_apart_from_before(kind: Noise, pre: Seq<char>, text: Seq<char>)
    requires
        is_settled(pre),
        ends_line(pre),
    ensures
        crate::noise::without(kind, pre + text) == pre + crate::noise::without(kind, text),
{
    reveal_strlit("Date:");
    let all = pre + text;
    assert forall|i: int, j: int|
        0 <= i < pre.len() && pre.len() < j <= pre.len() + text.len() implies
        !crate::noise::is_noise(kind, #[trigger] (pre + text).subrange(i, j)) by {
        let w = all.subrange(i, j);
        let last = pre.len() - 1 - i;
        if crate::noise::is_noise(kind, w) {
            assert(w[last] == pre.last());
            lemma_first_letter(kind, w);
            if kind == Noise::DateLine {
                let gap = choose|gap: int| crate::noise::is_date_line(w, gap);
                assert(w.take(5)[0] == w[0] && w.take(5)[1] == w[1] && w.take(5)[2] == w[2]
                    && w.take(5)[3] == w[3] && w.take(5)[4] == w[4]);
                assert(last >= 5) by {
                    assert(last == 0 || last == 1 || last == 2 || last == 3 || last == 4 || last
                        >= 5);
                }
                assert(pre.subrange(i, i + 5) =~= w.take(5));
                assert(has_at(pre, "Date:"@, i));
                assert(pre[i + 5] == w[5]);
                assert(crate::noise::is_space(w[5]));
            } else {
                crate::noise::lemma_noise_characters(kind, w);
            }
        }
    }
    crate::noise::lemma_replaced_apart(kind, pre, text, crate::noise::noise_placeholder(kind));
    lemma_settled_stays(pre);
}

/// No date of the day or commit hash reaches from a line into the text behind it,
/// and no date line does that does not begin in the line.
proof fn lemma_apart_from_behind(kind: Noise, line: Seq<char>, post: Seq<char>)
    requires
        is_settled(post),
        begins_behind_line(post),
        kind == Noise::DateLine ==> forall|i: int| 0 <= i < line.len() ==> #[trigger] line[i]
            != ':',
    ensures
        crate::noise::without(kind, line + post) == crate::noise::without(kind, line) + post,
{
    reveal_strlit("Date:");
    let all = line + post;
    assert forall|i: int, j: int|
        0 <= i < line.len() && line.len() < j <= line.len() + post.len() implies
        !crate::noise::is_noise(kind, #[trigger] (line + post).subrange(i, j)) by {
        let w = all.subrange(i, j);
        let first = line.len() - i;
        if crate::noise::is_noise(kind, w) {
            assert(w[first] == post[0]);
            if kind == Noise::DateLine {
                let gap = choose|gap: int| crate::noise::is_date_line(w, gap);
                assert(w.take(5)[0] == w[0] && w.take(5)[1] == w[1] && w.take(5)[2] == w[2]
                    && w.take(5)[3] == w[3] && w.take(5)[4] == w[4]);
                assert(first == 1 || first == 2 || first == 3 || first == 4 || first >= 5);
                assert(first >= 5);
                assert(w[4] == line[i + 4]);
            } else {
                crate::noise::lemma_noise_characters(kind, w);
            }
        }
    }
    crate::noise::lemma_replaced_apart(kind, line, post, crate::noise::noise_placeholder(kind));
    lemma_settled_stays(post);
}

/// A text that is too short for noise, or lacks what noise needs, stays.
proof fn lemma_other_noise(kind: Noise, line: Seq<char>)
    requires
        match kind {
            Noise::CurrentDate => forall|i: int| 0 <= i < line.len() ==> #[trigger] line[i] != ',',
            Noise::CommitHash => line.len() < 47,
            Noise::DateLine => forall|i: int| 0 <= i < line.len() ==> #[trigger] line[i] != ':',
        },
    ensures
        crate::noise::without(kind, line) == line,
{
    reveal_strlit("Date:");
    assert forall|i: int, j: int| 0 <= i < j <= line.len() implies !crate::noise::is_noise(
        kind,
        #[trigger] line.subrange(i, j),
    ) by {
        let w = line.subrange(i, j);
        if crate::noise::is_noise(kind, w) {
            match kind {
                Noise::CurrentDate => {
                    let (s1, s2) = crate::noise::lemma_current_date_parts(w);
                    assert(w[s1 - 1] == line[i + s1 - 1]);
                },
                Noise::CommitHash => {},
                Noise::DateLine => {
                    let gap = choose|gap: int| crate::noise::is_date_line(w, gap);
                    assert(w.take(5)[4] == w[4]);
                    assert(w[4] == line[i + 4]);
                },
            }
        }
    }
    crate::noise::lemma_untouched(kind, line, crate::noise::noise_placeholder(kind));
}

/// Noise alone becomes its placeholder.
proof fn lemma_alone(kind: Noise, line: Seq<char>)
    requires
        line.len() > 0,
        crate::noise::is_noise(kind, line),
    ensures
        crate::noise::without(kind, line) == crate::noise::noise_placeholder(kind),
{
    let none = Seq::<char>::empty();
    let p = crate::noise::noise_placeholder(kind);
    assert(line + none =~= line);
    crate::noise::lemma_match_at_front(kind, line, none, p);
    assert(crate::noise::replaced(kind, none, p) =~= none);
    assert(p + none =~= p);
}

/// A line is scrubbed for itself if it has no colon, and what stands around it
/// stays.
proof fn lemma_line(pre: Seq<char>, line: Seq<char>, post: Seq<char>)
    requires
        is_settled(pre),
        ends_line(pre),
        is_settled(post),
        begins_behind_line(post),
        forall|i: int|
            0 <= i < crate::noise::without(
                Noise::CommitHash,
                crate::noise::without(Noise::CurrentDate, line),
            ).len() ==> #[trigger] crate::noise::without(
                Noise::CommitHash,
                crate::noise::without(Noise::CurrentDate, line),
            )[i] != ':',
    ensures
        crate::noise::scrubbed(pre + line + post) == pre + crate::noise::scrubbed(line) + post,
{
    let k1 = Noise::CurrentDate;
    let k2 = Noise::CommitHash;
    let k3 = Noise::DateLine;
    let line1 = crate::noise::without(k1, line);
    let line2 = crate::noise::without(k2, line1);
    let line3 = crate::noise::without(k3, line2);
    lemma_apart_from_before(k1, pre, line + post);
    lemma_apart_from_behind(k1, line, post);
    lemma_apart_from_before(k2, pre, line1 + post);
    lemma_apart_from_behind(k2, line1, post);
    lemma_apart_from_before(k3, pre, line2 + post);
    lemma_apart_from_behind(k3, line2, post);
    assert(pre + line + post =~= pre + (line + post));
    assert(pre + line3 + post =~= pre + (line3 + post));
}

/// The date of the day is replaced, and what stands around the line stays.
pub proof fn days_are_replaced(
    pre: Seq<char>,
    day: Seq<char>,
    month: Seq<char>,
    date: Seq<char>,
    year: Seq<char>,
    post: Seq<char>,
    s: &str,
    r: String,
)
    requires
        call_ensures(scrub_nondeterministic_content, (s,), r),
        s@ == pre + ("the current date is "@ + day + ", "@ + month + " "@ + date + ", "@ + year)
            + post,
        is_capital_word(day),
        is_capital_word(month),
        is_digits(date, 2),
        is_digits(year, 4),
        is_settled(pre),
        ends_line(pre),
        is_settled(post),
        begins_behind_line(post),
    ensures
        r@ == pre + "the current date is <DATE>"@ + post,
{
    let line = "the current date is "@ + day + ", "@ + month + " "@ + date + ", "@ + year;
    let p = "the current date is <DATE>"@;
    lemma_day_is_noise(day, month, date, year);
    let (s1, s2) = crate::noise::lemma_current_date_parts(line);
    lemma_alone(Noise::CurrentDate, line);
    reveal_strlit("the current date is <DATE>");
    lemma_other_noise(Noise::CommitHash, p);
    assert forall|i: int| 0 <= i < p.len() implies #[trigger] p[i] != ':' by {
        assert(i == 0 || i == 1 || i == 2 || i == 3 || i == 4 || i == 5 || i == 6 || i == 7 || i
            == 8 || i == 9 || i == 10 || i == 11 || i == 12 || i == 13 || i == 14 || i == 15 || i
            == 16 || i == 17 || i == 18 || i == 19 || i == 20 || i == 21 || i == 22 || i == 23 || i
            == 24 || i == 25);
    }
    lemma_other_noise(Noise::DateLine, p);
    lemma_line(pre, line, post);
}

/// The hash of a commit is replaced, and what stands around the line stays.
pub proof fn hashes_are_replaced(
    pre: Seq<char>,
    hash: Seq<char>,
    post: Seq<char>,
    s: &str,
    r: String,
)
    requires
        call_ensures(scrub_nondeterministic_content, (s,), r),
        s@ == pre + ("commit "@ + hash) + post,
        is_hash(hash),
        is_settled(pre),
        ends_line(pre),
        is_settled(post),
        begins_behind_line(post),
    ensures
        r@ == pre + "commit <HASH>"@ + post,
{
    let line = "commit "@ + hash;
    let p = "commit <HASH>"@;
    lemma_hash_is_noise(hash);
    reveal_strlit("commit ");
    reveal_strlit("commit <HASH>");
    assert forall|i: int| 0 <= i < line.len() implies #[trigger] line[i] != ',' by {
        if i < 7 {
            assert(line[i] == "commit "@[i]);
            assert(i == 0 || i == 1 || i == 2 || i == 3 || i == 4 || i == 5 || i == 6);
        } else {
            assert(line[i] == hash[i - 7]);
        }
    }
    lemma_other_noise(Noise::CurrentDate, line);
    lemma_alone(Noise::CommitHash, line);
    assert forall|i: int| 0 <= i < p.len() implies #[trigger] p[i] != ':' by {
        assert(i == 0 || i == 1 || i == 2 || i == 3 || i == 4 || i == 5 || i == 6 || i == 7 || i
            == 8 || i == 9 || i == 10 || i == 11 || i == 12);
    }
    lemma_other_noise(Noise::DateLine, p);
    lemma_line(pre, line, post);
}

/// The date of a commit is replaced up to the end of its line, and what stands
/// around the line stays.
pub proof fn commit_dates_are_replaced(
    pre: Seq<char>,
    rest: Seq<char>,
    post: Seq<char>,
    s: &str,
    r: String,
)
    requires
        call_ensures(scrub_nondeterministic_content, (s,), r),
        s@ == pre + ("Date:"@ + rest) + post,
        is_after_date(rest),
        is_settled(pre),
        ends_line(pre),
        is_settled(post),
        begins_behind_line(post),
    ensures
        r@ == pre + "Date: <DATE>"@ + post,
{
    let k1 = Noise::CurrentDate;
    let k2 = Noise::CommitHash;
    let p = "Date: <DATE>"@;
    let other = " <DATE>"@;
    reveal_strlit("Date:");
    reveal_strlit("Date: <DATE>");
    reveal_strlit(" <DATE>");
    lemma_after_date(rest);
    assert(crate::noise::is_dated(other)) by {
        assert forall|i: int| 0 <= i < other.len() implies crate::noise::is_on_line(
            #[trigger] other[i],
        ) by {
            assert(i == 0 || i == 1 || i == 2 || i == 3 || i == 4 || i == 5 || i == 6);
        }
        assert(!crate::noise::is_space(other[1]));
    }
    crate::noise::date_line_is_ignored(pre, rest, other, post);
    assert(pre + ("Date:"@ + rest) + post =~= pre + "Date:"@ + rest + post);
    assert("Date:"@ + other =~= p);
    assert(pre + "Date:"@ + other + post =~= pre + (p + post));
    assert forall|i: int| 0 <= i < p.len() implies #[trigger] p[i] != ',' by {
        assert(i == 0 || i == 1 || i == 2 || i == 3 || i == 4 || i == 5 || i == 6 || i == 7 || i
            == 8 || i == 9 || i == 10 || i == 11);
    }
    lemma_other_noise(k1, p);
    lemma_other_noise(k2, p);
    lemma_apart_from_before(k1, pre, p + post);
    lemma_apart_from_behind(k1, p, post);
    lemma_apart_from_before(k2, pre, p + post);
    lemma_apart_from_behind(k2, p, post);
    lemma_apart_from_before(Noise::DateLine, pre, p + post);
    assert(crate::noise::breaks_off(post));
    crate::settled::lemma_placeholder_found(post);
    lemma_settled_stays(post);
    assert(pre + p + post =~= pre + (p + post));
}

/// One day for another, wherever in a text it stands, makes no difference.
pub proof fn days_do_not_show(
    pre: Seq<char>,
    day1: Seq<char>,
    month1: Seq<char>,
    date1: Seq<char>,
    year1: Seq<char>,
    day2: Seq<char>,
    month2: Seq<char>,
    date2: Seq<char>,
    year2: Seq<char>,
    post: Seq<char>,
    s1: &str,
    s2: &str,
    r1: String,
    r2: String,
)
    requires
        call_ensures(scrub_nondeterministic_content, (s1,), r1),
        call_ensures(scrub_nondeterministic_content, (s2,), r2),
        s1@ == pre + ("the current date is "@ + day1 + ", "@ + month1 + " "@ + date1 + ", "@
            + year1) + post,
        s2@ == pre + ("the current date is "@ + day2 + ", "@ + month2 + " "@ + date2 + ", "@
            + year2) + post,
        is_capital_word(day1) && is_capital_word(month1) && is_digits(date1, 2) && is_digits(
            year1,
            4,
        ),
        is_capital_word(day2) && is_capital_word(month2) && is_digits(date2, 2) && is_digits(
            year2,
            4,
        ),
    ensures
        r1@ == r2@,
{
    lemma_day_is_noise(day1, month1, date1, year1);
    lemma_day_is_noise(day2, month2, date2, year2);
    crate::noise::current_date_is_ignored(
        pre,
        "the current date is "@ + day1 + ", "@ + month1 + " "@ + date1 + ", "@ + year1,
        "the current date is "@ + day2 + ", "@ + month2 + " "@ + date2 + ", "@ + year2,
        post,
    );
}

/// One commit hash for another makes no difference, unless the text before the
/// line ends in a commit line that lacks one digit and would take it from here.
pub proof fn hashes_do_not_show(
    pre: Seq<char>,
    hash1: Seq<char>,
    hash2: Seq<char>,
    post: Seq<char>,
    s1: &str,
    s2: &str,
    r1: String,
    r2: String,
)
    requires
        call_ensures(scrub_nondeterministic_content, (s1,), r1),
        call_ensures(scrub_nondeterministic_content, (s2,), r2),
        s1@ == pre + ("commit "@ + hash1) + post,
        s2@ == pre + ("commit "@ + hash2) + post,
        is_hash(hash1),
        is_hash(hash2),
        !(has_at(pre, "commit "@, pre.len() - 46) && forall|i: int|
            pre.len() - 39 <= i < pre.len() ==> '0' <= #[trigger] pre[i] <= '9' || 'a' <= pre[i]
                <= 'f'),
    ensures
        r1@ == r2@,
{
    lemma_hash_is_noise(hash1);
    lemma_hash_is_noise(hash2);
    reveal_strlit("commit ");
    lemma_no_open_commit(pre);
    crate::noise::commit_hash_is_ignored(pre, "commit "@ + hash1, "commit "@ + hash2, post);
}

pub proof fn lemma_no_open_commit(pre: Seq<char>)
    requires
        !(has_at(pre, "commit "@, pre.len() - 46) && forall|i: int|
            pre.len() - 39 <= i < pre.len() ==> '0' <= #[trigger] pre[i] <= '9' || 'a' <= pre[i]
                <= 'f'),
    ensures
        !crate::noise::ends_in_open_commit(pre),
{
    reveal_strlit("commit ");
    if crate::noise::ends_in_open_commit(pre) {
        let n = pre.len() as int;
        assert(pre.subrange(n - 46, n - 39) =~= pre.skip(n - 46).take(7));
        assert(has_at(pre, "commit "@, n - 46));
        assert forall|i: int| n - 39 <= i < n implies '0' <= #[trigger] pre[i] <= '9' || 'a'
            <= pre[i] <= 'f' by {
            assert(crate::noise::is_hash_digit(pre[i]));
        }
    }
}

pub proof fn lemma_after_date(rest: Seq<char>)
    requires
        is_after_date(rest),
    ensures
        crate::noise::is_dated(rest),
        (forall|i: int| 0 <= i < rest.len() ==> #[trigger] rest[i] as int >= 0x20)
            ==> crate::json::is_plain(rest),
{
    assert forall|i: int| 0 <= i < rest.len() implies crate::noise::is_on_line(
        #[trigger] rest[i],
    ) by {}
}

/// One commit date for another, wherever in a text it stands, makes no difference.
pub proof fn commit_dates_do_not_show(
    pre: Seq<char>,
    rest1: Seq<char>,
    rest2: Seq<char>,
    post: Seq<char>,
    s1: &str,
    s2: &str,
    r1: String,
    r2: String,
)
    requires
        call_ensures(scrub_nondeterministic_content, (s1,), r1),
        call_ensures(scrub_nondeterministic_content, (s2,), r2),
        s1@ == pre + "Date:"@ + rest1 + post,
        s2@ == pre + "Date:"@ + rest2 + post,
        is_after_date(rest1),
        is_after_date(rest2),
    ensures
        r1@ == r2@,
{
    lemma_after_date(rest1);
    lemma_after_date(rest2);
    crate::noise::date_line_is_ignored(pre, rest1, rest2, post);
}

/// Texts are scrubbed before and after a quote or a backslash, never across it. As
/// a line feed is written with a backslash inside a JSON string, the lines of a
/// request are scrubbed one by one.
pub proof fn scrubbing_stops_at_quotes_and_backslashes(
    a: &str,
    c: char,
    b: &str,
    both: &str,
    r1: String,
    r2: String,
    r: String,
)
    requires
        c == '"' || c == '\\',
        both@ == a@ + seq![c] + b@,
        call_ensures(scrub_nondeterministic_content, (a,), r1),
        call_ensures(scrub_nondeterministic_content, (b,), r2),
        call_ensures(scrub_nondeterministic_content, (both,), r),
    ensures
        r@ == r1@ + seq![c] + r2@,
{
    crate::canonical::lemma_scrubbed_at_break(a@, c, b@);
}

} // verus!
