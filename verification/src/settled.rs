//! A text that was scrubbed is settled: it holds no noise any more, and scrubbing
//! it again changes nothing.

use vstd::prelude::*;
use crate::noise::Noise;

verus! {

/// No noise of this kind is anywhere in the text.
pub open spec fn is_free_of(kind: Noise, text: Seq<char>) -> bool {
    forall|i: int, j: int|
        0 <= i < j <= text.len() ==> !crate::noise::is_noise(kind, #[trigger] text.subrange(i, j))
}

/// Dates of the day and commit lines hold none of the characters that mark a
/// placeholder, and are longer than any of them.
proof fn lemma_noise_is_no_placeholder(kind: Noise, w: Seq<char>)
    requires
        kind != Noise::DateLine,
        crate::noise::is_noise(kind, w),
    ensures
        forall|i: int|
            0 <= i < w.len() ==> #[trigger] w[i] != '<' && w[i] != '>' && w[i] != ':',
        w.len() > 26,
{
    if kind == Noise::CurrentDate {
        let (s1, s2) = crate::noise::lemma_current_date_parts(w);
        reveal_strlit("the current date is ");
        assert forall|i: int| 0 <= i < w.len() implies #[trigger] w[i] != '<' && w[i] != '>' && w[i]
            != ':' by {
            if i < 20 {
                assert(w.take(20)[i] == w[i]);
                assert(i == 0 || i == 1 || i == 2 || i == 3 || i == 4 || i == 5 || i == 6 || i == 7
                    || i == 8 || i == 9 || i == 10 || i == 11 || i == 12 || i == 13 || i == 14 || i
                    == 15 || i == 16 || i == 17 || i == 18 || i == 19);
            }
        }
    } else {
        reveal_strlit("commit ");
        assert forall|i: int| 0 <= i < w.len() implies #[trigger] w[i] != '<' && w[i] != '>' && w[i]
            != ':' by {
            if i < 7 {
                assert(w.take(7)[i] == w[i]);
                assert(i == 0 || i == 1 || i == 2 || i == 3 || i == 4 || i == 5 || i == 6);
            }
        }
    }
}

/// Where a placeholder departs from the noise that it stands for: up to there the
/// two begin alike.
spec fn mark(kind: Noise) -> int {
    match kind {
        Noise::CurrentDate => 20,
        Noise::CommitHash => 7,
        Noise::DateLine => 4,
    }
}

proof fn lemma_placeholder_marks(kind: Noise)
    ensures
        mark(kind) < crate::noise::noise_placeholder(kind).len() <= 26,
        crate::noise::noise_placeholder(kind)[mark(kind)] == '<' || crate::noise::noise_placeholder(
            kind,
        )[mark(kind)] == ':',
        crate::noise::noise_placeholder(kind).last() == '>',
{
    reveal_strlit("the current date is <DATE>");
    reveal_strlit("commit <HASH>");
    reveal_strlit("Date: <DATE>");
}

proof fn lemma_noise_begins_as_its_placeholder(kind: Noise, w: Seq<char>)
    requires
        crate::noise::is_noise(kind, w),
    ensures
        w.len() > mark(kind),
        w.take(mark(kind)) == crate::noise::noise_placeholder(kind).take(mark(kind)),
{
    let p = crate::noise::noise_placeholder(kind);
    match kind {
        Noise::CurrentDate => {
            let (s1, s2) = crate::noise::lemma_current_date_parts(w);
            reveal_strlit("the current date is ");
            reveal_strlit("the current date is <DATE>");
            assert(p.take(20) =~= "the current date is "@);
        },
        Noise::CommitHash => {
            reveal_strlit("commit ");
            reveal_strlit("commit <HASH>");
            assert(p.take(7) =~= "commit "@);
        },
        Noise::DateLine => {
            let gap = choose|gap: int| crate::noise::is_date_line(w, gap);
            reveal_strlit("Date:");
            reveal_strlit("Date: <DATE>");
            assert(w.take(5).take(4) =~= w.take(4));
            assert("Date:"@.take(4) =~= p.take(4));
        },
    }
}

/// A front of the scrubbed text that no placeholder's mark is in was the front of
/// the text.
proof fn lemma_front_was_there(kind: Noise, text: Seq<char>, m: int)
    requires
        0 <= m <= crate::noise::without(kind, text).len(),
        forall|i: int|
            0 <= i < m ==> #[trigger] crate::noise::without(kind, text)[i] != '<'
                && crate::noise::without(kind, text)[i] != ':',
    ensures
        m <= text.len(),
        crate::noise::without(kind, text).take(m) == text.take(m),
    decreases text.len(),
{
    let out = crate::noise::without(kind, text);
    let p = crate::noise::noise_placeholder(kind);
    if text.len() == 0 {
    } else {
        crate::noise::lemma_longest(kind, text, text.len());
        lemma_placeholder_marks(kind);
        let n = crate::noise::longest_noise(kind, text, text.len());
        if n > 0 {
            let word = text.take(n as int);
            lemma_noise_begins_as_its_placeholder(kind, word);
            assert(out[mark(kind)] == p[mark(kind)]);
            assert(m <= mark(kind));
            assert(out.take(m) =~= p.take(mark(kind)).take(m));
            assert(text.take(m) =~= word.take(mark(kind)).take(m));
        } else if m > 0 {
            let tail = text.skip(1);
            let rest = crate::noise::without(kind, tail);
            assert(out == seq![text[0]] + rest);
            assert forall|i: int| 0 <= i < m - 1 implies #[trigger] rest[i] != '<' && rest[i]
                != ':' by {
                assert(out[i + 1] == rest[i]);
            }
            lemma_front_was_there(kind, tail, m - 1);
            assert(out.take(m) =~= seq![text[0]] + rest.take(m - 1));
            assert(text.take(m) =~= seq![text[0]] + tail.take(m - 1));
        } else {
            assert(out.take(m) =~= text.take(m));
        }
    }
}

/// Replacing one kind of noise leaves none of it, and brings no date of the day or
/// commit line into a text that had none.
proof fn lemma_stays_free(replaced: Noise, kind: Noise, text: Seq<char>)
    requires
        kind != Noise::DateLine,
        replaced == kind || is_free_of(kind, text),
    ensures
        is_free_of(kind, crate::noise::without(replaced, text)),
    decreases text.len(),
{
    let out = crate::noise::without(replaced, text);
    let p = crate::noise::noise_placeholder(replaced);
    if text.len() > 0 {
        crate::noise::lemma_longest(replaced, text, text.len());
        lemma_placeholder_marks(replaced);
        let n = crate::noise::longest_noise(replaced, text, text.len());
        let step: int = if n > 0 { n as int } else { 1 };
        let front = if n > 0 { p } else { seq![text[0]] };
        let tail = text.skip(step);
        let rest = crate::noise::without(replaced, tail);
        assert(out == front + rest);
        if replaced != kind {
            assert forall|i: int, j: int| 0 <= i < j <= tail.len() implies !crate::noise::is_noise(
                kind,
                #[trigger] tail.subrange(i, j),
            ) by {
                assert(tail.subrange(i, j) =~= text.subrange(i + step, j + step));
            }
        }
        lemma_stays_free(replaced, kind, tail);
        assert forall|i: int, j: int| 0 <= i < j <= out.len() implies !crate::noise::is_noise(
            kind,
            #[trigger] out.subrange(i, j),
        ) by {
            let w = out.subrange(i, j);
            let len = front.len() as int;
            if i >= len {
                assert(w =~= rest.subrange(i - len, j - len));
            } else if crate::noise::is_noise(kind, w) {
                lemma_noise_is_no_placeholder(kind, w);
                if n > 0 {
                    if j >= len {
                        assert(out[len - 1] == p.last());
                        assert(w[len - 1 - i] == '>');
                    }
                    assert(w.len() <= 26);
                } else {
                    assert(i == 0);
                    assert forall|x: int| 0 <= x < j implies #[trigger] out[x] != '<' && out[x]
                        != ':' by {
                        assert(out[x] == w[x]);
                    }
                    lemma_front_was_there(replaced, text, j);
                    assert(w =~= out.take(j));
                    assert(text.take(j) =~= text.subrange(0, j));
                }
            }
        }
    }
}

/// A front of the text without its date lines in which no such line begins, but
/// perhaps at the very end, was the front of the text.
proof fn lemma_front_before_date_line(text: Seq<char>, m: int)
    requires
        0 <= m <= crate::noise::without(Noise::DateLine, text).len(),
        forall|i: int|
            0 <= i < m - 1 ==> #[trigger] crate::noise::without(Noise::DateLine, text)[i] != 'D',
    ensures
        m <= text.len(),
        crate::noise::without(Noise::DateLine, text).take(m) == text.take(m),
    decreases text.len(),
{
    let kind = Noise::DateLine;
    let out = crate::noise::without(kind, text);
    let p = crate::noise::noise_placeholder(kind);
    if text.len() > 0 {
        crate::noise::lemma_longest(kind, text, text.len());
        let n = crate::noise::longest_noise(kind, text, text.len());
        if n > 0 {
            reveal_strlit("Date: <DATE>");
            reveal_strlit("Date:");
            let word = text.take(n as int);
            let gap = choose|gap: int| crate::noise::is_date_line(word, gap);
            assert(word.take(5)[0] == word[0]);
            assert(out[0] == 'D' && text[0] == 'D');
            assert(m <= 1);
            assert(out.take(m) =~= text.take(m));
        } else if m > 0 {
            let tail = text.skip(1);
            let rest = crate::noise::without(kind, tail);
            assert(out == seq![text[0]] + rest);
            assert forall|i: int| 0 <= i < m - 2 implies #[trigger] rest[i] != 'D' by {
                assert(out[i + 1] == rest[i]);
            }
            lemma_front_before_date_line(tail, m - 1);
            assert(out.take(m) =~= seq![text[0]] + rest.take(m - 1));
            assert(text.take(m) =~= seq![text[0]] + tail.take(m - 1));
        } else {
            assert(out.take(m) =~= text.take(m));
        }
    }
}

/// The placeholder of a date line, followed by the end of a line, is found as it
/// is.
pub proof fn lemma_placeholder_found(rest: Seq<char>)
    requires
        crate::noise::breaks_off(rest),
    ensures
        ({
            let p = crate::noise::noise_placeholder(Noise::DateLine);
            crate::noise::without(Noise::DateLine, p + rest) == p + crate::noise::without(
                Noise::DateLine,
                rest,
            )
        }),
{
    let kind = Noise::DateLine;
    let p = crate::noise::noise_placeholder(kind);
    reveal_strlit("Date: <DATE>");
    reveal_strlit("Date:");
    assert(p.len() == 12);
    assert(crate::noise::is_date_line(p, 1)) by {
        assert(p.take(5) =~= "Date:"@);
        assert forall|i: int| 6 <= i < 12 implies crate::noise::is_on_line(#[trigger] p[i]) by {
            assert(i == 6 || i == 7 || i == 8 || i == 9 || i == 10 || i == 11);
        }
    }
    assert forall|k: int| p.len() < k <= p.len() + rest.len() implies !crate::noise::is_noise(
        kind,
        #[trigger] (p + rest).take(k),
    ) by {
        let w = (p + rest).take(k);
        if crate::noise::is_noise(kind, w) {
            let gap = choose|gap: int| crate::noise::is_date_line(w, gap);
            assert(w[6] == '<');
            assert(gap == 1) by {
                if gap > 1 {
                    assert(crate::noise::is_space(w[6]));
                }
            }
            assert(w[12] == rest[0]);
            assert(crate::noise::is_on_line(w[12]));
        }
    }
    crate::noise::lemma_match_at_front(kind, p, rest, p);
}

/// The longest date line ends where the line does.
proof fn lemma_longest_date_line(text: Seq<char>)
    requires
        crate::noise::longest_noise(Noise::DateLine, text, text.len()) > 0,
    ensures
        crate::noise::breaks_off(
            text.skip(crate::noise::longest_noise(Noise::DateLine, text, text.len()) as int),
        ),
{
    let kind = Noise::DateLine;
    crate::noise::lemma_longest(kind, text, text.len());
    let n = crate::noise::longest_noise(kind, text, text.len()) as int;
    let rest = text.skip(n);
    if rest.len() > 0 && crate::noise::is_on_line(rest[0]) {
        let word = text.take(n);
        let gap = choose|gap: int| crate::noise::is_date_line(word, gap);
        let longer = text.take(n + 1);
        assert(longer.take(5) =~= word.take(5));
        assert forall|i: int| 5 <= i < 5 + gap implies crate::noise::is_space(
            #[trigger] longer[i],
        ) by {
            assert(longer[i] == word[i]);
        }
        assert forall|i: int| 5 + gap <= i < longer.len() implies crate::noise::is_on_line(
            #[trigger] longer[i],
        ) by {
            if i < n {
                assert(longer[i] == word[i]);
            } else {
                assert(longer[i] == rest[0]);
            }
        }
        assert(crate::noise::is_date_line(longer, gap));
        assert(crate::noise::is_noise(kind, longer));
    }
}

/// A line that ends stays ended.
proof fn lemma_break_stays(text: Seq<char>)
    requires
        crate::noise::breaks_off(text),
    ensures
        crate::noise::breaks_off(crate::noise::without(Noise::DateLine, text)),
{
    let kind = Noise::DateLine;
    if text.len() > 0 {
        crate::noise::lemma_longest(kind, text, text.len());
        let n = crate::noise::longest_noise(kind, text, text.len());
        if n > 0 {
            let word = text.take(n as int);
            let gap = choose|gap: int| crate::noise::is_date_line(word, gap);
            reveal_strlit("Date:");
            assert(word.take(5)[0] == word[0]);
        } else {
            assert(crate::noise::without(kind, text)[0] == text[0]);
        }
    }
}

/// Where no date line begins, none begins once those behind are replaced.
proof fn lemma_no_date_line_in_front(text: Seq<char>)
    requires
        text.len() > 0,
        crate::noise::longest_noise(Noise::DateLine, text, text.len()) == 0,
    ensures
        ({
            let out = crate::noise::without(Noise::DateLine, text);
            forall|k: int|
                0 < k <= out.len() ==> !crate::noise::is_noise(
                    Noise::DateLine,
                    #[trigger] out.take(k),
                )
        }),
{
    let kind = Noise::DateLine;
    crate::noise::lemma_longest(kind, text, text.len());
    let out = crate::noise::without(kind, text);
    let tail = text.skip(1);
    let rest = crate::noise::without(kind, tail);
    assert(out == seq![text[0]] + rest);
    reveal_strlit("Date:");
    assert forall|k: int| 0 < k <= out.len() implies !crate::noise::is_noise(
        kind,
        #[trigger] out.take(k),
    ) by {
        let w = out.take(k);
        if crate::noise::is_noise(kind, w) {
            let gap = choose|gap: int| crate::noise::is_date_line(w, gap);
            let m = 6 + gap;
            assert(w.take(5)[0] == w[0] && w.take(5)[1] == w[1] && w.take(5)[2] == w[2] && w.take(
                5,
            )[3] == w[3] && w.take(5)[4] == w[4]);
            assert forall|i: int| 0 <= i < m - 2 implies #[trigger] rest[i] != 'D' by {
                assert(rest[i] == out[i + 1] && out[i + 1] == w[i + 1]);
                if i >= 4 {
                    assert(crate::noise::is_space(w[i + 1]));
                } else {
                    assert(i == 0 || i == 1 || i == 2 || i == 3);
                }
            }
            lemma_front_before_date_line(tail, m - 1);
            assert forall|i: int| 0 <= i < m implies #[trigger] text[i] == w[i] by {
                if i > 0 {
                    assert(text[i] == tail[i - 1]);
                    assert(tail.take(m - 1)[i - 1] == rest.take(m - 1)[i - 1]);
                    assert(rest[i - 1] == out[i]);
                }
            }
            let word = text.take(m);
            assert(word.take(5) =~= w.take(5));
            assert forall|i: int| 5 <= i < 5 + gap implies crate::noise::is_space(
                #[trigger] word[i],
            ) by {
                assert(word[i] == w[i]);
            }
            assert(word[5 + gap] == w[5 + gap]);
            assert(crate::noise::is_date_line(word, gap));
            assert(crate::noise::is_noise(kind, word));
        }
    }
}

/// Replacing the date lines a second time changes nothing.
proof fn lemma_date_lines_settle(text: Seq<char>)
    ensures
        ({
            let out = crate::noise::without(Noise::DateLine, text);
            crate::noise::without(Noise::DateLine, out) == out
        }),
    decreases text.len(),
{
    let kind = Noise::DateLine;
    let out = crate::noise::without(kind, text);
    let p = crate::noise::noise_placeholder(kind);
    if text.len() > 0 {
        crate::noise::lemma_longest(kind, text, text.len());
        let n = crate::noise::longest_noise(kind, text, text.len());
        if n > 0 {
            let tail = text.skip(n as int);
            let rest = crate::noise::without(kind, tail);
            assert(out == p + rest);
            lemma_date_lines_settle(tail);
            lemma_longest_date_line(text);
            lemma_break_stays(tail);
            lemma_placeholder_found(rest);
        } else {
            let rest = crate::noise::without(kind, text.skip(1));
            assert(out == seq![text[0]] + rest);
            lemma_date_lines_settle(text.skip(1));
            lemma_no_date_line_in_front(text);
            crate::noise::lemma_no_match_at_front(kind, out, p);
            assert(out.skip(1) =~= rest);
        }
    }
}

/// A scrubbed text holds no date of the day and no commit hash.
pub proof fn scrubbed_texts_hold_no_dates_or_hashes(text: Seq<char>)
    ensures
        is_free_of(Noise::CurrentDate, crate::noise::scrubbed(text)),
        is_free_of(Noise::CommitHash, crate::noise::scrubbed(text)),
{
    let text1 = crate::noise::without(Noise::CurrentDate, text);
    let text2 = crate::noise::without(Noise::CommitHash, text1);
    lemma_stays_free(Noise::CurrentDate, Noise::CurrentDate, text);
    lemma_stays_free(Noise::CommitHash, Noise::CurrentDate, text1);
    lemma_stays_free(Noise::CommitHash, Noise::CommitHash, text1);
    lemma_stays_free(Noise::DateLine, Noise::CurrentDate, text2);
    lemma_stays_free(Noise::DateLine, Noise::CommitHash, text2);
}

/// Scrubbing a text a second time changes nothing.
pub proof fn scrubbing_settles(text: Seq<char>)
    ensures
        crate::noise::scrubbed(crate::noise::scrubbed(text)) == crate::noise::scrubbed(text),
{
    let out = crate::noise::scrubbed(text);
    scrubbed_texts_hold_no_dates_or_hashes(text);
    crate::noise::lemma_untouched(
        Noise::CurrentDate,
        out,
        crate::noise::noise_placeholder(Noise::CurrentDate),
    );
    crate::noise::lemma_untouched(
        Noise::CommitHash,
        out,
        crate::noise::noise_placeholder(Noise::CommitHash),
    );
    lemma_date_lines_settle(
        crate::noise::without(
            Noise::CommitHash,
            crate::noise::without(Noise::CurrentDate, text),
        ),
    );
}

/// A text without noise is not touched.
pub proof fn texts_without_noise_stay(text: Seq<char>)
    requires
        is_free_of(Noise::CurrentDate, text),
        is_free_of(Noise::CommitHash, text),
        is_free_of(Noise::DateLine, text),
    ensures
        crate::noise::scrubbed(text) == text,
{
    crate::noise::lemma_untouched(
        Noise::CurrentDate,
        text,
        crate::noise::noise_placeholder(Noise::CurrentDate),
    );
    crate::noise::lemma_untouched(
        Noise::CommitHash,
        text,
        crate::noise::noise_placeholder(Noise::CommitHash),
    );
    crate::noise::lemma_untouched(
        Noise::DateLine,
        text,
        crate::noise::noise_placeholder(Noise::DateLine),
    );
}

} // verus!
