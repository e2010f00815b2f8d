//! What two requests with the same canonical text have in common.
//!
//! No noise reaches over a quote, and outside of the strings there is none, so
//! scrubbing the text of a request is scrubbing its strings one by one. Everything
//! else that a request asks comes through as it is.

use vstd::prelude::*;
use crate::json::JsonTree;
use crate::noise::Noise;

verus! {

/// What is left of a string in a canonical text, between its quotes.
pub open spec fn scrubbed_string(s: Seq<char>) -> Seq<char> {
    crate::noise::scrubbed(crate::json::escaped(s))
}

/// Strings as a canonical text has them.
pub open spec fn scrubbing() -> spec_fn(Seq<char>) -> Seq<char> {
    |s: Seq<char>| scrubbed_string(s)
}

/// Two values agree in structure, in numbers, booleans and nulls, and in what
/// scrubbing leaves of the strings and the names at each place.
pub open spec fn are_alike(t1: JsonTree, t2: JsonTree) -> bool
    decreases t1,
{
    match (t1, t2) {
        (JsonTree::Null, JsonTree::Null) => true,
        (JsonTree::Bool(a), JsonTree::Bool(b)) => a == b,
        (JsonTree::Number(n), JsonTree::Number(m)) => n == m,
        (JsonTree::Text(s1), JsonTree::Text(s2)) => scrubbed_string(s1) == scrubbed_string(s2),
        (JsonTree::List(x), JsonTree::List(y)) => {
            &&& x.len() == y.len()
            &&& forall|i: int| 0 <= i < x.len() ==> are_alike(#[trigger] x[i], y[i])
        },
        (JsonTree::Object(x), JsonTree::Object(y)) => {
            &&& x.len() == y.len()
            &&& forall|i: int|
                0 <= i < x.len() ==> scrubbed_string((#[trigger] x[i]).0) == scrubbed_string(
                    y[i].0,
                ) && are_alike(x[i].1, y[i].1)
        },
        _ => false,
    }
}

/// No noise holds a quote or a backslash, and all noise holds white space.
proof fn lemma_noise_keeps_to_its_string(kind: Noise, w: Seq<char>) -> (at: int)
    requires
        crate::noise::is_noise(kind, w),
    ensures
        forall|i: int| 0 <= i < w.len() ==> #[trigger] w[i] != '"' && w[i] != '\\',
        0 <= at < w.len(),
        crate::noise::is_space(w[at]),
{
    match kind {
        Noise::CurrentDate => {
            crate::noise::lemma_noise_characters(kind, w);
            let (s1, s2) = crate::noise::lemma_current_date_parts(w);
            s1
        },
        Noise::CommitHash => {
            crate::noise::lemma_noise_characters(kind, w);
            reveal_strlit("commit ");
            assert(w.take(7)[6] == w[6]);
            6
        },
        Noise::DateLine => {
            let gap = choose|gap: int| crate::noise::is_date_line(w, gap);
            reveal_strlit("Date:");
            assert forall|i: int| 0 <= i < w.len() implies #[trigger] w[i] != '"' && w[i]
                != '\\' by {
                if i < 5 {
                    assert(w.take(5)[i] == w[i]);
                    assert(i == 0 || i == 1 || i == 2 || i == 3 || i == 4);
                } else if i < 5 + gap {
                    assert(crate::noise::is_space(w[i]));
                } else {
                    assert(crate::noise::is_on_line(w[i]));
                }
            }
            5
        },
    }
}

proof fn lemma_placeholder_keeps_to_its_string(kind: Noise)
    ensures
        crate::noise::noise_placeholder(kind).len() > 0,
        forall|i: int|
            0 <= i < crate::noise::noise_placeholder(kind).len() ==> #[trigger]
            crate::noise::noise_placeholder(kind)[i] != '"' && crate::noise::noise_placeholder(
                kind,
            )[i] != '\\',
{
    let p = crate::noise::noise_placeholder(kind);
    reveal_strlit("the current date is <DATE>");
    reveal_strlit("commit <HASH>");
    reveal_strlit("Date: <DATE>");
    assert forall|i: int| 0 <= i < p.len() implies #[trigger] p[i] != '"' && p[i] != '\\' by {
        assert(i == 0 || i == 1 || i == 2 || i == 3 || i == 4 || i == 5 || i == 6 || i == 7 || i
            == 8 || i == 9 || i == 10 || i == 11 || i == 12 || i == 13 || i == 14 || i == 15 || i
            == 16 || i == 17 || i == 18 || i == 19 || i == 20 || i == 21 || i == 22 || i == 23 || i
            == 24 || i == 25);
    }
}

/// Neither a quote nor a backslash is in the text.
spec fn is_unbroken(text: Seq<char>) -> bool {
    forall|i: int| 0 <= i < text.len() ==> #[trigger] text[i] != '"' && text[i] != '\\'
}

/// What precedes the inside of a string may be more of it.
proof fn lemma_body_extends(front: Seq<char>, body: Seq<char>)
    requires
        is_unbroken(front),
        crate::syntax::is_string_body(body),
    ensures
        crate::syntax::is_string_body(front + body),
    decreases front.len(),
{
    let text = front + body;
    if front.len() == 0 {
        assert(text =~= body);
    } else {
        let tail = front.skip(1);
        assert forall|i: int| 0 <= i < tail.len() implies #[trigger] tail[i] != '"' && tail[i]
            != '\\' by {
            assert(tail[i] == front[i + 1]);
        }
        lemma_body_extends(tail, body);
        assert(text[0] == front[0]);
        assert(text.subrange(1, text.len() as int) =~= tail + body);
    }
}

/// What is left behind an unbroken front is the inside of a string too.
proof fn lemma_body_remains(text: Seq<char>, n: int)
    requires
        0 <= n <= text.len(),
        is_unbroken(text.take(n)),
        crate::syntax::is_string_body(text),
    ensures
        crate::syntax::is_string_body(text.skip(n)),
    decreases n,
{
    if n == 0 {
        assert(text.skip(0) =~= text);
    } else {
        let tail = text.subrange(1, text.len() as int);
        assert(text.take(n)[0] == text[0]);
        assert forall|i: int| 0 <= i < n - 1 implies #[trigger] tail.take(n - 1)[i] != '"'
            && tail.take(n - 1)[i] != '\\' by {
            assert(tail.take(n - 1)[i] == text.take(n)[i + 1]);
        }
        lemma_body_remains(tail, n - 1);
        assert(tail.skip(n - 1) =~= text.skip(n));
    }
}

/// Replacing noise in the inside of a string leaves the inside of a string.
proof fn lemma_body_stays(kind: Noise, text: Seq<char>)
    requires
        crate::syntax::is_string_body(text),
    ensures
        crate::syntax::is_string_body(crate::noise::without(kind, text)),
    decreases text.len(),
{
    let out = crate::noise::without(kind, text);
    let p = crate::noise::noise_placeholder(kind);
    if text.len() > 0 {
        crate::noise::lemma_longest(kind, text, text.len());
        lemma_placeholder_keeps_to_its_string(kind);
        let n = crate::noise::longest_noise(kind, text, text.len()) as int;
        if n > 0 {
            let word = text.take(n);
            let at = lemma_noise_keeps_to_its_string(kind, word);
            let rest = text.skip(n);
            lemma_body_remains(text, n);
            lemma_body_stays(kind, rest);
            lemma_body_extends(p, crate::noise::without(kind, rest));
        } else {
            let tail = text.skip(1);
            let rest = crate::noise::without(kind, tail);
            assert(out == seq![text[0]] + rest);
            if text[0] == '\\' {
                let tail2 = text.subrange(2, text.len() as int);
                assert(tail.skip(1) =~= tail2);
                crate::noise::lemma_longest(kind, tail, tail.len());
                let m = crate::noise::longest_noise(kind, tail, tail.len()) as int;
                if m > 0 {
                    let word = tail.take(m);
                    let at = lemma_noise_keeps_to_its_string(kind, word);
                    let rest2 = tail.skip(m);
                    assert forall|i: int| 0 <= i < m - 1 implies #[trigger] tail2.take(m - 1)[i]
                        != '"' && tail2.take(m - 1)[i] != '\\' by {
                        assert(tail2.take(m - 1)[i] == word[i + 1]);
                    }
                    lemma_body_remains(tail2, m - 1);
                    assert(tail2.skip(m - 1) =~= rest2);
                    lemma_body_stays(kind, rest2);
                    let end = crate::noise::without(kind, rest2);
                    assert(rest == p + end);
                    let p2 = p.skip(1);
                    assert forall|i: int| 0 <= i < p2.len() implies #[trigger] p2[i] != '"' && p2[i]
                        != '\\' by {
                        assert(p2[i] == p[i + 1]);
                    }
                    lemma_body_extends(p2, end);
                    assert(out.subrange(2, out.len() as int) =~= p2 + end);
                } else {
                    lemma_body_stays(kind, tail2);
                    assert(rest == seq![tail[0]] + crate::noise::without(kind, tail2));
                    assert(out.subrange(2, out.len() as int) =~= crate::noise::without(
                        kind,
                        tail2,
                    ));
                }
            } else {
                assert(text.subrange(1, text.len() as int) =~= tail);
                lemma_body_stays(kind, tail);
                assert(out.subrange(1, out.len() as int) =~= rest);
            }
        }
    }
}

proof fn lemma_scrubbed_string_is_body(s: Seq<char>)
    ensures
        crate::syntax::is_string_body(scrubbed_string(s)),
{
    let text = crate::json::escaped(s);
    crate::syntax::lemma_escaped_is_body(s);
    lemma_body_stays(Noise::CurrentDate, text);
    let text1 = crate::noise::without(Noise::CurrentDate, text);
    lemma_body_stays(Noise::CommitHash, text1);
    lemma_body_stays(Noise::DateLine, crate::noise::without(Noise::CommitHash, text1));
}

/// One kind of noise is replaced before and after a quote or a backslash, never
/// across it.
proof fn lemma_replaced_at_break(kind: Noise, a: Seq<char>, c: char, b: Seq<char>)
    requires
        c == '"' || c == '\\',
    ensures
        crate::noise::without(kind, a + seq![c] + b) == crate::noise::without(kind, a) + seq![c]
            + crate::noise::without(kind, b),
{
    let p = crate::noise::noise_placeholder(kind);
    let mark = seq![c];
    let end = mark + b;
    let text = a + end;
    assert forall|i: int, j: int|
        0 <= i < a.len() && a.len() < j <= a.len() + end.len() implies !crate::noise::is_noise(
        kind,
        #[trigger] (a + end).subrange(i, j),
    ) by {
        let w = text.subrange(i, j);
        if crate::noise::is_noise(kind, w) {
            let at = lemma_noise_keeps_to_its_string(kind, w);
            assert(w[a.len() - i] == c);
        }
    }
    crate::noise::lemma_replaced_apart(kind, a, end, p);
    assert forall|i: int, j: int|
        0 <= i < mark.len() && mark.len() < j <= mark.len() + b.len() implies
        !crate::noise::is_noise(kind, #[trigger] (mark + b).subrange(i, j)) by {
        let w = end.subrange(i, j);
        if crate::noise::is_noise(kind, w) {
            let at = lemma_noise_keeps_to_its_string(kind, w);
            assert(w[0] == c);
        }
    }
    crate::noise::lemma_replaced_apart(kind, mark, b, p);
    assert forall|i: int, j: int| 0 <= i < j <= mark.len() implies !crate::noise::is_noise(
        kind,
        #[trigger] mark.subrange(i, j),
    ) by {
        let w = mark.subrange(i, j);
        if crate::noise::is_noise(kind, w) {
            let at = lemma_noise_keeps_to_its_string(kind, w);
            assert(w[0] == c);
        }
    }
    crate::noise::lemma_untouched(kind, mark, p);
    assert(a + mark + b =~= text);
    assert(crate::noise::without(kind, a) + mark + crate::noise::without(kind, b)
        =~= crate::noise::without(kind, a) + (mark + crate::noise::without(kind, b)));
}

/// Texts are scrubbed before and after a quote or a backslash, never across it.
pub proof fn lemma_scrubbed_at_break(a: Seq<char>, c: char, b: Seq<char>)
    requires
        c == '"' || c == '\\',
    ensures
        crate::noise::scrubbed(a + seq![c] + b) == crate::noise::scrubbed(a) + seq![c]
            + crate::noise::scrubbed(b),
{
    let k1 = Noise::CurrentDate;
    let k2 = Noise::CommitHash;
    let k3 = Noise::DateLine;
    lemma_replaced_at_break(k1, a, c, b);
    let a1 = crate::noise::without(k1, a);
    let b1 = crate::noise::without(k1, b);
    lemma_replaced_at_break(k2, a1, c, b1);
    lemma_replaced_at_break(k3, crate::noise::without(k2, a1), c, crate::noise::without(k2, b1));
}

/// No white space is in the text.
spec fn is_spaceless(text: Seq<char>) -> bool {
    forall|i: int| 0 <= i < text.len() ==> !crate::noise::is_space(#[trigger] text[i])
}

/// No quote is among the first characters, up to and with that at `i`.
spec fn is_before_quotes(text: Seq<char>, i: int) -> bool {
    forall|j: int| 0 <= j <= i ==> #[trigger] text[j] != '"'
}

/// The text is outside of strings at its front: there is no white space before
/// the first quote.
spec fn begins_outside(text: Seq<char>) -> bool {
    forall|i: int|
        0 <= i < text.len() && #[trigger] is_before_quotes(text, i) ==> !crate::noise::is_space(
            text[i],
        )
}

proof fn lemma_begins_outside_skip(text: Seq<char>)
    requires
        text.len() > 0,
        text[0] != '"',
        begins_outside(text),
    ensures
        begins_outside(text.skip(1)),
{
    let tail = text.skip(1);
    assert forall|i: int|
        0 <= i < tail.len() && #[trigger] is_before_quotes(
            tail,
            i,
        ) implies !crate::noise::is_space(tail[i]) by {
        assert forall|j: int| 0 <= j <= i + 1 implies #[trigger] text[j] != '"' by {
            if j > 0 {
                assert(text[j] == tail[j - 1]);
            }
        }
        assert(is_before_quotes(text, i + 1));
    }
}

proof fn lemma_begins_outside_add(front: Seq<char>, text: Seq<char>)
    requires
        is_spaceless(front),
        begins_outside(text),
    ensures
        begins_outside(front + text),
{
    let all = front + text;
    assert forall|i: int|
        0 <= i < all.len() && #[trigger] is_before_quotes(all, i) implies !crate::noise::is_space(
        all[i],
    ) by {
        if i < front.len() {
            assert(all[i] == front[i]);
        } else {
            let k = i - front.len();
            assert forall|j: int| 0 <= j <= k implies #[trigger] text[j] != '"' by {
                assert(text[j] == all[j + front.len()]);
            }
            assert(is_before_quotes(text, k));
        }
    }
}

proof fn lemma_begins_with_quote(text: Seq<char>)
    requires
        text.len() > 0,
        text[0] == '"',
    ensures
        begins_outside(text),
{
    assert forall|i: int|
        0 <= i < text.len() && #[trigger] is_before_quotes(text, i) implies !crate::noise::is_space(
        text[i],
    ) by {
        assert(text[0] != '"');
    }
}

/// No noise begins outside of the strings.
proof fn lemma_no_noise_outside(kind: Noise, text: Seq<char>, n: int)
    requires
        begins_outside(text),
        0 <= n <= text.len(),
    ensures
        !crate::noise::is_noise(kind, text.take(n)),
{
    let w = text.take(n);
    if crate::noise::is_noise(kind, w) {
        let at = lemma_noise_keeps_to_its_string(kind, w);
        assert forall|j: int| 0 <= j <= at implies #[trigger] text[j] != '"' by {
            assert(text[j] == w[j]);
        }
        assert(is_before_quotes(text, at));
        assert(text[at] == w[at]);
    }
}

proof fn lemma_still_outside(kind: Noise, text: Seq<char>)
    requires
        begins_outside(text),
    ensures
        begins_outside(crate::noise::without(kind, text)),
    decreases text.len(),
{
    if text.len() > 0 {
        let p = crate::noise::noise_placeholder(kind);
        assert forall|k: int| 0 < k <= text.len() implies !crate::noise::is_noise(
            kind,
            #[trigger] text.take(k),
        ) by {
            lemma_no_noise_outside(kind, text, k);
        }
        crate::noise::lemma_no_match_at_front(kind, text, p);
        let out = crate::noise::without(kind, text);
        assert(out[0] == text[0]);
        if text[0] == '"' {
            lemma_begins_with_quote(out);
        } else {
            assert(is_before_quotes(text, 0));
            lemma_begins_outside_skip(text);
            lemma_still_outside(kind, text.skip(1));
            lemma_begins_outside_add(seq![text[0]], crate::noise::without(kind, text.skip(1)));
        }
    }
}

/// What is outside of the strings stays.
proof fn lemma_replaced_outside(kind: Noise, front: Seq<char>, text: Seq<char>)
    requires
        is_spaceless(front),
        begins_outside(text),
    ensures
        crate::noise::without(kind, front + text) == front + crate::noise::without(kind, text),
    decreases front.len(),
{
    let all = front + text;
    let p = crate::noise::noise_placeholder(kind);
    if front.len() == 0 {
        assert(all =~= text);
        assert(front + crate::noise::without(kind, text) =~= crate::noise::without(kind, text));
    } else {
        lemma_begins_outside_add(front, text);
        assert forall|k: int| 0 < k <= all.len() implies !crate::noise::is_noise(
            kind,
            #[trigger] all.take(k),
        ) by {
            lemma_no_noise_outside(kind, all, k);
        }
        crate::noise::lemma_no_match_at_front(kind, all, p);
        let tail = front.skip(1);
        assert forall|i: int| 0 <= i < tail.len() implies !crate::noise::is_space(
            #[trigger] tail[i],
        ) by {
            assert(tail[i] == front[i + 1]);
        }
        lemma_replaced_outside(kind, tail, text);
        assert(all.skip(1) =~= tail + text);
        assert(seq![all[0]] + (tail + crate::noise::without(kind, text)) =~= front
            + crate::noise::without(kind, text));
    }
}

proof fn lemma_scrubbed_outside(front: Seq<char>, text: Seq<char>)
    requires
        is_spaceless(front),
        begins_outside(text),
    ensures
        crate::noise::scrubbed(front + text) == front + crate::noise::scrubbed(text),
        begins_outside(front + text),
{
    let k1 = Noise::CurrentDate;
    let k2 = Noise::CommitHash;
    let text1 = crate::noise::without(k1, text);
    lemma_replaced_outside(k1, front, text);
    lemma_still_outside(k1, text);
    lemma_replaced_outside(k2, front, text1);
    lemma_still_outside(k2, text1);
    lemma_replaced_outside(Noise::DateLine, front, crate::noise::without(k2, text1));
    lemma_begins_outside_add(front, text);
}

/// A string is scrubbed for itself.
proof fn lemma_scrubbed_quoted(s: Seq<char>, post: Seq<char>)
    requires
        begins_outside(post),
    ensures
        crate::noise::scrubbed(crate::json::quoted(s) + post) == crate::syntax::in_quotes(
            scrubbed_string(s),
        ) + crate::noise::scrubbed(post),
        begins_outside(crate::json::quoted(s) + post),
{
    let none = Seq::<char>::empty();
    let body = crate::json::escaped(s);
    let text = crate::json::quoted(s) + post;
    let inner = body + seq!['"'] + post;
    assert(text =~= none + seq!['"'] + inner);
    lemma_scrubbed_at_break(none, '"', inner);
    lemma_scrubbed_at_break(body, '"', post);
    assert(crate::noise::scrubbed(none) =~= none);
    assert(crate::noise::scrubbed(text) =~= crate::syntax::in_quotes(scrubbed_string(s))
        + crate::noise::scrubbed(post));
    lemma_begins_with_quote(text);
}

proof fn lemma_scrubbed_items(items: Seq<JsonTree>, post: Seq<char>)
    requires
        forall|i: int|
            0 <= i < items.len() ==> crate::syntax::has_number_texts(#[trigger] items[i]),
        begins_outside(post),
    ensures
        crate::noise::scrubbed(crate::json::items_text(items) + post)
            == crate::syntax::raw_items_text(
            crate::syntax::items_with_strings(items, scrubbing()),
        ) + crate::noise::scrubbed(post),
        begins_outside(crate::json::items_text(items) + post),
    decreases items,
{
    let images = crate::syntax::items_with_strings(items, scrubbing());
    let text = crate::json::items_text(items) + post;
    if items.len() == 0 {
        assert(text =~= post);
        assert(crate::syntax::raw_items_text(images) + crate::noise::scrubbed(post)
            =~= crate::noise::scrubbed(post));
    } else {
        let front = items.drop_last();
        let last = items.last();
        assert(crate::syntax::has_number_texts(items[items.len() - 1]));
        assert(images.drop_last() =~= crate::syntax::items_with_strings(front, scrubbing()));
        assert(images.last() == crate::syntax::with_strings(last, scrubbing()));
        lemma_scrubbed_value(last, post);
        if items.len() > 1 {
            let end = crate::json::json_text(last) + post;
            lemma_scrubbed_outside(seq![','], end);
            assert forall|i: int| 0 <= i < front.len() implies crate::syntax::has_number_texts(
                #[trigger] front[i],
            ) by {
                assert(front[i] == items[i]);
            }
            lemma_scrubbed_items(front, seq![','] + end);
            assert(text =~= crate::json::items_text(front) + (seq![','] + end));
            assert(crate::syntax::raw_items_text(images) + crate::noise::scrubbed(post)
                =~= crate::syntax::raw_items_text(images.drop_last()) + (seq![','] + (
            crate::syntax::raw_text(images.last()) + crate::noise::scrubbed(post))));
        }
    }
}

proof fn lemma_scrubbed_members(members: Seq<(Seq<char>, JsonTree)>, post: Seq<char>)
    requires
        forall|i: int|
            0 <= i < members.len() ==> crate::syntax::has_number_texts((#[trigger] members[i]).1),
        begins_outside(post),
    ensures
        crate::noise::scrubbed(crate::json::members_text(members) + post)
            == crate::syntax::raw_members_text(
            crate::syntax::members_with_strings(members, scrubbing()),
        ) + crate::noise::scrubbed(post),
        begins_outside(crate::json::members_text(members) + post),
    decreases members,
{
    let images = crate::syntax::members_with_strings(members, scrubbing());
    let text = crate::json::members_text(members) + post;
    if members.len() == 0 {
        assert(text =~= post);
        assert(crate::syntax::raw_members_text(images) + crate::noise::scrubbed(post)
            =~= crate::noise::scrubbed(post));
    } else {
        let front = members.drop_last();
        let (name, value) = members.last();
        assert(crate::syntax::has_number_texts(members[members.len() - 1].1));
        assert(images.drop_last() =~= crate::syntax::members_with_strings(front, scrubbing()));
        assert(images.last() == (
            scrubbed_string(name),
            crate::syntax::with_strings(value, scrubbing()),
        ));
        assert(decreases_to!(members => members.last()));
        assert(decreases_to!(members.last() => members.last().1));
        lemma_scrubbed_value(value, post);
        let value_end = crate::json::json_text(value) + post;
        lemma_scrubbed_outside(seq![':'], value_end);
        lemma_scrubbed_quoted(name, seq![':'] + value_end);
        let end = crate::json::quoted(name) + (seq![':'] + value_end);
        let image = crate::syntax::in_quotes(scrubbed_string(name)) + seq![':']
            + crate::syntax::raw_text(images.last().1);
        assert(crate::noise::scrubbed(end) =~= image + crate::noise::scrubbed(post));
        if members.len() == 1 {
            assert(text =~= end);
        } else {
            lemma_scrubbed_outside(seq![','], end);
            assert forall|i: int| 0 <= i < front.len() implies crate::syntax::has_number_texts(
                (#[trigger] front[i]).1,
            ) by {
                assert(front[i] == members[i]);
            }
            lemma_scrubbed_members(front, seq![','] + end);
            assert(text =~= crate::json::members_text(front) + (seq![','] + end));
            assert(crate::syntax::raw_members_text(images) + crate::noise::scrubbed(post)
                =~= crate::syntax::raw_members_text(images.drop_last()) + (seq![','] + (image
                + crate::noise::scrubbed(post))));
        }
    }
}

/// A value outside of strings is scrubbed by scrubbing its strings.
proof fn lemma_scrubbed_value(t: JsonTree, post: Seq<char>)
    requires
        crate::syntax::has_number_texts(t),
        begins_outside(post),
    ensures
        crate::noise::scrubbed(crate::json::json_text(t) + post) == crate::syntax::raw_text(
            crate::syntax::with_strings(t, scrubbing()),
        ) + crate::noise::scrubbed(post),
        begins_outside(crate::json::json_text(t) + post),
    decreases t,
{
    let text = crate::json::json_text(t);
    crate::syntax::lemma_with_strings(t, scrubbing());
    match t {
        JsonTree::Text(s) => {
            lemma_scrubbed_quoted(s, post);
        },
        JsonTree::List(items) => {
            let images = crate::syntax::items_with_strings(items, scrubbing());
            let inner = crate::json::items_text(items) + (seq![']'] + post);
            lemma_scrubbed_outside(seq![']'], post);
            lemma_scrubbed_items(items, seq![']'] + post);
            lemma_scrubbed_outside(seq!['['], inner);
            assert(text + post =~= seq!['['] + inner);
            assert(crate::syntax::raw_text(JsonTree::List(images)) + crate::noise::scrubbed(post)
                =~= seq!['['] + (crate::syntax::raw_items_text(images) + (seq![']']
                + crate::noise::scrubbed(post))));
        },
        JsonTree::Object(members) => {
            let images = crate::syntax::members_with_strings(members, scrubbing());
            let inner = crate::json::members_text(members) + (seq!['}'] + post);
            lemma_scrubbed_outside(seq!['}'], post);
            lemma_scrubbed_members(members, seq!['}'] + post);
            lemma_scrubbed_outside(seq!['{'], inner);
            assert(text + post =~= seq!['{'] + inner);
            assert(crate::syntax::raw_text(JsonTree::Object(images)) + crate::noise::scrubbed(post)
                =~= seq!['{'] + (crate::syntax::raw_members_text(images) + (seq!['}']
                + crate::noise::scrubbed(post))));
        },
        _ => {
            assert(is_spaceless(text));
            lemma_scrubbed_outside(text, post);
        },
    }
}

/// The canonical text of a request is the JSON text of what it asks, with what
/// scrubbing leaves of each string and each name between its quotes, and with all
/// else as it is.
pub proof fn canonical_texts_scrub_each_string(request: JsonTree)
    requires
        crate::syntax::has_number_texts(request),
    ensures
        crate::key::canonical_text(request) == crate::syntax::raw_text(
            crate::syntax::with_strings(
                crate::json::semantic_content(request),
                scrubbing(),
            ),
        ),
{
    let content = crate::json::semantic_content(request);
    let none = Seq::<char>::empty();
    crate::syntax::lemma_content_has_number_texts(request);
    lemma_scrubbed_value(content, none);
    let text = crate::json::json_text(content);
    assert(text + none =~= text);
    assert(crate::noise::scrubbed(none) =~= none);
    let image = crate::syntax::raw_text(crate::syntax::with_strings(content, scrubbing()));
    assert(image + none =~= image);
}

/// Values are alike if and only if scrubbing their strings makes them the same.
proof fn lemma_alike(t1: JsonTree, t2: JsonTree)
    ensures
        are_alike(t1, t2) <==> crate::syntax::with_strings(t1, scrubbing())
            == crate::syntax::with_strings(t2, scrubbing()),
    decreases t1,
{
    crate::syntax::lemma_with_strings(t1, scrubbing());
    crate::syntax::lemma_with_strings(t2, scrubbing());
    match (t1, t2) {
        (JsonTree::List(x), JsonTree::List(y)) => {
            let images1 = crate::syntax::items_with_strings(x, scrubbing());
            let images2 = crate::syntax::items_with_strings(y, scrubbing());
            assert forall|i: int| 0 <= i < x.len() && x.len() == y.len() implies (are_alike(
                #[trigger] x[i],
                y[i],
            ) <==> images1[i] == images2[i]) by {
                lemma_alike(x[i], y[i]);
            }
            if are_alike(t1, t2) {
                assert(images1 =~= images2);
            }
            if images1 == images2 {
                assert(x.len() == images1.len() && y.len() == images2.len());
                assert(are_alike(t1, t2));
            }
        },
        (JsonTree::Object(x), JsonTree::Object(y)) => {
            let images1 = crate::syntax::members_with_strings(x, scrubbing());
            let images2 = crate::syntax::members_with_strings(y, scrubbing());
            assert forall|i: int| 0 <= i < x.len() && x.len() == y.len() implies ((scrubbed_string(
                (#[trigger] x[i]).0,
            ) == scrubbed_string(y[i].0) && are_alike(x[i].1, y[i].1)) <==> images1[i]
                == images2[i]) by {
                assert(decreases_to!(x => x[i]));
                assert(decreases_to!(x[i] => x[i].1));
                lemma_alike(x[i].1, y[i].1);
            }
            if are_alike(t1, t2) {
                assert(images1 =~= images2);
            }
            if images1 == images2 {
                assert(x.len() == images1.len() && y.len() == images2.len());
                assert(are_alike(t1, t2));
            }
        },
        _ => {},
    }
}

/// Two requests have the same canonical text if and only if what they ask is
/// alike.
pub proof fn canonical_texts_tell_requests_apart(request1: JsonTree, request2: JsonTree)
    requires
        crate::syntax::has_number_texts(request1),
        crate::syntax::has_number_texts(request2),
    ensures
        crate::key::canonical_text(request1) == crate::key::canonical_text(request2) <==> are_alike(
            crate::json::semantic_content(request1),
            crate::json::semantic_content(request2),
        ),
{
    let content1 = crate::json::semantic_content(request1);
    let content2 = crate::json::semantic_content(request2);
    canonical_texts_scrub_each_string(request1);
    canonical_texts_scrub_each_string(request2);
    crate::syntax::lemma_content_has_number_texts(request1);
    crate::syntax::lemma_content_has_number_texts(request2);
    assert forall|s: Seq<char>| crate::syntax::is_string_body(#[trigger] scrubbing()(s)) by {
        lemma_scrubbed_string_is_body(s);
    }
    crate::syntax::lemma_image_is_readable(content1, scrubbing());
    crate::syntax::lemma_image_is_readable(content2, scrubbing());
    crate::syntax::raw_texts_tell_values_apart(
        crate::syntax::with_strings(content1, scrubbing()),
        crate::syntax::with_strings(content2, scrubbing()),
    );
    lemma_alike(content1, content2);
}

/// No noise is in the string as it is written.
pub open spec fn is_free_of_noise(s: Seq<char>) -> bool {
    forall|kind: Noise| #[trigger] crate::settled::is_free_of(kind, crate::json::escaped(s))
}

/// Strings without noise leave the same text only if they are the same.
pub proof fn strings_without_noise_are_told_apart(s1: Seq<char>, s2: Seq<char>)
    requires
        is_free_of_noise(s1),
        is_free_of_noise(s2),
    ensures
        scrubbed_string(s1) == scrubbed_string(s2) <==> s1 == s2,
{
    crate::settled::texts_without_noise_stay(crate::json::escaped(s1));
    crate::settled::texts_without_noise_stay(crate::json::escaped(s2));
    crate::syntax::escapes_tell_strings_apart(s1, s2);
}

} // verus!
