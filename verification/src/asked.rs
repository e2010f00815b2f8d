//! Which parts of a request its key depends on, said over the request.

use vstd::prelude::*;
use crate::json::{json_to_string, semantic_request, Json, JsonTree};
use crate::key::canonical_request;
use crate::noise::scrub_nondeterministic_content;
use crate::provider::CachingAiProvider;

verus! {

/// No member at any depth has one of the two names of opaque tokens.
pub open spec fn names_no_tokens(t: JsonTree) -> bool
    decreases t,
{
    match t {
        JsonTree::List(items) => forall|i: int|
            0 <= i < items.len() ==> names_no_tokens(#[trigger] items[i]),
        JsonTree::Object(members) => forall|i: int|
            0 <= i < members.len() ==> (#[trigger] members[i]).0 != "thought_signature"@
                && members[i].0 != "thoughtSignature"@ && names_no_tokens(members[i].1),
        _ => true,
    }
}

/// The value is no object with a label on it.
pub open spec fn has_no_label(t: JsonTree) -> bool {
    t matches JsonTree::Object(members) ==> forall|i: int|
        0 <= i < members.len() ==> (#[trigger] members[i]).0 != "context_tag"@
}

proof fn lemma_items_without_tokens(items: Seq<JsonTree>)
    requires
        forall|i: int| 0 <= i < items.len() ==> names_no_tokens(#[trigger] items[i]),
    ensures
        crate::json::items_without_signatures(items) == items,
    decreases items,
{
    if items.len() > 0 {
        let front = items.drop_last();
        assert forall|i: int| 0 <= i < front.len() implies names_no_tokens(#[trigger] front[i]) by {
            assert(front[i] == items[i]);
        }
        lemma_items_without_tokens(front);
        assert(names_no_tokens(items[items.len() - 1]));
        lemma_nothing_removed(items.last());
        assert(front.push(items.last()) =~= items);
    }
}

proof fn lemma_members_without_tokens(members: Seq<(Seq<char>, JsonTree)>)
    requires
        forall|i: int|
            0 <= i < members.len() ==> (#[trigger] members[i]).0 != "thought_signature"@
                && members[i].0 != "thoughtSignature"@ && names_no_tokens(members[i].1),
    ensures
        crate::json::members_without_signatures(members) == members,
    decreases members,
{
    if members.len() > 0 {
        let front = members.drop_last();
        let last = members.last();
        assert forall|i: int| 0 <= i < front.len() implies (#[trigger] front[i]).0
            != "thought_signature"@ && front[i].0 != "thoughtSignature"@ && names_no_tokens(
            front[i].1,
        ) by {
            assert(front[i] == members[i]);
        }
        lemma_members_without_tokens(front);
        assert(names_no_tokens(members[members.len() - 1].1));
        assert(decreases_to!(members => members.last()));
        assert(decreases_to!(members.last() => members.last().1));
        lemma_nothing_removed(last.1);
        assert(!crate::json::is_signature(last.0));
        assert(front.push((last.0, last.1)) =~= members);
    }
}

proof fn lemma_nothing_removed(t: JsonTree)
    requires
        names_no_tokens(t),
    ensures
        crate::json::without_signatures(t) == t,
    decreases t,
{
    match t {
        JsonTree::List(items) => {
            lemma_items_without_tokens(items);
        },
        JsonTree::Object(members) => {
            lemma_members_without_tokens(members);
        },
        _ => {},
    }
}

proof fn lemma_no_label_removed(members: Seq<(Seq<char>, JsonTree)>)
    requires
        forall|i: int| 0 <= i < members.len() ==> (#[trigger] members[i]).0 != "context_tag"@,
    ensures
        crate::json::without_member(members, "context_tag"@) == members,
    decreases members.len(),
{
    reveal(Seq::filter);
    if members.len() > 0 {
        let front = members.drop_last();
        assert forall|i: int| 0 <= i < front.len() implies (#[trigger] front[i]).0
            != "context_tag"@ by {
            assert(front[i] == members[i]);
        }
        lemma_no_label_removed(front);
        assert(members[members.len() - 1].0 != "context_tag"@);
        assert(front.push(members.last()) =~= members);
    }
}

/// A request without a label and opaque tokens is asked as a whole.
proof fn lemma_all_is_asked(t: JsonTree)
    requires
        has_no_label(t),
        names_no_tokens(t),
    ensures
        crate::json::semantic_content(t) == t,
{
    lemma_nothing_removed(t);
    if let JsonTree::Object(members) = t {
        lemma_no_label_removed(members);
    }
}

/// All of a request has a part in its key, but for the label on it and the members
/// with the two names of opaque tokens: requests that have none of these share a
/// key, short of a collision, if and only if they are alike themselves.
pub proof fn all_else_is_in_the_key(request1: &Json, request2: &Json, key1: String, key2: String)
    requires
        call_ensures(CachingAiProvider::compute_cache_key, (request1,), key1),
        call_ensures(CachingAiProvider::compute_cache_key, (request2,), key2),
        has_no_label(request1.tree()),
        has_no_label(request2.tree()),
        names_no_tokens(request1.tree()),
        names_no_tokens(request2.tree()),
        crate::syntax::has_number_texts(request1.tree()),
        crate::syntax::has_number_texts(request2.tree()),
        !crate::key::collide(request1.tree(), request2.tree()),
    ensures
        key1@ == key2@ <==> crate::canonical::are_alike(request1.tree(), request2.tree()),
{
    crate::key::different_requests_have_different_keys(request1.tree(), request2.tree());
    lemma_all_is_asked(request1.tree());
    lemma_all_is_asked(request2.tree());
}

/// The string, as JSON writes it, holds nothing that scrubbing replaces.
pub open spec fn is_settled_string(s: Seq<char>) -> bool {
    crate::lines::is_settled(crate::json::escaped(s))
}

/// No string and no name at any depth holds anything that scrubbing replaces.
pub open spec fn has_settled_strings(t: JsonTree) -> bool
    decreases t,
{
    match t {
        JsonTree::Text(s) => is_settled_string(s),
        JsonTree::List(items) => forall|i: int|
            0 <= i < items.len() ==> has_settled_strings(#[trigger] items[i]),
        JsonTree::Object(members) => forall|i: int|
            0 <= i < members.len() ==> is_settled_string((#[trigger] members[i]).0)
                && has_settled_strings(members[i].1),
        _ => true,
    }
}

proof fn lemma_settled_strings_told_apart(s1: Seq<char>, s2: Seq<char>)
    requires
        is_settled_string(s1),
        is_settled_string(s2),
    ensures
        crate::canonical::scrubbed_string(s1) == crate::canonical::scrubbed_string(s2) <==> s1
            == s2,
{
    crate::lines::lemma_settled_stays(crate::json::escaped(s1));
    crate::lines::lemma_settled_stays(crate::json::escaped(s2));
    crate::syntax::escapes_tell_strings_apart(s1, s2);
}

proof fn lemma_alike_is_equal(t1: JsonTree, t2: JsonTree)
    requires
        has_settled_strings(t1),
        has_settled_strings(t2),
    ensures
        crate::canonical::are_alike(t1, t2) <==> t1 == t2,
    decreases t1,
{
    match (t1, t2) {
        (JsonTree::Text(s1), JsonTree::Text(s2)) => {
            lemma_settled_strings_told_apart(s1, s2);
        },
        (JsonTree::List(x), JsonTree::List(y)) => {
            assert forall|i: int| 0 <= i < x.len() && x.len() == y.len() implies (
            crate::canonical::are_alike(#[trigger] x[i], y[i]) <==> x[i] == y[i]) by {
                assert(has_settled_strings(y[i]));
                lemma_alike_is_equal(x[i], y[i]);
            }
            if crate::canonical::are_alike(t1, t2) {
                assert(x =~= y);
            }
            if x == y {
                assert(crate::canonical::are_alike(t1, t2));
            }
        },
        (JsonTree::Object(x), JsonTree::Object(y)) => {
            assert forall|i: int| 0 <= i < x.len() && x.len() == y.len() implies ((
            crate::canonical::scrubbed_string((#[trigger] x[i]).0)
                == crate::canonical::scrubbed_string(y[i].0) && crate::canonical::are_alike(
                x[i].1,
                y[i].1,
            )) <==> x[i] == y[i]) by {
                assert(has_settled_strings(y[i].1));
                assert(decreases_to!(x => x[i]));
                assert(decreases_to!(x[i] => x[i].1));
                lemma_settled_strings_told_apart(x[i].0, y[i].0);
                lemma_alike_is_equal(x[i].1, y[i].1);
            }
            if crate::canonical::are_alike(t1, t2) {
                assert(x =~= y);
            }
            if x == y {
                assert(crate::canonical::are_alike(t1, t2));
            }
        },
        _ => {},
    }
}

/// Requests with nothing in them to leave out or to replace share a key, short of
/// a collision, only if they are the same request.
pub proof fn different_requests_do_not_meet(
    request1: &Json,
    request2: &Json,
    key1: String,
    key2: String,
)
    requires
        call_ensures(CachingAiProvider::compute_cache_key, (request1,), key1),
        call_ensures(CachingAiProvider::compute_cache_key, (request2,), key2),
        has_no_label(request1.tree()),
        has_no_label(request2.tree()),
        names_no_tokens(request1.tree()),
        names_no_tokens(request2.tree()),
        has_settled_strings(request1.tree()),
        has_settled_strings(request2.tree()),
        crate::syntax::has_number_texts(request1.tree()),
        crate::syntax::has_number_texts(request2.tree()),
        !crate::key::collide(request1.tree(), request2.tree()),
    ensures
        key1@ == key2@ <==> request1.tree() == request2.tree(),
{
    all_else_is_in_the_key(request1, request2, key1, key2);
    lemma_alike_is_equal(request1.tree(), request2.tree());
}

/// `t2` is `t1` without the member that `path` leads to, which has one of the two
/// names of opaque tokens. A path gives a place in each list and object from the
/// outside in.
pub open spec fn lacks_token(t1: JsonTree, t2: JsonTree, path: Seq<int>) -> bool
    decreases path.len(),
{
    if path.len() == 0 {
        false
    } else {
        let i = path[0];
        match (t1, t2) {
            (JsonTree::List(x), JsonTree::List(y)) => {
                &&& 0 <= i < x.len() == y.len()
                &&& y == x.update(i, y[i])
                &&& lacks_token(x[i], y[i], path.skip(1))
            },
            (JsonTree::Object(x), JsonTree::Object(y)) => {
                &&& 0 <= i < x.len()
                &&& if path.len() == 1 {
                    &&& x[i].0 == "thought_signature"@ || x[i].0 == "thoughtSignature"@
                    &&& y == x.remove(i)
                } else {
                    &&& x.len() == y.len()
                    &&& y == x.update(i, (x[i].0, y[i].1))
                    &&& lacks_token(x[i].1, y[i].1, path.skip(1))
                }
            },
            _ => false,
        }
    }
}

proof fn lemma_items_at(items: Seq<JsonTree>, i: int)
    requires
        0 <= i < items.len(),
    ensures
        crate::json::items_without_signatures(items) == crate::json::items_without_signatures(
            items.take(i),
        ).push(crate::json::without_signatures(items[i]))
            + crate::json::items_without_signatures(items.skip(i + 1)),
{
    let before = items.take(i);
    let after = items.skip(i + 1);
    assert(items =~= before.push(items[i]) + after);
    crate::json::lemma_items_without_signatures_add(before.push(items[i]), after);
    assert(before.push(items[i]).drop_last() =~= before);
}

proof fn lemma_token_removed(t1: JsonTree, t2: JsonTree, path: Seq<int>)
    requires
        lacks_token(t1, t2, path),
    ensures
        crate::json::without_signatures(t1) == crate::json::without_signatures(t2),
    decreases path.len(),
{
    let i = path[0];
    match (t1, t2) {
        (JsonTree::List(x), JsonTree::List(y)) => {
            lemma_token_removed(x[i], y[i], path.skip(1));
            lemma_items_at(x, i);
            lemma_items_at(y, i);
            assert(x.take(i) =~= y.take(i));
            assert(x.skip(i + 1) =~= y.skip(i + 1));
        },
        (JsonTree::Object(x), JsonTree::Object(y)) => {
            let before = x.take(i);
            let after = x.skip(i + 1);
            assert(x =~= before.push(x[i]) + after);
            crate::json::lemma_members_without_signatures_at(before, x[i], after);
            if path.len() == 1 {
                assert(y =~= before + after);
                crate::json::lemma_members_without_signatures_add(before, after);
            } else {
                lemma_token_removed(x[i].1, y[i].1, path.skip(1));
                assert(y =~= before.push(y[i]) + after);
                crate::json::lemma_members_without_signatures_at(before, y[i], after);
            }
        },
        _ => {},
    }
}

/// A member with one of the two names of opaque tokens has no part in the key,
/// wherever it stands and whatever it holds.
pub proof fn tokens_are_not_in_the_key(
    request1: &Json,
    request2: &Json,
    path: Seq<int>,
    key1: String,
    key2: String,
)
    requires
        call_ensures(CachingAiProvider::compute_cache_key, (request1,), key1),
        call_ensures(CachingAiProvider::compute_cache_key, (request2,), key2),
        lacks_token(request1.tree(), request2.tree(), path),
    ensures
        key1@ == key2@,
{
    lemma_token_removed(request1.tree(), request2.tree(), path);
    crate::json::lemma_content_needs_no_signatures(request1.tree());
    crate::json::lemma_content_needs_no_signatures(request2.tree());
}

/// The label on a request has no part in its key, wherever among its members it
/// stands and whatever it holds.
pub proof fn labels_are_not_in_the_key(
    request1: &Json,
    request2: &Json,
    members: Seq<(Seq<char>, JsonTree)>,
    i: int,
    key1: String,
    key2: String,
)
    requires
        call_ensures(CachingAiProvider::compute_cache_key, (request1,), key1),
        call_ensures(CachingAiProvider::compute_cache_key, (request2,), key2),
        request1.tree() == JsonTree::Object(members),
        0 <= i < members.len(),
        members[i].0 == "context_tag"@,
        request2.tree() == JsonTree::Object(members.remove(i)),
    ensures
        key1@ == key2@,
{
    let before = members.take(i);
    let after = members.skip(i + 1);
    assert(members =~= before.push(("context_tag"@, members[i].1)) + after);
    assert(members.remove(i) =~= before + after);
    crate::key::key_ignores_context_tag(before, members[i].1, members[i].1, after);
}

/// The same request has the same key on every day.
pub proof fn days_are_not_in_the_key(
    request1: &Json,
    request2: &Json,
    path: Seq<int>,
    before: Seq<char>,
    day1: Seq<char>,
    month1: Seq<char>,
    date1: Seq<char>,
    year1: Seq<char>,
    day2: Seq<char>,
    month2: Seq<char>,
    date2: Seq<char>,
    year2: Seq<char>,
    after: Seq<char>,
    key1: String,
    key2: String,
)
    requires
        call_ensures(CachingAiProvider::compute_cache_key, (request1,), key1),
        call_ensures(CachingAiProvider::compute_cache_key, (request2,), key2),
        crate::lines::is_capital_word(day1) && crate::lines::is_capital_word(month1)
            && crate::lines::is_digits(date1, 2) && crate::lines::is_digits(year1, 4),
        crate::lines::is_capital_word(day2) && crate::lines::is_capital_word(month2)
            && crate::lines::is_digits(date2, 2) && crate::lines::is_digits(year2, 4),
        crate::json::differ_in_text(
            request1.tree(),
            request2.tree(),
            path,
            before + ("the current date is "@ + day1 + ", "@ + month1 + " "@ + date1 + ", "@
                + year1) + after,
            before + ("the current date is "@ + day2 + ", "@ + month2 + " "@ + date2 + ", "@
                + year2) + after,
        ),
    ensures
        key1@ == key2@,
{
    crate::lines::lemma_day_is_noise(day1, month1, date1, year1);
    crate::lines::lemma_day_is_noise(day2, month2, date2, year2);
    crate::key::key_ignores_current_date(
        request1.tree(),
        request2.tree(),
        path,
        before,
        "the current date is "@ + day1 + ", "@ + month1 + " "@ + date1 + ", "@ + year1,
        "the current date is "@ + day2 + ", "@ + month2 + " "@ + date2 + ", "@ + year2,
        after,
    );
}

/// The same patch has the same key under any commit hash, unless the text before
/// the commit line ends in another that lacks one digit and would take it from here.
pub proof fn hashes_are_not_in_the_key(
    request1: &Json,
    request2: &Json,
    path: Seq<int>,
    before: Seq<char>,
    hash1: Seq<char>,
    hash2: Seq<char>,
    after: Seq<char>,
    key1: String,
    key2: String,
)
    requires
        call_ensures(CachingAiProvider::compute_cache_key, (request1,), key1),
        call_ensures(CachingAiProvider::compute_cache_key, (request2,), key2),
        crate::lines::is_hash(hash1),
        crate::lines::is_hash(hash2),
        ({
            let text = crate::json::escaped(before);
            !(crate::lines::has_at(text, "commit "@, text.len() - 46) && forall|i: int|
                text.len() - 39 <= i < text.len() ==> '0' <= #[trigger] text[i] <= '9' || 'a'
                    <= text[i] <= 'f')
        }),
        crate::json::differ_in_text(
            request1.tree(),
            request2.tree(),
            path,
            before + ("commit "@ + hash1) + after,
            before + ("commit "@ + hash2) + after,
        ),
    ensures
        key1@ == key2@,
{
    crate::lines::lemma_hash_is_noise(hash1);
    crate::lines::lemma_hash_is_noise(hash2);
    crate::lines::lemma_no_open_commit(crate::json::escaped(before));
    crate::key::key_ignores_commit_hash(
        request1.tree(),
        request2.tree(),
        path,
        before,
        "commit "@ + hash1,
        "commit "@ + hash2,
        after,
    );
}

/// The same patch has the same key under any date, as long as the date holds no
/// control character.
pub proof fn commit_dates_are_not_in_the_key(
    request1: &Json,
    request2: &Json,
    path: Seq<int>,
    before: Seq<char>,
    rest1: Seq<char>,
    rest2: Seq<char>,
    after: Seq<char>,
    key1: String,
    key2: String,
)
    requires
        call_ensures(CachingAiProvider::compute_cache_key, (request1,), key1),
        call_ensures(CachingAiProvider::compute_cache_key, (request2,), key2),
        crate::lines::is_after_date(rest1),
        crate::lines::is_after_date(rest2),
        forall|i: int| 0 <= i < rest1.len() ==> #[trigger] rest1[i] as int >= 0x20,
        forall|i: int| 0 <= i < rest2.len() ==> #[trigger] rest2[i] as int >= 0x20,
        crate::json::differ_in_text(
            request1.tree(),
            request2.tree(),
            path,
            before + ("Date:"@ + rest1) + after,
            before + ("Date:"@ + rest2) + after,
        ),
    ensures
        key1@ == key2@,
{
    crate::lines::lemma_after_date(rest1);
    crate::lines::lemma_after_date(rest2);
    crate::key::key_ignores_date_line(
        request1.tree(),
        request2.tree(),
        path,
        before,
        rest1,
        rest2,
        after,
    );
}

/// How values are written: without white space, item by item.
pub proof fn values_are_written_item_by_item(
    b: bool,
    n: Seq<char>,
    s: Seq<char>,
    items: Seq<JsonTree>,
    members: Seq<(Seq<char>, JsonTree)>,
    name: Seq<char>,
    v: JsonTree,
)
    ensures
        crate::json::json_text(JsonTree::Null) == "null"@,
        crate::json::json_text(JsonTree::Bool(b)) == if b {
            "true"@
        } else {
            "false"@
        },
        crate::json::json_text(JsonTree::Number(n)) == n,
        crate::json::json_text(JsonTree::Text(s)) == "\""@ + crate::json::escaped(s) + "\""@,
        crate::json::json_text(JsonTree::List(Seq::empty())) == "[]"@,
        crate::json::json_text(JsonTree::List(seq![v])) == "["@ + crate::json::json_text(v) + "]"@,
        items.len() > 0 ==> crate::json::json_text(JsonTree::List(items.push(v)))
            == crate::json::json_text(JsonTree::List(items)).drop_last() + ","@
            + crate::json::json_text(v) + "]"@,
        crate::json::json_text(JsonTree::Object(Seq::empty())) == "{}"@,
        crate::json::json_text(JsonTree::Object(seq![(name, v)])) == "{"@
            + crate::json::json_text(JsonTree::Text(name)) + ":"@ + crate::json::json_text(v)
            + "}"@,
        members.len() > 0 ==> crate::json::json_text(JsonTree::Object(members.push((name, v))))
            == crate::json::json_text(JsonTree::Object(members)).drop_last() + ","@
            + crate::json::json_text(JsonTree::Text(name)) + ":"@ + crate::json::json_text(v)
            + "}"@,
{
    reveal_strlit("null");
    reveal_strlit("true");
    reveal_strlit("false");
    reveal_strlit("\"");
    reveal_strlit("[]");
    reveal_strlit("[");
    reveal_strlit("]");
    reveal_strlit("{}");
    reveal_strlit("{");
    reveal_strlit("}");
    reveal_strlit(",");
    reveal_strlit(":");
    let text = crate::json::json_text(v);
    assert(crate::json::json_text(JsonTree::Null) =~= "null"@);
    assert(crate::json::json_text(JsonTree::Bool(true)) =~= "true"@);
    assert(crate::json::json_text(JsonTree::Bool(false)) =~= "false"@);
    assert(crate::json::json_text(JsonTree::Text(s)) =~= "\""@ + crate::json::escaped(s) + "\""@);
    assert(crate::json::json_text(JsonTree::Text(name)) == crate::json::quoted(name));
    assert(crate::json::items_text(Seq::empty()) =~= Seq::empty());
    assert(crate::json::json_text(JsonTree::List(Seq::empty())) =~= "[]"@);
    assert(crate::json::items_text(seq![v]) =~= text);
    assert(crate::json::json_text(JsonTree::List(seq![v])) =~= "["@ + text + "]"@);
    if items.len() > 0 {
        assert(items.push(v).drop_last() =~= items);
        assert(crate::json::json_text(JsonTree::List(items.push(v))) =~= crate::json::json_text(
            JsonTree::List(items),
        ).drop_last() + ","@ + text + "]"@);
    }
    assert(crate::json::members_text(Seq::empty()) =~= Seq::empty());
    assert(crate::json::json_text(JsonTree::Object(Seq::empty())) =~= "{}"@);
    assert(crate::json::members_text(seq![(name, v)]) =~= crate::json::quoted(name) + ":"@ + text);
    assert(crate::json::json_text(JsonTree::Object(seq![(name, v)])) =~= "{"@
        + crate::json::quoted(name) + ":"@ + text + "}"@);
    if members.len() > 0 {
        assert(members.push((name, v)).drop_last() =~= members);
        assert(crate::json::json_text(JsonTree::Object(members.push((name, v))))
            =~= crate::json::json_text(JsonTree::Object(members)).drop_last() + ","@
            + crate::json::quoted(name) + ":"@ + text + "}"@);
    }
}

/// A request is hashed by its canonical text: two digits of the key are a byte of
/// the SHA-256 digest of that text.
pub proof fn keys_are_digests_of_canonical_texts(request: &Json, text: String, key: String)
    requires
        call_ensures(canonical_request, (request,), text),
        call_ensures(CachingAiProvider::compute_cache_key, (request,), key),
    ensures
        key@.len() == 64,
        crate::key::sha256_digest(vstd::utf8::encode_utf8(text@)).len() == 32,
        forall|i: int|
            0 <= i < 32 ==> #[trigger] crate::key::sha256_digest(
                vstd::utf8::encode_utf8(text@),
            )[i] == 16 * crate::key::hex_value(key@[2 * i]) + crate::key::hex_value(
                key@[2 * i + 1],
            ),
{
    crate::key::lemma_hex_text_reads_back(
        crate::key::sha256_digest(vstd::utf8::encode_utf8(text@)),
    );
}

/// The canonical text of a request is the text of what it asks, scrubbed.
pub proof fn canonical_texts_are_scrubbed_texts(
    request: &Json,
    content: &Json,
    written: String,
    s: &str,
    scrubbed: String,
    text: String,
)
    requires
        call_ensures(semantic_request, (request,), *content),
        call_ensures(json_to_string, (content,), written),
        s@ == written@,
        call_ensures(scrub_nondeterministic_content, (s,), scrubbed),
        call_ensures(canonical_request, (request,), text),
    ensures
        text@ == scrubbed@,
{
}

} // verus!
