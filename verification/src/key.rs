//! The key that a request is cached under.
//!
//! Two requests share a key when they ask the same thing: the system prompt, the
//! messages, the tool declarations and the settings count, while the label for
//! the log, the opaque tokens of a provider and, inside of strings, the date of
//! the day and the hashes and dates of commits do not. Nothing else shares a key,
//! short of a collision of SHA-256.

use vstd::prelude::*;
use crate::json::{json_to_string, semantic_request, Json, JsonTree};
use crate::provider::CachingAiProvider;
use crate::noise::{scrub_nondeterministic_content, Noise};

verus! {

/// The SHA-256 digest of `data`.
pub uninterp spec fn sha256_digest(data: Seq<u8>) -> Seq<u8>;

/// `Sha256::digest`: the digest of the given bytes, 32 bytes long.
#[verifier::external_body]
fn sha256(data: &[u8]) -> (digest: Vec<u8>)
    ensures
        digest@ == sha256_digest(data@),
        digest@.len() == 32,
{
    <sha2::Sha256 as sha2::Digest>::digest(data).to_vec()
}

/// Two lower-case hexadecimal digits for each byte.
pub open spec fn hex_text(bytes: Seq<u8>) -> Seq<char>
    decreases bytes.len(),
{
    if bytes.len() == 0 {
        Seq::empty()
    } else {
        hex_text(bytes.drop_last()) + seq![
            crate::json::hex_char(bytes.last() as int / 16),
            crate::json::hex_char(bytes.last() as int % 16),
        ]
    }
}

/// The text that a request is hashed by.
pub open spec fn canonical_text(request: JsonTree) -> Seq<char> {
    crate::noise::scrubbed(crate::json::json_text(crate::json::semantic_content(request)))
}

/// The key of a request.
pub open spec fn cache_key(request: JsonTree) -> Seq<char> {
    hex_text(sha256_digest(vstd::utf8::encode_utf8(canonical_text(request))))
}

fn hex_digit(d: u8) -> (c: char)
    requires
        d < 16,
    ensures
        c == crate::json::hex_char(d as int),
{
    match d {
        0 => '0',
        1 => '1',
        2 => '2',
        3 => '3',
        4 => '4',
        5 => '5',
        6 => '6',
        7 => '7',
        8 => '8',
        9 => '9',
        10 => 'a',
        11 => 'b',
        12 => 'c',
        13 => 'd',
        14 => 'e',
        _ => 'f',
    }
}

/// Writes bytes in lower-case hexadecimal.
pub fn hex_string(bytes: &[u8]) -> (s: String)
    ensures
        s@ == hex_text(bytes@),
        s@.len() == 2 * bytes@.len(),
        forall|i: int| 0 <= i < bytes@.len() ==> #[trigger] bytes@[i] == 16 * hex_value(s@[2 * i])
            + hex_value(s@[2 * i + 1]),
        forall|i: int|
            0 <= i < s@.len() ==> '0' <= #[trigger] s@[i] <= '9' || 'a' <= s@[i] <= 'f',
{
    let mut s = String::new();
    let mut i: usize = 0;
    while i < bytes.len()
        invariant
            i <= bytes@.len(),
            s@ =~= hex_text(bytes@.take(i as int)),
        decreases bytes@.len() - i,
    {
        assert(bytes@.take(i + 1).drop_last() =~= bytes@.take(i as int));
        let b: u8 = bytes[i];
        s.push(hex_digit(b / 16));
        s.push(hex_digit(b % 16));
        i = i + 1;
    }
    assert(bytes@.take(i as int) =~= bytes@);
    proof {
        lemma_hex_text_reads_back(bytes@);
    }
    s
}

/// The number that a lower-case hexadecimal digit stands for.
pub open spec fn hex_value(c: char) -> int {
    if '0' <= c <= '9' {
        c as int - '0' as int
    } else {
        c as int - 'a' as int + 10
    }
}

/// Two digits give their byte back.
pub proof fn lemma_hex_text_reads_back(bytes: Seq<u8>)
    ensures
        hex_text(bytes).len() == 2 * bytes.len(),
        forall|i: int| 0 <= i < bytes.len() ==> #[trigger] bytes[i] == 16 * hex_value(
            hex_text(bytes)[2 * i],
        ) + hex_value(hex_text(bytes)[2 * i + 1]),
        forall|i: int|
            0 <= i < hex_text(bytes).len() ==> '0' <= #[trigger] hex_text(bytes)[i] <= '9' || 'a'
                <= hex_text(bytes)[i] <= 'f',
    decreases bytes.len(),
{
    if bytes.len() > 0 {
        let front = bytes.drop_last();
        lemma_hex_text_reads_back(front);
        let text = hex_text(bytes);
        let start = hex_text(front);
        assert forall|i: int| 0 <= i < bytes.len() implies #[trigger] bytes[i] == 16 * hex_value(
            text[2 * i],
        ) + hex_value(text[2 * i + 1]) by {
            if i < front.len() {
                assert(front[i] == bytes[i]);
                assert(text[2 * i] == start[2 * i] && text[2 * i + 1] == start[2 * i + 1]);
            }
        }
        assert forall|i: int| 0 <= i < text.len() implies '0' <= #[trigger] text[i] <= '9' || 'a'
            <= text[i] <= 'f' by {
            if i < start.len() {
                assert(text[i] == start[i]);
            }
        }
    }
}

/// The canonical text of a request.
pub fn canonical_request(request: &Json) -> (s: String)
    ensures
        s@ == canonical_text(request.tree()),
{
    let semantic = semantic_request(request);
    let text = json_to_string(&semantic);
    scrub_nondeterministic_content(text.as_str())
}

impl CachingAiProvider {
    /// Computes the key that a request is cached under.
    pub fn compute_cache_key(request: &Json) -> (key: String)
        ensures
            key@ == cache_key(request.tree()),
            key@.len() == 64,
            forall|i: int|
                0 <= i < 64 ==> '0' <= #[trigger] key@[i] <= '9' || 'a' <= key@[i] <= 'f',
    {
        let canonical = canonical_request(request);
        let digest = sha256(canonical.as_str().as_bytes());
        proof {
            lemma_hex_text_len(digest@);
        }
        hex_string(digest.as_slice())
    }
}

proof fn lemma_hex_text_len(bytes: Seq<u8>)
    ensures
        hex_text(bytes).len() == 2 * bytes.len(),
    decreases bytes.len(),
{
    if bytes.len() > 0 {
        lemma_hex_text_len(bytes.drop_last());
    }
}

/// Two keys are equal only where the digests are: nothing is lost in writing them
/// down.
pub proof fn keys_tell_digests_apart(digest1: Seq<u8>, digest2: Seq<u8>)
    ensures
        hex_text(digest1) == hex_text(digest2) <==> digest1 == digest2,
    decreases digest1.len(),
{
    if hex_text(digest1) == hex_text(digest2) {
        lemma_hex_text_len(digest1);
        lemma_hex_text_len(digest2);
        if digest1.len() > 0 {
            let n = 2 * digest1.len();
            let t1 = hex_text(digest1);
            let t2 = hex_text(digest2);
            lemma_hex_text_len(digest1.drop_last());
            lemma_hex_text_len(digest2.drop_last());
            assert(t1.take(n - 2) =~= hex_text(digest1.drop_last()));
            assert(t2.take(n - 2) =~= hex_text(digest2.drop_last()));
            keys_tell_digests_apart(digest1.drop_last(), digest2.drop_last());
            assert(t1[n - 2] == t2[n - 2] && t1[n - 1] == t2[n - 1]);
            lemma_hex_char(digest1.last() as int / 16, digest2.last() as int / 16);
            lemma_hex_char(digest1.last() as int % 16, digest2.last() as int % 16);
            assert(digest1 =~= digest1.drop_last().push(digest1.last()));
            assert(digest2 =~= digest2.drop_last().push(digest2.last()));
        } else {
            assert(digest1 =~= digest2);
        }
    }
}

proof fn lemma_hex_char(d: int, e: int)
    requires
        0 <= d < 16,
        0 <= e < 16,
        crate::json::hex_char(d) == crate::json::hex_char(e),
    ensures
        d == e,
{
}

/// The bytes that a request is hashed by.
pub open spec fn hashed_bytes(request: JsonTree) -> Seq<u8> {
    vstd::utf8::encode_utf8(canonical_text(request))
}

/// Two requests are hashed by different bytes that have the same digest.
pub open spec fn collide(request1: JsonTree, request2: JsonTree) -> bool {
    hashed_bytes(request1) != hashed_bytes(request2) && sha256_digest(hashed_bytes(request1))
        == sha256_digest(hashed_bytes(request2))
}

/// Unless their digests collide, two requests share a key only if they share
/// their canonical text.
pub proof fn keys_follow_the_canonical_text(request1: JsonTree, request2: JsonTree)
    requires
        !collide(request1, request2),
    ensures
        cache_key(request1) == cache_key(request2) <==> canonical_text(request1) == canonical_text(
            request2,
        ),
{
    keys_tell_digests_apart(
        sha256_digest(hashed_bytes(request1)),
        sha256_digest(hashed_bytes(request2)),
    );
    vstd::utf8::encode_utf8_decode_utf8(canonical_text(request1));
    vstd::utf8::encode_utf8_decode_utf8(canonical_text(request2));
}

/// Unless their digests collide, two requests share a key if and only if what they
/// ask is alike: the same structure, numbers, booleans and nulls, and the same text
/// in every string and name once the noise in it is replaced.
pub proof fn different_requests_have_different_keys(request1: JsonTree, request2: JsonTree)
    requires
        crate::syntax::has_number_texts(request1),
        crate::syntax::has_number_texts(request2),
        !collide(request1, request2),
    ensures
        cache_key(request1) == cache_key(request2) <==> crate::canonical::are_alike(
            crate::json::semantic_content(request1),
            crate::json::semantic_content(request2),
        ),
{
    keys_follow_the_canonical_text(request1, request2);
    crate::canonical::canonical_texts_tell_requests_apart(request1, request2);
}

/// The label that a request is logged under has no part in its key, whatever it
/// is and whether there is one or not.
pub proof fn key_ignores_context_tag(
    before: Seq<(Seq<char>, JsonTree)>,
    tag1: JsonTree,
    tag2: JsonTree,
    after: Seq<(Seq<char>, JsonTree)>,
)
    ensures
        cache_key(JsonTree::Object(before.push(("context_tag"@, tag1)) + after)) == cache_key(
            JsonTree::Object(before.push(("context_tag"@, tag2)) + after),
        ),
        cache_key(JsonTree::Object(before.push(("context_tag"@, tag1)) + after)) == cache_key(
            JsonTree::Object(before + after),
        ),
{
    let name = "context_tag"@;
    crate::json::lemma_without_member_at(before, (name, tag1), after, name);
    crate::json::lemma_without_member_at(before, (name, tag2), after, name);
    Seq::filter_distributes_over_add(
        before,
        after,
        |m: (Seq<char>, JsonTree)| m.0 != name,
    );
}

/// The opaque tokens of a provider have no part in the key, at any depth: a request
/// has the key that it has without any of them.
pub proof fn key_needs_no_signatures(request: JsonTree)
    ensures
        cache_key(request) == cache_key(crate::json::without_signatures(request)),
{
    crate::json::lemma_content_needs_no_signatures(request);
}

/// Nor does it matter, at any depth, what the opaque tokens are.
pub proof fn key_ignores_signatures(request1: JsonTree, request2: JsonTree)
    requires
        crate::json::differ_in_signatures(request1, request2),
    ensures
        cache_key(request1) == cache_key(request2),
{
    crate::json::lemma_content_ignores_signatures(request1, request2);
}

/// If exchanging one string for another never shows after scrubbing, it has no
/// part in the key.
proof fn lemma_key_ignores_text(
    request1: JsonTree,
    request2: JsonTree,
    path: Seq<int>,
    s1: Seq<char>,
    s2: Seq<char>,
)
    requires
        crate::json::differ_in_text(request1, request2, path, s1, s2),
        forall|pre: Seq<char>, post: Seq<char>|
            crate::noise::scrubbed(#[trigger] (pre + crate::json::quoted(s1) + post))
                == crate::noise::scrubbed(pre + crate::json::quoted(s2) + post),
    ensures
        cache_key(request1) == cache_key(request2),
{
    let path2 = crate::json::lemma_content_differs(request1, request2, path, s1, s2);
    let c1 = crate::json::semantic_content(request1);
    let c2 = crate::json::semantic_content(request2);
    if c1 != c2 {
        let (pre, post) = crate::json::lemma_text_around(c1, c2, path2, s1, s2);
        assert(crate::noise::scrubbed(pre + crate::json::quoted(s1) + post)
            == crate::noise::scrubbed(pre + crate::json::quoted(s2) + post));
    }
}

/// A string with plain text in the middle is written with that text in the
/// middle.
proof fn lemma_quoted_around(
    pre: Seq<char>,
    before: Seq<char>,
    plain: Seq<char>,
    after: Seq<char>,
    post: Seq<char>,
)
    requires
        crate::json::is_plain(plain),
    ensures
        pre + crate::json::quoted(before + plain + after) + post == (pre + seq!['"']
            + crate::json::escaped(before)) + plain + (crate::json::escaped(after) + seq!['"']
            + post),
{
    crate::json::lemma_escaped_add(before + plain, after);
    crate::json::lemma_escaped_add(before, plain);
    crate::json::lemma_escaped_plain(plain);
    assert(pre + crate::json::quoted(before + plain + after) + post =~= (pre + seq!['"']
        + crate::json::escaped(before)) + plain + (crate::json::escaped(after) + seq!['"'] + post));
}

proof fn lemma_noise_is_plain(kind: Noise, word: Seq<char>)
    requires
        kind != Noise::DateLine,
        crate::noise::is_noise(kind, word),
    ensures
        crate::json::is_plain(word),
{
    crate::noise::lemma_noise_characters(kind, word);
}

/// The date of the day has no part in the key, wherever in the request it
/// stands: the same request has the same key on every day.
pub proof fn key_ignores_current_date(
    request1: JsonTree,
    request2: JsonTree,
    path: Seq<int>,
    before: Seq<char>,
    date1: Seq<char>,
    date2: Seq<char>,
    after: Seq<char>,
)
    requires
        crate::noise::is_noise(Noise::CurrentDate, date1),
        crate::noise::is_noise(Noise::CurrentDate, date2),
        crate::json::differ_in_text(
            request1,
            request2,
            path,
            before + date1 + after,
            before + date2 + after,
        ),
    ensures
        cache_key(request1) == cache_key(request2),
{
    lemma_noise_is_plain(Noise::CurrentDate, date1);
    lemma_noise_is_plain(Noise::CurrentDate, date2);
    let s1 = before + date1 + after;
    let s2 = before + date2 + after;
    assert forall|pre: Seq<char>, post: Seq<char>|
        crate::noise::scrubbed(#[trigger] (pre + crate::json::quoted(s1) + post))
            == crate::noise::scrubbed(pre + crate::json::quoted(s2) + post) by {
        lemma_quoted_around(pre, before, date1, after, post);
        lemma_quoted_around(pre, before, date2, after, post);
        crate::noise::current_date_is_ignored(
            pre + seq!['"'] + crate::json::escaped(before),
            date1,
            date2,
            crate::json::escaped(after) + seq!['"'] + post,
        );
    }
    lemma_key_ignores_text(request1, request2, path, s1, s2);
}

/// A commit hash has no part in the key, wherever in the request it stands,
/// unless the text before it ends like a commit line that lacks one digit.
pub proof fn key_ignores_commit_hash(
    request1: JsonTree,
    request2: JsonTree,
    path: Seq<int>,
    before: Seq<char>,
    commit1: Seq<char>,
    commit2: Seq<char>,
    after: Seq<char>,
)
    requires
        crate::noise::is_noise(Noise::CommitHash, commit1),
        crate::noise::is_noise(Noise::CommitHash, commit2),
        !crate::noise::ends_in_open_commit(crate::json::escaped(before)),
        crate::json::differ_in_text(
            request1,
            request2,
            path,
            before + commit1 + after,
            before + commit2 + after,
        ),
    ensures
        cache_key(request1) == cache_key(request2),
{
    lemma_noise_is_plain(Noise::CommitHash, commit1);
    lemma_noise_is_plain(Noise::CommitHash, commit2);
    let s1 = before + commit1 + after;
    let s2 = before + commit2 + after;
    assert forall|pre: Seq<char>, post: Seq<char>|
        crate::noise::scrubbed(#[trigger] (pre + crate::json::quoted(s1) + post))
            == crate::noise::scrubbed(pre + crate::json::quoted(s2) + post) by {
        lemma_quoted_around(pre, before, commit1, after, post);
        lemma_quoted_around(pre, before, commit2, after, post);
        lemma_no_open_commit(pre, crate::json::escaped(before));
        crate::noise::commit_hash_is_ignored(
            pre + seq!['"'] + crate::json::escaped(before),
            commit1,
            commit2,
            crate::json::escaped(after) + seq!['"'] + post,
        );
    }
    lemma_key_ignores_text(request1, request2, path, s1, s2);
}

/// A commit line does not reach across a quote.
proof fn lemma_no_open_commit(pre: Seq<char>, text: Seq<char>)
    requires
        !crate::noise::ends_in_open_commit(text),
    ensures
        !crate::noise::ends_in_open_commit(pre + seq!['"'] + text),
{
    let all = pre + seq!['"'] + text;
    if crate::noise::ends_in_open_commit(all) {
        reveal_strlit("commit ");
        let end = all.skip(all.len() - 46);
        if text.len() < 46 {
            let k = 45 - text.len();
            assert(end[k] == '"');
            if k < 7 {
                assert(end.take(7)[k] == end[k]);
                assert(k == 0 || k == 1 || k == 2 || k == 3 || k == 4 || k == 5 || k == 6);
            } else {
                assert(crate::noise::is_hash_digit(all[all.len() - 46 + k]));
            }
        } else {
            assert(text.skip(text.len() - 46) =~= end);
            assert forall|i: int|
                text.len() - 39 <= i < text.len() implies crate::noise::is_hash_digit(
                #[trigger] text[i],
            ) by {
                assert(text[i] == all[pre.len() + 1 + i]);
            }
        }
    }
}

/// The date of a commit has no part in the key, wherever in the request it
/// stands, as long as it holds nothing that is escaped inside a JSON string.
pub proof fn key_ignores_date_line(
    request1: JsonTree,
    request2: JsonTree,
    path: Seq<int>,
    before: Seq<char>,
    rest1: Seq<char>,
    rest2: Seq<char>,
    after: Seq<char>,
)
    requires
        crate::noise::is_dated(rest1),
        crate::noise::is_dated(rest2),
        crate::json::is_plain(rest1),
        crate::json::is_plain(rest2),
        crate::json::differ_in_text(
            request1,
            request2,
            path,
            before + ("Date:"@ + rest1) + after,
            before + ("Date:"@ + rest2) + after,
        ),
    ensures
        cache_key(request1) == cache_key(request2),
{
    reveal_strlit("Date:");
    let line1 = "Date:"@ + rest1;
    let line2 = "Date:"@ + rest2;
    let s1 = before + line1 + after;
    let s2 = before + line2 + after;
    lemma_date_line_is_plain(rest1);
    lemma_date_line_is_plain(rest2);
    assert forall|pre: Seq<char>, post: Seq<char>|
        crate::noise::scrubbed(#[trigger] (pre + crate::json::quoted(s1) + post))
            == crate::noise::scrubbed(pre + crate::json::quoted(s2) + post) by {
        lemma_quoted_around(pre, before, line1, after, post);
        lemma_quoted_around(pre, before, line2, after, post);
        let front = pre + seq!['"'] + crate::json::escaped(before);
        let end = crate::json::escaped(after) + seq!['"'] + post;
        crate::noise::date_line_is_ignored(front, rest1, rest2, end);
        assert(front + line1 + end =~= front + "Date:"@ + rest1 + end);
        assert(front + line2 + end =~= front + "Date:"@ + rest2 + end);
    }
    lemma_key_ignores_text(request1, request2, path, s1, s2);
}

proof fn lemma_date_line_is_plain(rest: Seq<char>)
    requires
        crate::json::is_plain(rest),
    ensures
        crate::json::is_plain("Date:"@ + rest),
{
    reveal_strlit("Date:");
    let line = "Date:"@ + rest;
    assert forall|i: int| 0 <= i < line.len() implies crate::json::escape_char(#[trigger] line[i])
        == seq![line[i]] by {
        if i < 5 {
            assert(i == 0 || i == 1 || i == 2 || i == 3 || i == 4);
        } else {
            assert(line[i] == rest[i - 5]);
        }
    }
}

} // verus!
