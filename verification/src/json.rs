//! Requests as JSON trees, and the text that a tree is hashed by.

use vstd::prelude::*;
use vstd::string::StringExecFns;

verus! {

/// A JSON value. Numbers are kept as they are written, the members of an object
/// in the order in which they are written.
#[derive(Debug)]
pub enum Json {
    Null,
    Bool(bool),
    Number(String),
    Text(String),
    List(Vec<Json>),
    Object(Vec<(String, Json)>),
}

/// What a JSON value holds.
#[verifier::ext_equal]
pub enum JsonTree {
    Null,
    Bool(bool),
    Number(Seq<char>),
    Text(Seq<char>),
    List(Seq<JsonTree>),
    Object(Seq<(Seq<char>, JsonTree)>),
}

impl Json {
    /// The tree that this value stands for.
    pub open spec fn tree(self) -> JsonTree
        decreases self,
    {
        match self {
            Json::Null => JsonTree::Null,
            Json::Bool(b) => JsonTree::Bool(b),
            Json::Number(n) => JsonTree::Number(n@),
            Json::Text(s) => JsonTree::Text(s@),
            Json::List(items) => JsonTree::List(
                Seq::new(
                    items@.len(),
                    |i: int|
                        if 0 <= i < items@.len() {
                            items@[i].tree()
                        } else {
                            JsonTree::Null
                        },
                ),
            ),
            Json::Object(members) => JsonTree::Object(
                Seq::new(
                    members@.len(),
                    |i: int|
                        if 0 <= i < members@.len() {
                            (members@[i].0@, members@[i].1.tree())
                        } else {
                            (Seq::empty(), JsonTree::Null)
                        },
                ),
            ),
        }
    }
}

/// The lower-case hexadecimal digit for a number below 16.
pub open spec fn hex_char(d: int) -> char {
    if d == 0 { '0' } else if d == 1 { '1' } else if d == 2 { '2' } else if d == 3 { '3' }
    else if d == 4 { '4' } else if d == 5 { '5' } else if d == 6 { '6' } else if d == 7 { '7' }
    else if d == 8 { '8' } else if d == 9 { '9' } else if d == 10 { 'a' } else if d == 11 { 'b' }
    else if d == 12 { 'c' } else if d == 13 { 'd' } else if d == 14 { 'e' } else { 'f' }
}

/// One character inside a JSON string.
pub open spec fn escape_char(c: char) -> Seq<char> {
    if c == '"' {
        seq!['\\', '"']
    } else if c == '\\' {
        seq!['\\', '\\']
    } else if c as int == 0x8 {
        seq!['\\', 'b']
    } else if c as int == 0x9 {
        seq!['\\', 't']
    } else if c as int == 0xA {
        seq!['\\', 'n']
    } else if c as int == 0xC {
        seq!['\\', 'f']
    } else if c as int == 0xD {
        seq!['\\', 'r']
    } else if (c as int) < 0x20 {
        seq!['\\', 'u', '0', '0', hex_char(c as int / 16), hex_char(c as int % 16)]
    } else {
        seq![c]
    }
}

/// The inside of a JSON string.
pub open spec fn escaped(s: Seq<char>) -> Seq<char>
    decreases s.len(),
{
    if s.len() == 0 {
        s
    } else {
        escaped(s.drop_last()) + escape_char(s.last())
    }
}

/// A JSON string.
pub open spec fn quoted(s: Seq<char>) -> Seq<char> {
    seq!['"'] + escaped(s) + seq!['"']
}

/// A JSON value, written without white space.
pub open spec fn json_text(t: JsonTree) -> Seq<char>
    decreases t,
{
    match t {
        JsonTree::Null => seq!['n', 'u', 'l', 'l'],
        JsonTree::Bool(b) => if b {
            seq!['t', 'r', 'u', 'e']
        } else {
            seq!['f', 'a', 'l', 's', 'e']
        },
        JsonTree::Number(n) => n,
        JsonTree::Text(s) => quoted(s),
        JsonTree::List(items) => seq!['['] + items_text(items) + seq![']'],
        JsonTree::Object(members) => seq!['{'] + members_text(members) + seq!['}'],
    }
}

/// The values of a list, with commas between them.
pub open spec fn items_text(items: Seq<JsonTree>) -> Seq<char>
    decreases items,
{
    if items.len() == 0 {
        Seq::empty()
    } else if items.len() == 1 {
        json_text(items.last())
    } else {
        items_text(items.drop_last()) + seq![','] + json_text(items.last())
    }
}

/// The members of an object, with commas between them.
pub open spec fn members_text(members: Seq<(Seq<char>, JsonTree)>) -> Seq<char>
    decreases members,
{
    if members.len() == 0 {
        Seq::empty()
    } else {
        let member = quoted(members.last().0) + seq![':'] + json_text(members.last().1);
        if members.len() == 1 {
            member
        } else {
            members_text(members.drop_last()) + seq![','] + member
        }
    }
}

/// The member names under which providers hand back opaque tokens.
pub open spec fn is_signature(name: Seq<char>) -> bool {
    name == "thought_signature"@ || name == "thoughtSignature"@
}

/// `t` without the opaque tokens of its objects, at any depth.
pub open spec fn without_signatures(t: JsonTree) -> JsonTree
    decreases t,
{
    match t {
        JsonTree::List(items) => JsonTree::List(items_without_signatures(items)),
        JsonTree::Object(members) => JsonTree::Object(members_without_signatures(members)),
        _ => t,
    }
}

/// Every value of a list without opaque tokens.
pub open spec fn items_without_signatures(items: Seq<JsonTree>) -> Seq<JsonTree>
    decreases items,
{
    if items.len() == 0 {
        items
    } else {
        items_without_signatures(items.drop_last()).push(without_signatures(items.last()))
    }
}

/// The members of an object that are no opaque tokens, each without any in it.
pub open spec fn members_without_signatures(members: Seq<(Seq<char>, JsonTree)>) -> Seq<
    (Seq<char>, JsonTree),
>
    decreases members,
{
    if members.len() == 0 {
        members
    } else {
        let kept = members_without_signatures(members.drop_last());
        if is_signature(members.last().0) {
            kept
        } else {
            kept.push((members.last().0, without_signatures(members.last().1)))
        }
    }
}

/// `members` without those of the given name.
pub open spec fn without_member(members: Seq<(Seq<char>, JsonTree)>, name: Seq<char>) -> Seq<
    (Seq<char>, JsonTree),
> {
    members.filter(|m: (Seq<char>, JsonTree)| m.0 != name)
}

/// What a request asks, apart from the label that it is logged under and the
/// opaque tokens in it.
pub open spec fn semantic_content(t: JsonTree) -> JsonTree {
    without_signatures(
        match t {
            JsonTree::Object(members) => JsonTree::Object(
                without_member(members, "context_tag"@),
            ),
            _ => t,
        },
    )
}

/// `serde_json::to_string` of a string: in double quotes, with the quote, the
/// backslash and the control characters escaped. It cannot fail, since the text
/// is written to memory.
#[verifier::external_body]
fn json_string(s: &str) -> (r: String)
    ensures
        r@ == quoted(s@),
{
    serde_json::to_string(s).unwrap()
}

fn is_signature_name(name: &String) -> (r: bool)
    ensures
        r == is_signature(name@),
{
    *name == "thought_signature".to_owned() || *name == "thoughtSignature".to_owned()
}

/// Removes the opaque tokens of a value, at any depth.
pub fn scrub_thought_signatures(value: &Json) -> (r: Json)
    ensures
        r.tree() == without_signatures(value.tree()),
    decreases value,
{
    match value {
        Json::Null => Json::Null,
        Json::Bool(b) => Json::Bool(*b),
        Json::Number(n) => Json::Number(n.clone()),
        Json::Text(s) => Json::Text(s.clone()),
        Json::List(items) => {
            let ghost all = value.tree()->List_0;
            let mut kept: Vec<Json> = Vec::new();
            let mut i: usize = 0;
            while i < items.len()
                invariant
                    i <= items@.len(),
                    items@.len() == all.len(),
                    forall|j: int| 0 <= j < all.len() ==> #[trigger] all[j] == items@[j].tree(),
                    *value == Json::List(*items),
                    kept@.len() == items_without_signatures(all.take(i as int)).len(),
                    forall|j: int|
                        0 <= j < kept@.len() ==> (#[trigger] kept@[j]).tree()
                            == items_without_signatures(all.take(i as int))[j],
                decreases items@.len() - i,
            {
                assert(all.take(i + 1).drop_last() =~= all.take(i as int));
                assert(all.take(i + 1).last() == all[i as int]);
                assert(decreases_to!(*value => value->List_0));
                assert(decreases_to!(*items => items@));
                assert(decreases_to!(items@ => items@[i as int]));
                kept.push(scrub_thought_signatures(&items[i]));
                i = i + 1;
            }
            assert(all.take(i as int) =~= all);
            let r = Json::List(kept);
            assert(r.tree()->List_0 =~= items_without_signatures(all));
            r
        },
        Json::Object(members) => {
            let ghost all = value.tree()->Object_0;
            let mut kept: Vec<(String, Json)> = Vec::new();
            let mut i: usize = 0;
            while i < members.len()
                invariant
                    i <= members@.len(),
                    members@.len() == all.len(),
                    forall|j: int|
                        0 <= j < all.len() ==> #[trigger] all[j] == (
                            members@[j].0@,
                            members@[j].1.tree(),
                        ),
                    *value == Json::Object(*members),
                    kept@.len() == members_without_signatures(all.take(i as int)).len(),
                    forall|j: int|
                        0 <= j < kept@.len() ==> (#[trigger] kept@[j].0@, kept@[j].1.tree())
                            == members_without_signatures(all.take(i as int))[j],
                decreases members@.len() - i,
            {
                assert(all.take(i + 1).drop_last() =~= all.take(i as int));
                assert(all.take(i + 1).last() == all[i as int]);
                if !is_signature_name(&members[i].0) {
                    assert(decreases_to!(*value => value->Object_0));
                    assert(decreases_to!(*members => members@));
                    assert(decreases_to!(members@ => members@[i as int]));
                    assert(decreases_to!(members@[i as int] => members@[i as int].1));
                    let kept_value = scrub_thought_signatures(&members[i].1);
                    kept.push((members[i].0.clone(), kept_value));
                }
                i = i + 1;
            }
            assert(all.take(i as int) =~= all);
            let r = Json::Object(kept);
            assert(r.tree()->Object_0 =~= members_without_signatures(all));
            r
        },
    }
}

/// The part of a request that its cache key depends on.
pub fn semantic_request(request: &Json) -> (r: Json)
    ensures
        r.tree() == semantic_content(request.tree()),
{
    match request {
        Json::Object(members) => {
            let ghost all = request.tree()->Object_0;
            let ghost keeps = |m: (Seq<char>, JsonTree)| m.0 != "context_tag"@;
            let mut kept: Vec<(String, Json)> = Vec::new();
            let mut i: usize = 0;
            assert(all.take(0).filter(keeps) =~= Seq::empty()) by {
                reveal(Seq::filter);
            }
            while i < members.len()
                invariant
                    i <= members@.len(),
                    members@.len() == all.len(),
                    forall|j: int|
                        0 <= j < all.len() ==> #[trigger] all[j] == (
                            members@[j].0@,
                            members@[j].1.tree(),
                        ),
                    keeps == (|m: (Seq<char>, JsonTree)| m.0 != "context_tag"@),
                    kept@.len() == members_without_signatures(
                        all.take(i as int).filter(keeps),
                    ).len(),
                    forall|j: int|
                        0 <= j < kept@.len() ==> (#[trigger] kept@[j].0@, kept@[j].1.tree())
                            == members_without_signatures(all.take(i as int).filter(keeps))[j],
                decreases members@.len() - i,
            {
                proof {
                    let before = all.take(i as int).filter(keeps);
                    let member = all[i as int];
                    assert(all.take(i + 1).drop_last() =~= all.take(i as int));
                    assert(all.take(i + 1).last() == member);
                    reveal(Seq::filter);
                    assert(before.push(member).drop_last() =~= before);
                    assert(before.push(member).last() == member);
                }
                let name = &members[i].0;
                if *name != "context_tag".to_owned() && !is_signature_name(name) {
                    let kept_value = scrub_thought_signatures(&members[i].1);
                    kept.push((name.clone(), kept_value));
                }
                i = i + 1;
            }
            assert(all.take(i as int) =~= all);
            let r = Json::Object(kept);
            assert(r.tree()->Object_0 =~= members_without_signatures(all.filter(keeps)));
            r
        },
        _ => scrub_thought_signatures(request),
    }
}

fn write_json(value: &Json, out: &mut String)
    ensures
        final(out)@ == old(out)@ + json_text(value.tree()),
    decreases value,
{
    let ghost start = out@;
    match value {
        Json::Null => {
            proof {
                reveal_strlit("null");
            }
            out.append("null");
            assert(out@ =~= start + json_text(value.tree()));
        },
        Json::Bool(b) => {
            proof {
                reveal_strlit("true");
                reveal_strlit("false");
            }
            if *b {
                out.append("true");
            } else {
                out.append("false");
            }
            assert(out@ =~= start + json_text(value.tree()));
        },
        Json::Number(n) => {
            out.append(n.as_str());
        },
        Json::Text(s) => {
            out.append(json_string(s.as_str()).as_str());
        },
        Json::List(items) => {
            let ghost all = value.tree()->List_0;
            out.push('[');
            let mut i: usize = 0;
            while i < items.len()
                invariant
                    i <= items@.len(),
                    items@.len() == all.len(),
                    forall|j: int| 0 <= j < all.len() ==> #[trigger] all[j] == items@[j].tree(),
                    *value == Json::List(*items),
                    out@ =~= start + seq!['['] + items_text(all.take(i as int)),
                decreases items@.len() - i,
            {
                assert(all.take(i + 1).drop_last() =~= all.take(i as int));
                assert(all.take(i + 1).last() == all[i as int]);
                assert(decreases_to!(*value => value->List_0));
                assert(decreases_to!(*items => items@));
                assert(decreases_to!(items@ => items@[i as int]));
                if i > 0 {
                    out.push(',');
                }
                write_json(&items[i], out);
                i = i + 1;
            }
            out.push(']');
            assert(all.take(i as int) =~= all);
            assert(out@ =~= start + json_text(value.tree()));
        },
        Json::Object(members) => {
            let ghost all = value.tree()->Object_0;
            out.push('{');
            let mut i: usize = 0;
            while i < members.len()
                invariant
                    i <= members@.len(),
                    members@.len() == all.len(),
                    forall|j: int|
                        0 <= j < all.len() ==> #[trigger] all[j] == (
                            members@[j].0@,
                            members@[j].1.tree(),
                        ),
                    *value == Json::Object(*members),
                    out@ =~= start + seq!['{'] + members_text(all.take(i as int)),
                decreases members@.len() - i,
            {
                assert(all.take(i + 1).drop_last() =~= all.take(i as int));
                assert(all.take(i + 1).last() == all[i as int]);
                assert(decreases_to!(*value => value->Object_0));
                assert(decreases_to!(*members => members@));
                assert(decreases_to!(members@ => members@[i as int]));
                assert(decreases_to!(members@[i as int] => members@[i as int].1));
                if i > 0 {
                    out.push(',');
                }
                out.append(json_string(members[i].0.as_str()).as_str());
                out.push(':');
                write_json(&members[i].1, out);
                i = i + 1;
            }
            out.push('}');
            assert(all.take(i as int) =~= all);
            assert(out@ =~= start + json_text(value.tree()));
        },
    }
}

/// The text of a JSON value, without white space between its parts.
pub fn json_to_string(value: &Json) -> (s: String)
    ensures
        s@ == json_text(value.tree()),
{
    let mut s = String::new();
    write_json(value, &mut s);
    assert(s@ =~= json_text(value.tree()));
    s
}

/// Escaping goes character by character.
pub proof fn lemma_escaped_add(a: Seq<char>, b: Seq<char>)
    ensures
        escaped(a + b) == escaped(a) + escaped(b),
    decreases b.len(),
{
    if b.len() == 0 {
        assert(a + b =~= a);
        assert(escaped(a) + escaped(b) =~= escaped(a));
    } else {
        lemma_escaped_add(a, b.drop_last());
        assert((a + b).drop_last() =~= a + b.drop_last());
        assert(escaped(a + b) =~= escaped(a) + escaped(b));
    }
}

/// Every character of `s` stands for itself inside a JSON string.
pub open spec fn is_plain(s: Seq<char>) -> bool {
    forall|i: int| 0 <= i < s.len() ==> escape_char(#[trigger] s[i]) == seq![s[i]]
}

pub proof fn lemma_escaped_plain(s: Seq<char>)
    requires
        is_plain(s),
    ensures
        escaped(s) == s,
    decreases s.len(),
{
    if s.len() > 0 {
        let front = s.drop_last();
        assert forall|i: int| 0 <= i < front.len() implies escape_char(#[trigger] front[i])
            == seq![front[i]] by {
            assert(front[i] == s[i]);
        }
        lemma_escaped_plain(front);
        assert(s.last() == s[s.len() - 1]);
        assert(escaped(s) =~= s);
    }
}

/// `t2` is `t1` with the string that `path` leads to, `s1`, exchanged for `s2`.
/// A path gives the place of the value to go on with, in each list and object
/// from the outside in.
pub open spec fn differ_in_text(
    t1: JsonTree,
    t2: JsonTree,
    path: Seq<int>,
    s1: Seq<char>,
    s2: Seq<char>,
) -> bool
    decreases path.len(),
{
    if path.len() == 0 {
        t1 == JsonTree::Text(s1) && t2 == JsonTree::Text(s2)
    } else {
        let i = path[0];
        match (t1, t2) {
            (JsonTree::List(x), JsonTree::List(y)) => {
                &&& 0 <= i < x.len() == y.len()
                &&& y == x.update(i, y[i])
                &&& differ_in_text(x[i], y[i], path.skip(1), s1, s2)
            },
            (JsonTree::Object(x), JsonTree::Object(y)) => {
                &&& 0 <= i < x.len() == y.len()
                &&& y == x.update(i, (x[i].0, y[i].1))
                &&& differ_in_text(x[i].1, y[i].1, path.skip(1), s1, s2)
            },
            _ => false,
        }
    }
}

/// What stands around one value of a list.
proof fn lemma_items_around(before: Seq<JsonTree>, after: Seq<JsonTree>) -> (r: (
    Seq<char>,
    Seq<char>,
))
    ensures
        forall|v: JsonTree| #[trigger]
            items_text(before.push(v) + after) == r.0 + json_text(v) + r.1,
    decreases after.len(),
{
    if after.len() == 0 {
        let pre = if before.len() == 0 {
            Seq::empty()
        } else {
            items_text(before) + seq![',']
        };
        let post = Seq::<char>::empty();
        assert forall|v: JsonTree| #[trigger]
            items_text(before.push(v) + after) == pre + json_text(v) + post by {
            assert(before.push(v) + after =~= before.push(v));
            assert(before.push(v).drop_last() =~= before);
            assert(items_text(before.push(v)) =~= pre + json_text(v) + post);
        }
        (pre, post)
    } else {
        let (pre, post0) = lemma_items_around(before, after.drop_last());
        let post = post0 + seq![','] + json_text(after.last());
        assert forall|v: JsonTree| #[trigger]
            items_text(before.push(v) + after) == pre + json_text(v) + post by {
            let all = before.push(v) + after;
            assert(all.drop_last() =~= before.push(v) + after.drop_last());
            assert(all.last() == after.last());
            assert(items_text(before.push(v) + after.drop_last()) == pre + json_text(v) + post0);
            assert(items_text(all) =~= pre + json_text(v) + post);
        }
        (pre, post)
    }
}

/// What stands around one value of an object.
proof fn lemma_members_around(
    before: Seq<(Seq<char>, JsonTree)>,
    name: Seq<char>,
    after: Seq<(Seq<char>, JsonTree)>,
) -> (r: (Seq<char>, Seq<char>))
    ensures
        forall|v: JsonTree| #[trigger]
            members_text(before.push((name, v)) + after) == r.0 + json_text(v) + r.1,
    decreases after.len(),
{
    if after.len() == 0 {
        let pre = if before.len() == 0 {
            quoted(name) + seq![':']
        } else {
            members_text(before) + seq![','] + quoted(name) + seq![':']
        };
        let post = Seq::<char>::empty();
        assert forall|v: JsonTree| #[trigger]
            members_text(before.push((name, v)) + after) == pre + json_text(v) + post by {
            let all = before.push((name, v));
            assert(all + after =~= all);
            assert(all.drop_last() =~= before);
            assert(members_text(all) =~= pre + json_text(v) + post);
        }
        (pre, post)
    } else {
        let (pre, post0) = lemma_members_around(before, name, after.drop_last());
        let post = post0 + seq![','] + quoted(after.last().0) + seq![':'] + json_text(
            after.last().1,
        );
        assert forall|v: JsonTree| #[trigger]
            members_text(before.push((name, v)) + after) == pre + json_text(v) + post by {
            let all = before.push((name, v)) + after;
            assert(all.drop_last() =~= before.push((name, v)) + after.drop_last());
            assert(all.last() == after.last());
            assert(members_text(before.push((name, v)) + after.drop_last()) == pre + json_text(v)
                + post0);
            assert(members_text(all) =~= pre + json_text(v) + post);
        }
        (pre, post)
    }
}

proof fn lemma_regroup(
    open: Seq<char>,
    pre: Seq<char>,
    pre0: Seq<char>,
    mid: Seq<char>,
    post0: Seq<char>,
    post: Seq<char>,
    close: Seq<char>,
)
    ensures
        open + (pre + (pre0 + mid + post0) + post) + close == (open + pre + pre0) + mid + (post0
            + post + close),
{
    assert(open + (pre + (pre0 + mid + post0) + post) + close =~= (open + pre + pre0) + mid + (post0
        + post + close));
}

/// Trees that differ in one string are written alike around it.
pub proof fn lemma_text_around(
    t1: JsonTree,
    t2: JsonTree,
    path: Seq<int>,
    s1: Seq<char>,
    s2: Seq<char>,
) -> (r: (Seq<char>, Seq<char>))
    requires
        differ_in_text(t1, t2, path, s1, s2),
    ensures
        json_text(t1) == r.0 + quoted(s1) + r.1,
        json_text(t2) == r.0 + quoted(s2) + r.1,
    decreases path.len(),
{
    if path.len() == 0 {
        let none = Seq::<char>::empty();
        assert(json_text(t1) =~= none + quoted(s1) + none);
        assert(json_text(t2) =~= none + quoted(s2) + none);
        (none, none)
    } else {
        let i = path[0];
        match (t1, t2) {
            (JsonTree::List(x), JsonTree::List(y)) => {
                let (pre0, post0) = lemma_text_around(x[i], y[i], path.skip(1), s1, s2);
                let (pre, post) = lemma_items_around(x.take(i), x.skip(i + 1));
                assert(x =~= x.take(i).push(x[i]) + x.skip(i + 1));
                assert(y =~= x.take(i).push(y[i]) + x.skip(i + 1));
                assert(items_text(x) == pre + json_text(x[i]) + post);
                assert(items_text(y) == pre + json_text(y[i]) + post);
                lemma_regroup(seq!['['], pre, pre0, quoted(s1), post0, post, seq![']']);
                lemma_regroup(seq!['['], pre, pre0, quoted(s2), post0, post, seq![']']);
                (seq!['['] + pre + pre0, post0 + post + seq![']'])
            },
            (JsonTree::Object(x), JsonTree::Object(y)) => {
                let (pre0, post0) = lemma_text_around(x[i].1, y[i].1, path.skip(1), s1, s2);
                let (pre, post) = lemma_members_around(x.take(i), x[i].0, x.skip(i + 1));
                assert(x =~= x.take(i).push((x[i].0, x[i].1)) + x.skip(i + 1));
                assert(y =~= x.take(i).push((x[i].0, y[i].1)) + x.skip(i + 1));
                assert(members_text(x) == pre + json_text(x[i].1) + post);
                assert(members_text(y) == pre + json_text(y[i].1) + post);
                lemma_regroup(seq!['{'], pre, pre0, quoted(s1), post0, post, seq!['}']);
                lemma_regroup(seq!['{'], pre, pre0, quoted(s2), post0, post, seq!['}']);
                (seq!['{'] + pre + pre0, post0 + post + seq!['}'])
            },
            _ => (Seq::empty(), Seq::empty()),
        }
    }
}

pub proof fn lemma_items_without_signatures_add(a: Seq<JsonTree>, b: Seq<JsonTree>)
    ensures
        items_without_signatures(a + b) == items_without_signatures(a) + items_without_signatures(
            b,
        ),
    decreases b.len(),
{
    if b.len() == 0 {
        assert(a + b =~= a);
        assert(items_without_signatures(a) + b =~= items_without_signatures(a));
    } else {
        lemma_items_without_signatures_add(a, b.drop_last());
        assert((a + b).drop_last() =~= a + b.drop_last());
        assert(items_without_signatures(a + b) =~= items_without_signatures(a)
            + items_without_signatures(b));
    }
}

pub proof fn lemma_members_without_signatures_add(
    a: Seq<(Seq<char>, JsonTree)>,
    b: Seq<(Seq<char>, JsonTree)>,
)
    ensures
        members_without_signatures(a + b) == members_without_signatures(a)
            + members_without_signatures(b),
    decreases b.len(),
{
    if b.len() == 0 {
        assert(a + b =~= a);
        assert(members_without_signatures(a) + b =~= members_without_signatures(a));
    } else {
        lemma_members_without_signatures_add(a, b.drop_last());
        assert((a + b).drop_last() =~= a + b.drop_last());
        assert(members_without_signatures(a + b) =~= members_without_signatures(a)
            + members_without_signatures(b));
    }
}

/// What is left of an object whose one member is looked at.
pub proof fn lemma_members_without_signatures_at(
    a: Seq<(Seq<char>, JsonTree)>,
    m: (Seq<char>, JsonTree),
    b: Seq<(Seq<char>, JsonTree)>,
)
    ensures
        members_without_signatures(a.push(m) + b) == if is_signature(m.0) {
            members_without_signatures(a) + members_without_signatures(b)
        } else {
            members_without_signatures(a).push((m.0, without_signatures(m.1)))
                + members_without_signatures(b)
        },
{
    lemma_members_without_signatures_add(a.push(m), b);
    assert(a.push(m).drop_last() =~= a);
}

/// Objects that differ in one string of one member are equal without their
/// opaque tokens, or still differ in that string alone.
proof fn lemma_members_still_differ(
    a: Seq<(Seq<char>, JsonTree)>,
    name: Seq<char>,
    v1: JsonTree,
    v2: JsonTree,
    b: Seq<(Seq<char>, JsonTree)>,
    path: Seq<int>,
    s1: Seq<char>,
    s2: Seq<char>,
) -> (r: Seq<int>)
    requires
        without_signatures(v1) == without_signatures(v2) || differ_in_text(
            without_signatures(v1),
            without_signatures(v2),
            path,
            s1,
            s2,
        ),
    ensures
        ({
            let o1 = JsonTree::Object(members_without_signatures(a.push((name, v1)) + b));
            let o2 = JsonTree::Object(members_without_signatures(a.push((name, v2)) + b));
            o1 == o2 || differ_in_text(o1, o2, r, s1, s2)
        }),
{
    lemma_members_without_signatures_at(a, (name, v1), b);
    lemma_members_without_signatures_at(a, (name, v2), b);
    let i = members_without_signatures(a).len() as int;
    let r = seq![i] + path;
    if !is_signature(name) && without_signatures(v1) != without_signatures(v2) {
        let x = members_without_signatures(a.push((name, v1)) + b);
        let y = members_without_signatures(a.push((name, v2)) + b);
        assert(y =~= x.update(i, (x[i].0, y[i].1)));
        assert(r.skip(1) =~= path);
    }
    r
}

/// Trees that differ in one string are equal without their opaque tokens, or
/// still differ in that string alone.
proof fn lemma_still_differ(
    t1: JsonTree,
    t2: JsonTree,
    path: Seq<int>,
    s1: Seq<char>,
    s2: Seq<char>,
) -> (r: Seq<int>)
    requires
        differ_in_text(t1, t2, path, s1, s2),
    ensures
        without_signatures(t1) == without_signatures(t2) || differ_in_text(
            without_signatures(t1),
            without_signatures(t2),
            r,
            s1,
            s2,
        ),
    decreases path.len(),
{
    if path.len() == 0 {
        path
    } else {
        let i = path[0];
        match (t1, t2) {
            (JsonTree::List(x), JsonTree::List(y)) => {
                let inner = lemma_still_differ(x[i], y[i], path.skip(1), s1, s2);
                let a = x.take(i);
                let b = x.skip(i + 1);
                assert(x =~= a.push(x[i]) + b);
                assert(y =~= a.push(y[i]) + b);
                lemma_items_without_signatures_add(a.push(x[i]), b);
                lemma_items_without_signatures_add(a.push(y[i]), b);
                assert(a.push(x[i]).drop_last() =~= a);
                assert(a.push(y[i]).drop_last() =~= a);
                let k = items_without_signatures(a).len() as int;
                let r = seq![k] + inner;
                if without_signatures(x[i]) != without_signatures(y[i]) {
                    let u = items_without_signatures(x);
                    let v = items_without_signatures(y);
                    assert(v =~= u.update(k, v[k]));
                    assert(r.skip(1) =~= inner);
                }
                r
            },
            (JsonTree::Object(x), JsonTree::Object(y)) => {
                let inner = lemma_still_differ(x[i].1, y[i].1, path.skip(1), s1, s2);
                let a = x.take(i);
                let b = x.skip(i + 1);
                assert(x =~= a.push((x[i].0, x[i].1)) + b);
                assert(y =~= a.push((x[i].0, y[i].1)) + b);
                lemma_members_still_differ(a, x[i].0, x[i].1, y[i].1, b, inner, s1, s2)
            },
            _ => path,
        }
    }
}

/// Requests that differ in one string ask the same, or what they ask differs in
/// that string alone.
pub proof fn lemma_content_differs(
    t1: JsonTree,
    t2: JsonTree,
    path: Seq<int>,
    s1: Seq<char>,
    s2: Seq<char>,
) -> (r: Seq<int>)
    requires
        differ_in_text(t1, t2, path, s1, s2),
    ensures
        semantic_content(t1) == semantic_content(t2) || differ_in_text(
            semantic_content(t1),
            semantic_content(t2),
            r,
            s1,
            s2,
        ),
{
    match (t1, t2) {
        (JsonTree::Object(x), JsonTree::Object(y)) => {
            let i = path[0];
            let a = x.take(i);
            let b = x.skip(i + 1);
            let name = x[i].0;
            let tag = "context_tag"@;
            assert(x =~= a.push((name, x[i].1)) + b);
            assert(y =~= a.push((name, y[i].1)) + b);
            lemma_without_member_at(a, (name, x[i].1), b, tag);
            lemma_without_member_at(a, (name, y[i].1), b, tag);
            let inner = lemma_still_differ(x[i].1, y[i].1, path.skip(1), s1, s2);
            lemma_members_still_differ(
                without_member(a, tag),
                name,
                x[i].1,
                y[i].1,
                without_member(b, tag),
                inner,
                s1,
                s2,
            )
        },
        _ => lemma_still_differ(t1, t2, path, s1, s2),
    }
}

/// What removing a name leaves of an object whose one member is looked at.
pub proof fn lemma_without_member_at(
    a: Seq<(Seq<char>, JsonTree)>,
    m: (Seq<char>, JsonTree),
    b: Seq<(Seq<char>, JsonTree)>,
    name: Seq<char>,
)
    ensures
        without_member(a.push(m) + b, name) == if m.0 == name {
            without_member(a, name) + without_member(b, name)
        } else {
            without_member(a, name).push(m) + without_member(b, name)
        },
{
    let keeps = |m: (Seq<char>, JsonTree)| m.0 != name;
    Seq::filter_distributes_over_add(a.push(m), b, keeps);
    reveal(Seq::filter);
    assert(a.push(m).drop_last() =~= a);
}

/// `t2` is `t1` with other opaque tokens.
pub open spec fn differ_in_signatures(t1: JsonTree, t2: JsonTree) -> bool
    decreases t1,
{
    match (t1, t2) {
        (JsonTree::List(x), JsonTree::List(y)) => {
            &&& x.len() == y.len()
            &&& forall|i: int|
                #![trigger x[i]]
                #![trigger y[i]]
                0 <= i < x.len() ==> differ_in_signatures(x[i], y[i])
        },
        (JsonTree::Object(x), JsonTree::Object(y)) => {
            &&& x.len() == y.len()
            &&& forall|i: int|
                #![trigger x[i]]
                #![trigger y[i]]
                0 <= i < x.len() ==> x[i].0 == y[i].0 && (is_signature(x[i].0)
                    || differ_in_signatures(x[i].1, y[i].1))
        },
        _ => t1 == t2,
    }
}

proof fn lemma_items_signatures(x: Seq<JsonTree>, y: Seq<JsonTree>)
    requires
        x.len() == y.len(),
        forall|i: int|
            #![trigger x[i]]
            #![trigger y[i]]
            0 <= i < x.len() ==> differ_in_signatures(x[i], y[i]),
    ensures
        items_without_signatures(x) == items_without_signatures(y),
    decreases x,
{
    if x.len() > 0 {
        lemma_items_signatures(x.drop_last(), y.drop_last());
        lemma_signatures_removed(x.last(), y.last());
    } else {
        assert(x =~= y);
    }
}

proof fn lemma_members_signatures(x: Seq<(Seq<char>, JsonTree)>, y: Seq<(Seq<char>, JsonTree)>)
    requires
        x.len() == y.len(),
        forall|i: int|
            #![trigger x[i]]
            #![trigger y[i]]
            0 <= i < x.len() ==> x[i].0 == y[i].0 && (is_signature(x[i].0) || differ_in_signatures(
                x[i].1,
                y[i].1,
            )),
    ensures
        members_without_signatures(x) == members_without_signatures(y),
    decreases x,
{
    if x.len() > 0 {
        lemma_members_signatures(x.drop_last(), y.drop_last());
        if !is_signature(x.last().0) {
            lemma_signatures_removed(x.last().1, y.last().1);
        }
    } else {
        assert(x =~= y);
    }
}

/// Removing the opaque tokens leaves no trace of them.
pub proof fn lemma_signatures_removed(t1: JsonTree, t2: JsonTree)
    requires
        differ_in_signatures(t1, t2),
    ensures
        without_signatures(t1) == without_signatures(t2),
    decreases t1,
{
    match (t1, t2) {
        (JsonTree::List(x), JsonTree::List(y)) => {
            lemma_items_signatures(x, y);
        },
        (JsonTree::Object(x), JsonTree::Object(y)) => {
            lemma_members_signatures(x, y);
        },
        _ => {},
    }
}

/// A name and the opaque tokens can be removed in either order.
proof fn lemma_removals_commute(members: Seq<(Seq<char>, JsonTree)>, name: Seq<char>)
    ensures
        members_without_signatures(without_member(members, name)) == without_member(
            members_without_signatures(members),
            name,
        ),
    decreases members.len(),
{
    let keeps = |m: (Seq<char>, JsonTree)| m.0 != name;
    reveal(Seq::filter);
    if members.len() > 0 {
        let front = members.drop_last();
        let last = members.last();
        lemma_removals_commute(front, name);
        let kept = without_member(front, name);
        assert(kept.push(last).drop_last() =~= kept);
        let scrubbed_front = members_without_signatures(front);
        let scrubbed_last = (last.0, without_signatures(last.1));
        assert(scrubbed_front.push(scrubbed_last).drop_last() =~= scrubbed_front);
    }
}

/// Requests that differ in their opaque tokens ask the same.
pub proof fn lemma_content_ignores_signatures(t1: JsonTree, t2: JsonTree)
    requires
        differ_in_signatures(t1, t2),
    ensures
        semantic_content(t1) == semantic_content(t2),
{
    lemma_signatures_removed(t1, t2);
    match (t1, t2) {
        (JsonTree::Object(x), JsonTree::Object(y)) => {
            lemma_removals_commute(x, "context_tag"@);
            lemma_removals_commute(y, "context_tag"@);
        },
        _ => {},
    }
}

proof fn lemma_items_removed_once(items: Seq<JsonTree>)
    ensures
        items_without_signatures(items_without_signatures(items)) == items_without_signatures(
            items,
        ),
    decreases items,
{
    if items.len() > 0 {
        let front = items_without_signatures(items.drop_last());
        let last = without_signatures(items.last());
        lemma_items_removed_once(items.drop_last());
        signatures_are_removed_once(items.last());
        assert(front.push(last).drop_last() =~= front);
    }
}

proof fn lemma_members_removed_once(members: Seq<(Seq<char>, JsonTree)>)
    ensures
        members_without_signatures(members_without_signatures(members))
            == members_without_signatures(members),
    decreases members,
{
    if members.len() > 0 {
        lemma_members_removed_once(members.drop_last());
        if !is_signature(members.last().0) {
            let front = members_without_signatures(members.drop_last());
            let last = (members.last().0, without_signatures(members.last().1));
            assert(decreases_to!(members => members.last()));
            assert(decreases_to!(members.last() => members.last().1));
            signatures_are_removed_once(members.last().1);
            assert(front.push(last).drop_last() =~= front);
        }
    }
}

/// A value whose opaque tokens were removed has none left to remove.
pub proof fn signatures_are_removed_once(t: JsonTree)
    ensures
        without_signatures(without_signatures(t)) == without_signatures(t),
    decreases t,
{
    match t {
        JsonTree::List(items) => {
            lemma_items_removed_once(items);
        },
        JsonTree::Object(members) => {
            lemma_members_removed_once(members);
        },
        _ => {},
    }
}

/// A request asks the same with and without its opaque tokens.
pub proof fn lemma_content_needs_no_signatures(request: JsonTree)
    ensures
        semantic_content(without_signatures(request)) == semantic_content(request),
{
    match request {
        JsonTree::Object(members) => {
            let kept = without_member(members, "context_tag"@);
            lemma_removals_commute(members, "context_tag"@);
            signatures_are_removed_once(JsonTree::Object(kept));
            assert(without_signatures(JsonTree::Object(kept)) == JsonTree::Object(
                members_without_signatures(kept),
            ));
        },
        _ => {
            signatures_are_removed_once(request);
        },
    }
}

} // verus!
