//! JSON texts can be read in one way only: different values have different texts,
//! so nothing that a request asks is lost on the way to its key.

use vstd::prelude::*;
use crate::json::JsonTree;

verus! {

/// The characters that numbers are written with.
pub open spec fn is_number_char(c: char) -> bool {
    '0' <= c <= '9' || c == '-' || c == '+' || c == '.' || c == 'e' || c == 'E'
}

/// A text that may stand for a number.
pub open spec fn is_number_text(n: Seq<char>) -> bool {
    n.len() > 0 && forall|i: int| 0 <= i < n.len() ==> is_number_char(#[trigger] n[i])
}

/// The numbers in a value are written as numbers, at any depth.
pub open spec fn has_number_texts(t: JsonTree) -> bool
    decreases t,
{
    match t {
        JsonTree::Number(n) => is_number_text(n),
        JsonTree::List(items) => forall|i: int|
            0 <= i < items.len() ==> has_number_texts(#[trigger] items[i]),
        JsonTree::Object(members) => forall|i: int|
            0 <= i < members.len() ==> has_number_texts((#[trigger] members[i]).1),
        _ => true,
    }
}

/// The inside of a JSON string, as far as its end can be told: no quote is in it
/// but behind a backslash, and no backslash is the last.
pub open spec fn is_string_body(s: Seq<char>) -> bool
    decreases s.len(),
{
    if s.len() == 0 {
        true
    } else if s[0] == '\\' {
        s.len() >= 2 && is_string_body(s.subrange(2, s.len() as int))
    } else {
        s[0] != '"' && is_string_body(s.subrange(1, s.len() as int))
    }
}

/// A text between quotes.
pub open spec fn in_quotes(s: Seq<char>) -> Seq<char> {
    seq!['"'] + s + seq!['"']
}

/// A value, written without white space and with its strings as they are between
/// their quotes.
pub open spec fn raw_text(t: JsonTree) -> Seq<char>
    decreases t,
{
    match t {
        JsonTree::Null => seq!['n', 'u', 'l', 'l'],
        JsonTree::Bool(b) => if b {
            seq!['t', 'r', 'u', 'e']
        } else {
            seq!['f', 'a', 'l', 's', 'e']
        },
        JsonTree::Number(n) => n,
        JsonTree::Text(s) => in_quotes(s),
        JsonTree::List(items) => seq!['['] + raw_items_text(items) + seq![']'],
        JsonTree::Object(members) => seq!['{'] + raw_members_text(members) + seq!['}'],
    }
}

/// The values of a list, with commas between them.
pub open spec fn raw_items_text(items: Seq<JsonTree>) -> Seq<char>
    decreases items,
{
    if items.len() == 0 {
        Seq::empty()
    } else if items.len() == 1 {
        raw_text(items.last())
    } else {
        raw_items_text(items.drop_last()) + seq![','] + raw_text(items.last())
    }
}

/// The members of an object, with commas between them.
pub open spec fn raw_members_text(members: Seq<(Seq<char>, JsonTree)>) -> Seq<char>
    decreases members,
{
    if members.len() == 0 {
        Seq::empty()
    } else {
        let member = in_quotes(members.last().0) + seq![':'] + raw_text(members.last().1);
        if members.len() == 1 {
            member
        } else {
            raw_members_text(members.drop_last()) + seq![','] + member
        }
    }
}

/// The numbers in a value are written as numbers, and the strings and names can
/// stand between quotes.
pub open spec fn is_readable(t: JsonTree) -> bool
    decreases t,
{
    match t {
        JsonTree::Number(n) => is_number_text(n),
        JsonTree::Text(s) => is_string_body(s),
        JsonTree::List(items) => forall|i: int|
            0 <= i < items.len() ==> is_readable(#[trigger] items[i]),
        JsonTree::Object(members) => forall|i: int|
            0 <= i < members.len() ==> is_string_body((#[trigger] members[i]).0) && is_readable(
                members[i].1,
            ),
        _ => true,
    }
}

/// A value with every string and every name of a member exchanged for its image.
pub open spec fn with_strings(t: JsonTree, image: spec_fn(Seq<char>) -> Seq<char>) -> JsonTree
    decreases t,
{
    match t {
        JsonTree::Text(s) => JsonTree::Text(image(s)),
        JsonTree::List(items) => JsonTree::List(
            Seq::new(
                items.len(),
                |i: int|
                    if 0 <= i < items.len() {
                        with_strings(items[i], image)
                    } else {
                        JsonTree::Null
                    },
            ),
        ),
        JsonTree::Object(members) => JsonTree::Object(
            Seq::new(
                members.len(),
                |i: int|
                    if 0 <= i < members.len() {
                        (image(members[i].0), with_strings(members[i].1, image))
                    } else {
                        (Seq::empty(), JsonTree::Null)
                    },
            ),
        ),
        _ => t,
    }
}

/// Every value of a list with its strings exchanged.
pub open spec fn items_with_strings(
    items: Seq<JsonTree>,
    image: spec_fn(Seq<char>) -> Seq<char>,
) -> Seq<JsonTree> {
    Seq::new(items.len(), |i: int| with_strings(items[i], image))
}

/// Every member of an object with its name and its strings exchanged.
pub open spec fn members_with_strings(
    members: Seq<(Seq<char>, JsonTree)>,
    image: spec_fn(Seq<char>) -> Seq<char>,
) -> Seq<(Seq<char>, JsonTree)> {
    Seq::new(members.len(), |i: int| (image(members[i].0), with_strings(members[i].1, image)))
}

/// The image of a list or an object holds the images of what it holds.
pub proof fn lemma_with_strings(t: JsonTree, image: spec_fn(Seq<char>) -> Seq<char>)
    ensures
        t matches JsonTree::List(items) ==> with_strings(t, image) == JsonTree::List(
            items_with_strings(items, image),
        ),
        t matches JsonTree::Object(members) ==> with_strings(t, image) == JsonTree::Object(
            members_with_strings(members, image),
        ),
{
    match t {
        JsonTree::List(items) => {
            if let JsonTree::List(images) = with_strings(t, image) {
                assert(images =~= items_with_strings(items, image));
            }
        },
        JsonTree::Object(members) => {
            if let JsonTree::Object(images) = with_strings(t, image) {
                assert(images =~= members_with_strings(members, image));
            }
        },
        _ => {},
    }
}

/// What may follow a value: nothing, a comma or a closing bracket.
spec fn ends_value(rest: Seq<char>) -> bool {
    rest.len() == 0 || rest[0] == ',' || rest[0] == ']' || rest[0] == '}'
}

/// What follows the first item of a list or an object.
spec fn after_first(count: nat, rest: Seq<char>, close: char, end: Seq<char>) -> Seq<char> {
    if count == 1 {
        seq![close] + end
    } else {
        seq![','] + rest + seq![close] + end
    }
}

proof fn lemma_items_front(items: Seq<JsonTree>, close: char, end: Seq<char>)
    requires
        items.len() > 0,
    ensures
        raw_items_text(items) + seq![close] + end == raw_text(items[0])
            + after_first(
            items.len(),
            raw_items_text(items.subrange(1, items.len() as int)),
            close,
            end,
        ),
    decreases items.len(),
{
    let text = raw_items_text(items);
    let tail = items.subrange(1, items.len() as int);
    if items.len() == 1 {
        assert(text + seq![close] + end =~= raw_text(items[0]) + (seq![close] + end));
    } else {
        let front = items.drop_last();
        let none = Seq::<char>::empty();
        lemma_items_front(front, close, none);
        let front_tail = front.subrange(1, front.len() as int);
        assert(tail.drop_last() =~= front_tail);
        assert(tail.last() == items.last());
        let last = raw_text(items.last());
        let first = raw_text(items[0]);
        assert(front[0] == items[0]);
        let inner = raw_items_text(front);
        let whole = inner + seq![close] + none;
        assert(inner =~= whole.take(whole.len() - 1));
        if front.len() == 1 {
            assert(tail.len() == 1);
            assert(inner =~= first);
            assert(raw_items_text(tail) == last);
        } else {
            assert(inner =~= first + (seq![','] + raw_items_text(front_tail)));
            assert(raw_items_text(tail) == raw_items_text(front_tail) + seq![',']
                + last);
        }
        assert(text == inner + seq![','] + last);
        assert(text + seq![close] + end =~= first + (seq![','] + raw_items_text(tail)
            + seq![close] + end));
    }
}

spec fn member_text(member: (Seq<char>, JsonTree)) -> Seq<char> {
    in_quotes(member.0) + seq![':'] + raw_text(member.1)
}

proof fn lemma_members_front(members: Seq<(Seq<char>, JsonTree)>, close: char, end: Seq<char>)
    requires
        members.len() > 0,
    ensures
        raw_members_text(members) + seq![close] + end == member_text(members[0])
            + after_first(
            members.len(),
            raw_members_text(members.subrange(1, members.len() as int)),
            close,
            end,
        ),
    decreases members.len(),
{
    let text = raw_members_text(members);
    let tail = members.subrange(1, members.len() as int);
    if members.len() == 1 {
        assert(text + seq![close] + end =~= member_text(members[0]) + (seq![close] + end));
    } else {
        let front = members.drop_last();
        let none = Seq::<char>::empty();
        lemma_members_front(front, close, none);
        let front_tail = front.subrange(1, front.len() as int);
        assert(tail.drop_last() =~= front_tail);
        assert(tail.last() == members.last());
        let last = member_text(members.last());
        let first = member_text(members[0]);
        assert(front[0] == members[0]);
        let inner = raw_members_text(front);
        let whole = inner + seq![close] + none;
        assert(inner =~= whole.take(whole.len() - 1));
        if front.len() == 1 {
            assert(tail.len() == 1);
            assert(inner =~= first);
            assert(raw_members_text(tail) == last);
        } else {
            assert(inner =~= first + (seq![','] + raw_members_text(front_tail)));
            assert(raw_members_text(tail) == raw_members_text(front_tail) + seq![
                ',',
            ] + last);
        }
        assert(text == inner + seq![','] + last);
        assert(text + seq![close] + end =~= first + (seq![','] + raw_members_text(tail)
            + seq![close] + end));
    }
}

/// A string ends where its closing quote is.
proof fn lemma_strings_told_apart(s1: Seq<char>, s2: Seq<char>, rest1: Seq<char>, rest2: Seq<char>)
    requires
        is_string_body(s1),
        is_string_body(s2),
        s1 + seq!['"'] + rest1 == s2 + seq!['"'] + rest2,
    ensures
        s1 == s2,
        rest1 == rest2,
    decreases s1.len(),
{
    let text = s1 + seq!['"'] + rest1;
    if s1.len() == 0 || s2.len() == 0 {
        assert(s1.len() > 0 ==> text[0] == s1[0]);
        assert(s2.len() > 0 ==> text[0] == s2[0]);
        assert(s1.len() == 0 ==> text[0] == '"');
        assert(s2.len() == 0 ==> text[0] == '"');
        assert(s1 =~= s2);
        assert(rest1 =~= text.skip(1));
        assert(rest2 =~= text.skip(1));
    } else {
        assert(text[0] == s1[0] && text[0] == s2[0]);
        let n: int = if s1[0] == '\\' { 2 } else { 1 };
        let tail1 = s1.subrange(n, s1.len() as int);
        let tail2 = s2.subrange(n, s2.len() as int);
        assert(text.skip(n) =~= tail1 + seq!['"'] + rest1);
        assert(text.skip(n) =~= tail2 + seq!['"'] + rest2);
        lemma_strings_told_apart(tail1, tail2, rest1, rest2);
        assert(s1.take(n) =~= text.take(n));
        assert(s2.take(n) =~= text.take(n));
        assert(s1 =~= s1.take(n) + tail1);
        assert(s2 =~= s2.take(n) + tail2);
    }
}

proof fn lemma_quoted_told_apart(s1: Seq<char>, s2: Seq<char>, rest1: Seq<char>, rest2: Seq<char>)
    requires
        is_string_body(s1),
        is_string_body(s2),
        in_quotes(s1) + rest1 == in_quotes(s2) + rest2,
    ensures
        s1 == s2,
        rest1 == rest2,
{
    let text = in_quotes(s1) + rest1;
    assert(text.skip(1) =~= s1 + seq!['"'] + rest1);
    assert(text.skip(1) =~= s2 + seq!['"'] + rest2);
    lemma_strings_told_apart(s1, s2, rest1, rest2);
}

proof fn lemma_escaped_first(s: Seq<char>, rest: Seq<char>)
    requires
        s.len() > 0,
    ensures
        crate::json::escaped(s) + rest == crate::json::escape_char(s[0]) + (crate::json::escaped(
            s.subrange(1, s.len() as int),
        ) + rest),
{
    let first = seq![s[0]];
    let tail = s.subrange(1, s.len() as int);
    assert(s =~= first + tail);
    crate::json::lemma_escaped_add(first, tail);
    assert(first.drop_last() =~= Seq::empty());
    assert(crate::json::escaped(first.drop_last()) =~= Seq::empty());
    assert(crate::json::escaped(first) =~= crate::json::escape_char(s[0]));
    assert(crate::json::escaped(s) + rest =~= crate::json::escape_char(s[0]) + (
    crate::json::escaped(tail) + rest));
}

/// Two characters inside a string are told apart by how they begin.
proof fn lemma_escape_chars(c1: char, c2: char, rest1: Seq<char>, rest2: Seq<char>)
    requires
        crate::json::escape_char(c1) + rest1 == crate::json::escape_char(c2) + rest2,
    ensures
        c1 == c2,
        rest1 == rest2,
{
    let e1 = crate::json::escape_char(c1);
    let e2 = crate::json::escape_char(c2);
    let text = e1 + rest1;
    assert(text[0] == e1[0] && text[0] == e2[0]);
    if e1.len() > 1 {
        assert(e1[0] == '\\');
        assert(e2.len() > 1);
        assert(text[1] == e1[1] && text[1] == e2[1]);
        if e1.len() > 2 {
            assert(e1[1] == 'u');
            assert(e2.len() > 2);
            assert(text[4] == e1[4] && text[4] == e2[4]);
            assert(text[5] == e1[5] && text[5] == e2[5]);
            lemma_hex_digits(c1 as int, c2 as int);
        }
    }
    assert(c1 == c2);
    assert(rest1 =~= text.skip(e1.len() as int));
    assert(rest2 =~= text.skip(e2.len() as int));
}

proof fn lemma_hex_digits(a: int, b: int)
    requires
        0 <= a < 0x20,
        0 <= b < 0x20,
        crate::json::hex_char(a / 16) == crate::json::hex_char(b / 16),
        crate::json::hex_char(a % 16) == crate::json::hex_char(b % 16),
    ensures
        a == b,
{
    assert(a / 16 == b / 16);
    assert(a % 16 == b % 16);
}

proof fn lemma_numbers_told_apart(n1: Seq<char>, n2: Seq<char>, rest1: Seq<char>, rest2: Seq<char>)
    requires
        is_number_text(n1),
        is_number_text(n2),
        ends_value(rest1),
        ends_value(rest2),
        n1 + rest1 == n2 + rest2,
    ensures
        n1 == n2,
        rest1 == rest2,
{
    let text = n1 + rest1;
    if n1.len() < n2.len() {
        assert(text[n1.len() as int] == rest1[0]);
        assert(text[n1.len() as int] == n2[n1.len() as int]);
    }
    if n2.len() < n1.len() {
        assert(text[n2.len() as int] == rest2[0]);
        assert(text[n2.len() as int] == n1[n2.len() as int]);
    }
    assert(n1 =~= text.take(n1.len() as int));
    assert(n2 =~= text.take(n1.len() as int));
    assert(rest1 =~= text.skip(n1.len() as int));
    assert(rest2 =~= text.skip(n1.len() as int));
}

/// The kind of a value shows in its first character.
spec fn begins_as(t: JsonTree, c: char) -> bool {
    match t {
        JsonTree::Null => c == 'n',
        JsonTree::Bool(b) => c == if b {
            't'
        } else {
            'f'
        },
        JsonTree::Number(n) => is_number_char(c),
        JsonTree::Text(s) => c == '"',
        JsonTree::List(items) => c == '[',
        JsonTree::Object(members) => c == '{',
    }
}

proof fn lemma_first_character(t: JsonTree)
    requires
        is_readable(t),
    ensures
        raw_text(t).len() > 0,
        begins_as(t, raw_text(t)[0]),
{
    match t {
        JsonTree::Number(n) => {
            assert(is_number_char(n[0]));
        },
        JsonTree::List(items) => {
            let text = raw_text(t);
            assert(text == seq!['['] + raw_items_text(items) + seq![']']);
            assert(text[0] == '[');
        },
        JsonTree::Object(members) => {
            let text = raw_text(t);
            assert(text == seq!['{'] + raw_members_text(members) + seq!['}']);
            assert(text[0] == '{');
        },
        _ => {},
    }
}

/// A value ends where its text says, whatever follows it.
proof fn lemma_values_told_apart(
    t1: JsonTree,
    t2: JsonTree,
    rest1: Seq<char>,
    rest2: Seq<char>,
)
    requires
        is_readable(t1),
        is_readable(t2),
        ends_value(rest1),
        ends_value(rest2),
        raw_text(t1) + rest1 == raw_text(t2) + rest2,
    ensures
        t1 == t2,
        rest1 == rest2,
    decreases t1,
{
    let text = raw_text(t1) + rest1;
    lemma_first_character(t1);
    lemma_first_character(t2);
    assert(text[0] == raw_text(t1)[0]);
    assert(text[0] == raw_text(t2)[0]);
    match (t1, t2) {
        (JsonTree::Null, JsonTree::Null) => {
            assert(rest1 =~= text.skip(4));
            assert(rest2 =~= text.skip(4));
        },
        (JsonTree::Bool(a), JsonTree::Bool(b)) => {
            assert(a == b);
            let n: int = if a { 4 } else { 5 };
            assert(rest1 =~= text.skip(n));
            assert(rest2 =~= text.skip(n));
        },
        (JsonTree::Number(n1), JsonTree::Number(n2)) => {
            lemma_numbers_told_apart(n1, n2, rest1, rest2);
        },
        (JsonTree::Text(s1), JsonTree::Text(s2)) => {
            lemma_quoted_told_apart(s1, s2, rest1, rest2);
        },
        (JsonTree::List(x), JsonTree::List(y)) => {
            assert(text.skip(1) =~= raw_items_text(x) + seq![']'] + rest1);
            assert(text.skip(1) =~= raw_items_text(y) + seq![']'] + rest2);
            lemma_items_told_apart(x, y, rest1, rest2);
        },
        (JsonTree::Object(x), JsonTree::Object(y)) => {
            assert(text.skip(1) =~= raw_members_text(x) + seq!['}'] + rest1);
            assert(text.skip(1) =~= raw_members_text(y) + seq!['}'] + rest2);
            lemma_members_told_apart(x, y, rest1, rest2);
        },
        _ => {},
    }
}

proof fn lemma_items_told_apart(
    x: Seq<JsonTree>,
    y: Seq<JsonTree>,
    rest1: Seq<char>,
    rest2: Seq<char>,
)
    requires
        forall|i: int| 0 <= i < x.len() ==> is_readable(#[trigger] x[i]),
        forall|i: int| 0 <= i < y.len() ==> is_readable(#[trigger] y[i]),
        raw_items_text(x) + seq![']'] + rest1 == raw_items_text(y) + seq![']']
            + rest2,
    ensures
        x == y,
        rest1 == rest2,
    decreases x,
{
    let text = raw_items_text(x) + seq![']'] + rest1;
    if x.len() > 0 {
        lemma_items_front(x, ']', rest1);
        lemma_first_character(x[0]);
        assert(text[0] == raw_text(x[0])[0]);
    } else {
        assert(text[0] == ']');
    }
    if y.len() > 0 {
        lemma_items_front(y, ']', rest2);
        lemma_first_character(y[0]);
        assert(text[0] == raw_text(y[0])[0]);
    } else {
        assert(text[0] == ']');
    }
    if x.len() > 0 && y.len() > 0 {
        let tail1 = x.subrange(1, x.len() as int);
        let tail2 = y.subrange(1, y.len() as int);
        let end1 = after_first(x.len(), raw_items_text(tail1), ']', rest1);
        let end2 = after_first(y.len(), raw_items_text(tail2), ']', rest2);
        lemma_values_told_apart(x[0], y[0], end1, end2);
        assert(end1[0] == end2[0]);
        if x.len() > 1 {
            assert(end1.skip(1) =~= raw_items_text(tail1) + seq![']'] + rest1);
            assert(end2.skip(1) =~= raw_items_text(tail2) + seq![']'] + rest2);
            assert forall|i: int| 0 <= i < tail1.len() implies is_readable(
                #[trigger] tail1[i],
            ) by {
                assert(tail1[i] == x[i + 1]);
            }
            assert forall|i: int| 0 <= i < tail2.len() implies is_readable(
                #[trigger] tail2[i],
            ) by {
                assert(tail2[i] == y[i + 1]);
            }
            lemma_items_told_apart(tail1, tail2, rest1, rest2);
        } else {
            assert(rest1 =~= end1.skip(1));
            assert(rest2 =~= end2.skip(1));
            assert(tail1 =~= tail2);
        }
        assert(x =~= seq![x[0]] + tail1);
        assert(y =~= seq![y[0]] + tail2);
    } else {
        assert(x =~= y);
        assert(rest1 =~= text.skip(1));
        assert(rest2 =~= text.skip(1));
    }
}

#[verifier::spinoff_prover]
#[verifier::rlimit(60)]
proof fn lemma_members_told_apart(
    x: Seq<(Seq<char>, JsonTree)>,
    y: Seq<(Seq<char>, JsonTree)>,
    rest1: Seq<char>,
    rest2: Seq<char>,
)
    requires
        forall|i: int|
            0 <= i < x.len() ==> is_string_body((#[trigger] x[i]).0) && is_readable(x[i].1),
        forall|i: int|
            0 <= i < y.len() ==> is_string_body((#[trigger] y[i]).0) && is_readable(y[i].1),
        raw_members_text(x) + seq!['}'] + rest1 == raw_members_text(y) + seq!['}']
            + rest2,
    ensures
        x == y,
        rest1 == rest2,
    decreases x,
{
    let text = raw_members_text(x) + seq!['}'] + rest1;
    if x.len() > 0 {
        lemma_members_front(x, '}', rest1);
        assert(text[0] == member_text(x[0])[0]);
        assert(text[0] == '"');
    } else {
        assert(text[0] == '}');
    }
    if y.len() > 0 {
        lemma_members_front(y, '}', rest2);
        assert(text[0] == member_text(y[0])[0]);
        assert(text[0] == '"');
    } else {
        assert(text[0] == '}');
    }
    if x.len() > 0 && y.len() > 0 {
        let tail1 = x.subrange(1, x.len() as int);
        let tail2 = y.subrange(1, y.len() as int);
        let end1 = after_first(x.len(), raw_members_text(tail1), '}', rest1);
        let end2 = after_first(y.len(), raw_members_text(tail2), '}', rest2);
        let value1 = seq![':'] + raw_text(x[0].1) + end1;
        let value2 = seq![':'] + raw_text(y[0].1) + end2;
        assert(member_text(x[0]) + end1 =~= in_quotes(x[0].0) + value1);
        assert(member_text(y[0]) + end2 =~= in_quotes(y[0].0) + value2);
        lemma_quoted_told_apart(x[0].0, y[0].0, value1, value2);
        assert(value1.skip(1) =~= raw_text(x[0].1) + end1);
        assert(value2.skip(1) =~= raw_text(y[0].1) + end2);
        assert(decreases_to!(x => x[0]));
        assert(decreases_to!(x[0] => x[0].1));
        lemma_values_told_apart(x[0].1, y[0].1, end1, end2);
        assert(end1[0] == end2[0]);
        if x.len() > 1 {
            assert(end1.skip(1) =~= raw_members_text(tail1) + seq!['}'] + rest1);
            assert(end2.skip(1) =~= raw_members_text(tail2) + seq!['}'] + rest2);
            assert forall|i: int| 0 <= i < tail1.len() implies is_string_body(
                (#[trigger] tail1[i]).0,
            ) && is_readable(tail1[i].1) by {
                assert(tail1[i] == x[i + 1]);
            }
            assert forall|i: int| 0 <= i < tail2.len() implies is_string_body(
                (#[trigger] tail2[i]).0,
            ) && is_readable(tail2[i].1) by {
                assert(tail2[i] == y[i + 1]);
            }
            lemma_members_told_apart(tail1, tail2, rest1, rest2);
        } else {
            assert(rest1 =~= end1.skip(1));
            assert(rest2 =~= end2.skip(1));
            assert(tail1 =~= tail2);
        }
        assert(x[0] == y[0]);
        assert(x =~= seq![x[0]] + tail1);
        assert(y =~= seq![y[0]] + tail2);
    } else {
        assert(x =~= y);
        assert(rest1 =~= text.skip(1));
        assert(rest2 =~= text.skip(1));
    }
}

/// Different values have different texts.
pub proof fn raw_texts_tell_values_apart(t1: JsonTree, t2: JsonTree)
    requires
        is_readable(t1),
        is_readable(t2),
    ensures
        raw_text(t1) == raw_text(t2) <==> t1 == t2,
{
    if raw_text(t1) == raw_text(t2) {
        let none = Seq::<char>::empty();
        assert(raw_text(t1) + none =~= raw_text(t1));
        assert(raw_text(t2) + none =~= raw_text(t2));
        lemma_values_told_apart(t1, t2, none, none);
    }
}

/// If every image can stand between quotes, the image of a value can be read.
pub proof fn lemma_image_is_readable(t: JsonTree, image: spec_fn(Seq<char>) -> Seq<char>)
    requires
        has_number_texts(t),
        forall|s: Seq<char>| is_string_body(#[trigger] image(s)),
    ensures
        is_readable(with_strings(t, image)),
    decreases t,
{
    lemma_with_strings(t, image);
    match t {
        JsonTree::List(items) => {
            let images = items_with_strings(items, image);
            assert forall|i: int| 0 <= i < images.len() implies is_readable(
                #[trigger] images[i],
            ) by {
                lemma_image_is_readable(items[i], image);
            }
            assert(is_readable(JsonTree::List(images)));
        },
        JsonTree::Object(members) => {
            let images = members_with_strings(members, image);
            assert forall|i: int| 0 <= i < images.len() implies is_string_body(
                (#[trigger] images[i]).0,
            ) && is_readable(images[i].1) by {
                assert(decreases_to!(members => members[i]));
                assert(decreases_to!(members[i] => members[i].1));
                assert(has_number_texts(members[i].1));
                lemma_image_is_readable(members[i].1, image);
            }
            assert(is_readable(JsonTree::Object(images)));
        },
        _ => {},
    }
}

/// Strings as JSON writes them.
pub open spec fn escaping() -> spec_fn(Seq<char>) -> Seq<char> {
    |s: Seq<char>| crate::json::escaped(s)
}

proof fn lemma_items_escaped(items: Seq<JsonTree>)
    ensures
        crate::json::items_text(items) == raw_items_text(items_with_strings(items, escaping())),
    decreases items,
{
    let images = items_with_strings(items, escaping());
    if items.len() > 0 {
        lemma_items_escaped(items.drop_last());
        lemma_text_escaped(items.last());
        assert(images.drop_last() =~= items_with_strings(items.drop_last(), escaping()));
    }
}

proof fn lemma_members_escaped(members: Seq<(Seq<char>, JsonTree)>)
    ensures
        crate::json::members_text(members) == raw_members_text(
            members_with_strings(members, escaping()),
        ),
    decreases members,
{
    let images = members_with_strings(members, escaping());
    if members.len() > 0 {
        lemma_members_escaped(members.drop_last());
        assert(decreases_to!(members => members.last()));
        assert(decreases_to!(members.last() => members.last().1));
        lemma_text_escaped(members.last().1);
        assert(images.drop_last() =~= members_with_strings(members.drop_last(), escaping()));
        assert(images.last().0 == crate::json::escaped(members.last().0));
    }
}

/// The text of a value is its image's, with every string escaped.
proof fn lemma_text_escaped(t: JsonTree)
    ensures
        crate::json::json_text(t) == raw_text(with_strings(t, escaping())),
    decreases t,
{
    lemma_with_strings(t, escaping());
    match t {
        JsonTree::List(items) => {
            lemma_items_escaped(items);
        },
        JsonTree::Object(members) => {
            lemma_members_escaped(members);
        },
        _ => {},
    }
}

/// What is escaped can stand between quotes, whatever comes after it.
proof fn lemma_escape_is_body(c: char, rest: Seq<char>)
    requires
        is_string_body(rest),
    ensures
        is_string_body(crate::json::escape_char(c) + rest),
{
    let e = crate::json::escape_char(c);
    let text = e + rest;
    if e.len() == 1 {
        assert(text.subrange(1, text.len() as int) =~= rest);
    } else if e.len() == 2 {
        assert(text.subrange(2, text.len() as int) =~= rest);
    } else {
        let text2 = text.subrange(2, text.len() as int);
        let text3 = text2.subrange(1, text2.len() as int);
        let text4 = text3.subrange(1, text3.len() as int);
        let text5 = text4.subrange(1, text4.len() as int);
        assert(text5.subrange(1, text5.len() as int) =~= rest);
        assert(text5[0] == e[5] && text4[0] == e[4] && text3[0] == '0' && text2[0] == '0');
        assert(is_string_body(text5));
        assert(is_string_body(text4));
        assert(is_string_body(text3));
        assert(is_string_body(text2));
    }
}

pub proof fn lemma_escaped_is_body(s: Seq<char>)
    ensures
        is_string_body(crate::json::escaped(s)),
    decreases s.len(),
{
    if s.len() > 0 {
        let tail = s.subrange(1, s.len() as int);
        let none = Seq::<char>::empty();
        lemma_escaped_is_body(tail);
        lemma_escaped_first(s, none);
        lemma_escape_is_body(s[0], crate::json::escaped(tail));
        assert(crate::json::escaped(s) + none =~= crate::json::escaped(s));
        assert(crate::json::escaped(tail) + none =~= crate::json::escaped(tail));
    }
}

/// Different strings are escaped differently.
pub proof fn escapes_tell_strings_apart(s1: Seq<char>, s2: Seq<char>)
    ensures
        crate::json::escaped(s1) == crate::json::escaped(s2) <==> s1 == s2,
    decreases s1.len(),
{
    if crate::json::escaped(s1) == crate::json::escaped(s2) {
        let none = Seq::<char>::empty();
        let text = crate::json::escaped(s1);
        assert(text + none =~= text);
        if s1.len() > 0 {
            lemma_escaped_first(s1, none);
            assert(text.len() > 0);
        }
        if s2.len() > 0 {
            lemma_escaped_first(s2, none);
            assert(text.len() > 0);
        }
        if s1.len() > 0 && s2.len() > 0 {
            let tail1 = s1.subrange(1, s1.len() as int);
            let tail2 = s2.subrange(1, s2.len() as int);
            let rest1 = crate::json::escaped(tail1);
            let rest2 = crate::json::escaped(tail2);
            assert(rest1 + none =~= rest1);
            assert(rest2 + none =~= rest2);
            lemma_escape_chars(s1[0], s2[0], rest1, rest2);
            escapes_tell_strings_apart(tail1, tail2);
            assert(s1 =~= seq![s1[0]] + tail1);
            assert(s2 =~= seq![s2[0]] + tail2);
        } else {
            assert(s1 =~= s2);
        }
    }
}

/// Values whose escaped images are the same are the same.
proof fn lemma_images_told_apart(t1: JsonTree, t2: JsonTree)
    requires
        with_strings(t1, escaping()) == with_strings(t2, escaping()),
    ensures
        t1 == t2,
    decreases t1,
{
    lemma_with_strings(t1, escaping());
    lemma_with_strings(t2, escaping());
    match (t1, t2) {
        (JsonTree::Text(s1), JsonTree::Text(s2)) => {
            escapes_tell_strings_apart(s1, s2);
        },
        (JsonTree::List(x), JsonTree::List(y)) => {
            let images1 = items_with_strings(x, escaping());
            let images2 = items_with_strings(y, escaping());
            assert(images1 == images2);
            assert forall|i: int| 0 <= i < x.len() implies x[i] == y[i] by {
                assert(images1[i] == images2[i]);
                lemma_images_told_apart(x[i], y[i]);
            }
            assert(x =~= y);
        },
        (JsonTree::Object(x), JsonTree::Object(y)) => {
            let images1 = members_with_strings(x, escaping());
            let images2 = members_with_strings(y, escaping());
            assert(images1 == images2);
            assert forall|i: int| 0 <= i < x.len() implies x[i] == y[i] by {
                assert(images1[i] == images2[i]);
                escapes_tell_strings_apart(x[i].0, y[i].0);
                assert(decreases_to!(x => x[i]));
                assert(decreases_to!(x[i] => x[i].1));
                lemma_images_told_apart(x[i].1, y[i].1);
            }
            assert(x =~= y);
        },
        _ => {},
    }
}

/// Different values have different JSON texts.
pub proof fn texts_tell_values_apart(t1: JsonTree, t2: JsonTree)
    requires
        has_number_texts(t1),
        has_number_texts(t2),
    ensures
        crate::json::json_text(t1) == crate::json::json_text(t2) <==> t1 == t2,
{
    assert forall|s: Seq<char>| is_string_body(#[trigger] escaping()(s)) by {
        lemma_escaped_is_body(s);
    }
    lemma_text_escaped(t1);
    lemma_text_escaped(t2);
    lemma_image_is_readable(t1, escaping());
    lemma_image_is_readable(t2, escaping());
    raw_texts_tell_values_apart(with_strings(t1, escaping()), with_strings(t2, escaping()));
    if with_strings(t1, escaping()) == with_strings(t2, escaping()) {
        lemma_images_told_apart(t1, t2);
    }
}

proof fn lemma_items_keep_number_texts(items: Seq<JsonTree>)
    requires
        forall|i: int| 0 <= i < items.len() ==> has_number_texts(#[trigger] items[i]),
    ensures
        forall|i: int|
            0 <= i < crate::json::items_without_signatures(items).len() ==> has_number_texts(
                #[trigger] crate::json::items_without_signatures(items)[i],
            ),
    decreases items,
{
    if items.len() > 0 {
        let front = items.drop_last();
        assert forall|i: int| 0 <= i < front.len() implies has_number_texts(
            #[trigger] front[i],
        ) by {
            assert(front[i] == items[i]);
        }
        lemma_items_keep_number_texts(front);
        assert(has_number_texts(items[items.len() - 1]));
        lemma_keeps_number_texts(items.last());
        let kept = crate::json::items_without_signatures(front);
        let all = crate::json::items_without_signatures(items);
        assert(all == kept.push(crate::json::without_signatures(items.last())));
        assert forall|i: int| 0 <= i < all.len() implies has_number_texts(#[trigger] all[i]) by {
            if i < kept.len() {
                assert(all[i] == kept[i]);
            }
        }
    }
}

proof fn lemma_members_keep_number_texts(members: Seq<(Seq<char>, JsonTree)>)
    requires
        forall|i: int| 0 <= i < members.len() ==> has_number_texts((#[trigger] members[i]).1),
    ensures
        forall|i: int|
            0 <= i < crate::json::members_without_signatures(members).len() ==> has_number_texts(
                (#[trigger] crate::json::members_without_signatures(members)[i]).1,
            ),
    decreases members,
{
    if members.len() > 0 {
        let front = members.drop_last();
        assert forall|i: int| 0 <= i < front.len() implies has_number_texts(
            (#[trigger] front[i]).1,
        ) by {
            assert(front[i] == members[i]);
        }
        lemma_members_keep_number_texts(front);
        assert(has_number_texts(members[members.len() - 1].1));
        assert(decreases_to!(members => members.last()));
        assert(decreases_to!(members.last() => members.last().1));
        lemma_keeps_number_texts(members.last().1);
        let kept = crate::json::members_without_signatures(front);
        let all = crate::json::members_without_signatures(members);
        assert forall|i: int| 0 <= i < all.len() implies has_number_texts(
            (#[trigger] all[i]).1,
        ) by {
            if i < kept.len() {
                assert(all[i] == kept[i]);
            }
        }
    }
}

proof fn lemma_keeps_number_texts(t: JsonTree)
    requires
        has_number_texts(t),
    ensures
        has_number_texts(crate::json::without_signatures(t)),
    decreases t,
{
    match t {
        JsonTree::List(items) => {
            lemma_items_keep_number_texts(items);
            let kept = crate::json::items_without_signatures(items);
            assert(crate::json::without_signatures(t) == JsonTree::List(kept));
            assert(has_number_texts(JsonTree::List(kept)));
        },
        JsonTree::Object(members) => {
            lemma_members_keep_number_texts(members);
            let kept = crate::json::members_without_signatures(members);
            assert(crate::json::without_signatures(t) == JsonTree::Object(kept));
            assert(has_number_texts(JsonTree::Object(kept)));
        },
        _ => {},
    }
}

/// What a request asks has its numbers written as numbers if the request has.
pub proof fn lemma_content_has_number_texts(request: JsonTree)
    requires
        has_number_texts(request),
    ensures
        has_number_texts(crate::json::semantic_content(request)),
{
    match request {
        JsonTree::Object(members) => {
            let keep = |m: (Seq<char>, JsonTree)| m.0 != "context_tag"@;
            let kept = crate::json::without_member(members, "context_tag"@);
            assert forall|i: int| 0 <= i < kept.len() implies has_number_texts(
                (#[trigger] kept[i]).1,
            ) by {
                broadcast use vstd::seq_lib::group_filter_ensures;

                members.lemma_filter_contains_rev(keep, kept[i]);
                let j = choose|j: int| 0 <= j < members.len() && members[j] == kept[i];
                assert(has_number_texts(members[j].1));
            }
            lemma_keeps_number_texts(JsonTree::Object(kept));
        },
        _ => {
            lemma_keeps_number_texts(request);
        },
    }
}

} // verus!
