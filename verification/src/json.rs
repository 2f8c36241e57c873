//! JSON values as plain data, read through `serde_json`.

use vstd::prelude::*;

verus! {

/// A parsed JSON value. An object lists its members in the order the parser hands them out.
pub enum Json {
    Null,
    Bool(bool),
    Number,
    Text(String),
    Array(Vec<Json>),
    Object(Vec<(String, Json)>),
}

/// What a [`Json`] value says.
pub enum JsonView {
    Null,
    Bool(bool),
    Number,
    Text(Seq<char>),
    Array(Seq<JsonView>),
    Object(Seq<(Seq<char>, JsonView)>),
}

impl Json {
    /// What this value says.
    pub open spec fn view(&self) -> JsonView
        decreases self,
    {
        match *self {
            Json::Null => JsonView::Null,
            Json::Bool(b) => JsonView::Bool(b),
            Json::Number => JsonView::Number,
            Json::Text(s) => JsonView::Text(s@),
            Json::Array(items) => JsonView::Array(
                Seq::new(
                    items@.len(),
                    |i: int|
                        if 0 <= i < items@.len() {
                            items@[i].view()
                        } else {
                            JsonView::Null
                        },
                ),
            ),
            Json::Object(members) => JsonView::Object(
                Seq::new(
                    members@.len(),
                    |i: int|
                        if 0 <= i < members@.len() {
                            (members@[i].0@, members@[i].1.view())
                        } else {
                            (Seq::empty(), JsonView::Null)
                        },
                ),
            ),
        }
    }

    /// The members of an object; no members for any other value.
    pub open spec fn members(&self) -> Seq<(Seq<char>, JsonView)> {
        match self.view() {
            JsonView::Object(members) => members,
            _ => Seq::empty(),
        }
    }
}

/// The value of the first member named `key`.
pub open spec fn member(members: Seq<(Seq<char>, JsonView)>, key: Seq<char>) -> Option<JsonView>
    decreases members.len(),
{
    if members.len() == 0 {
        None
    } else if members[0].0 == key {
        Some(members[0].1)
    } else {
        member(members.drop_first(), key)
    }
}

/// `serde_json::Value`, the parser's own tree.
#[verifier::external_type_specification]
#[verifier::external_body]
pub struct ExValue(serde_json::Value);

/// `serde_json::Error`.
#[verifier::external_type_specification]
#[verifier::external_body]
pub struct ExError(serde_json::Error);

/// What a `serde_json::Value` holds.
pub uninterp spec fn value_of(v: serde_json::Value) -> JsonView;

/// What `serde_json::from_str` makes of a text: the value, or the text of its error.
pub uninterp spec fn json_of(text: Seq<char>) -> Result<JsonView, Seq<char>>;

/// One level of a `serde_json::Value`.
pub enum Node<'a> {
    Null,
    Bool(bool),
    Number,
    Text(&'a str),
    Array(&'a Vec<serde_json::Value>),
    Object(Vec<(&'a String, &'a serde_json::Value)>),
}

/// The variant of a `serde_json::Value` with its fields: a scalar, the elements of an array, or
/// the members that `serde_json::Map::iter` walks, in that order.
#[verifier::external_body]
fn node<'a>(v: &'a serde_json::Value) -> (r: Node<'a>)
    ensures
        match r {
            Node::Null => value_of(*v) == JsonView::Null,
            Node::Bool(b) => value_of(*v) == JsonView::Bool(b),
            Node::Number => value_of(*v) == JsonView::Number,
            Node::Text(s) => value_of(*v) == JsonView::Text(s@),
            Node::Array(items) => value_of(*v) == JsonView::Array(
                Seq::new(items@.len(), |i: int| value_of(items@[i])),
            ),
            Node::Object(members) => value_of(*v) == JsonView::Object(
                Seq::new(members@.len(), |i: int| ((*members@[i].0)@, value_of(*members@[i].1))),
            ),
        },
{
    match v {
        serde_json::Value::Null => Node::Null,
        serde_json::Value::Bool(b) => Node::Bool(*b),
        serde_json::Value::Number(_) => Node::Number,
        serde_json::Value::String(s) => Node::Text(s.as_str()),
        serde_json::Value::Array(items) => Node::Array(items),
        serde_json::Value::Object(members) => Node::Object(members.iter().collect()),
    }
}

/// `serde_json::from_str`: the value that the text writes, or the text of the error. The outcome
/// depends on the text alone.
#[verifier::external_body]
fn from_str(text: &str) -> (r: Result<serde_json::Value, String>)
    ensures
        match r {
            Ok(v) => json_of(text@) == Ok::<JsonView, Seq<char>>(value_of(v)),
            Err(e) => json_of(text@) == Err::<JsonView, Seq<char>>(e@),
        },
{
    serde_json::from_str(text).map_err(|e| e.to_string())
}

/// A hexadecimal digit, in lower case.
pub open spec fn hex_digit(d: int) -> char {
    if d < 10 {
        (48 + d) as char
    } else {
        (87 + d) as char
    }
}

/// One character inside a JSON string literal.
pub open spec fn escaped(c: char) -> Seq<char> {
    if c == '"' {
        seq!['\\', '"']
    } else if c == '\\' {
        seq!['\\', '\\']
    } else if c as u32 == 8 {
        seq!['\\', 'b']
    } else if c as u32 == 12 {
        seq!['\\', 'f']
    } else if c == '\n' {
        seq!['\\', 'n']
    } else if c == '\r' {
        seq!['\\', 'r']
    } else if c == '\t' {
        seq!['\\', 't']
    } else if (c as u32) < 32 {
        seq!['\\', 'u', '0', '0', hex_digit(c as int / 16), hex_digit(c as int % 16)]
    } else {
        seq![c]
    }
}

/// The characters of `s` as they stand inside a JSON string literal.
pub open spec fn escaped_text(s: Seq<char>) -> Seq<char>
    decreases s.len(),
{
    if s.len() == 0 {
        seq![]
    } else {
        escaped_text(s.drop_last()) + escaped(s.last())
    }
}

/// The JSON string literal of `s`.
pub open spec fn literal(s: Seq<char>) -> Seq<char> {
    seq!['"'] + escaped_text(s) + seq!['"']
}

/// `serde_json::to_string` on a `str`: the quoted literal. Quotes, backslashes and the control
/// characters below U+0020 are escaped, every other character stands for itself; writing a string
/// to memory does not fail.
#[verifier::external_body]
pub(crate) fn to_string(text: &str) -> (r: Result<String, serde_json::Error>)
    ensures
        match r {
            Ok(s) => s@ == literal(text@),
            Err(_) => false,
        },
{
    serde_json::to_string(text)
}

/// The plain value of a parser's tree.
fn read(v: &serde_json::Value) -> (r: Json)
    ensures
        r.view() == value_of(*v),
    decreases value_of(*v),
{
    match node(v) {
        Node::Null => Json::Null,
        Node::Bool(b) => Json::Bool(b),
        Node::Number => Json::Number,
        Node::Text(s) => Json::Text(s.to_owned()),
        Node::Array(items) => {
            let mut out: Vec<Json> = Vec::new();
            for i in 0..items.len()
                invariant
                    value_of(*v) == JsonView::Array(
                        Seq::new(items@.len(), |i: int| value_of(items@[i])),
                    ),
                    out@.len() == i,
                    forall|j: int| 0 <= j < i ==> (#[trigger] out@[j]).view() == value_of(items@[j]),
            {
                assert(value_of(*v)->Array_0[i as int] == value_of(items@[i as int]));
                out.push(read(&items[i]));
            }
            let r = Json::Array(out);
            assert(r.view()->Array_0 =~= value_of(*v)->Array_0);
            r
        },
        Node::Object(members) => {
            let mut out: Vec<(String, Json)> = Vec::new();
            for i in 0..members.len()
                invariant
                    value_of(*v) == JsonView::Object(
                        Seq::new(
                            members@.len(),
                            |i: int| ((*members@[i].0)@, value_of(*members@[i].1)),
                        ),
                    ),
                    out@.len() == i,
                    forall|j: int|
                        0 <= j < i ==> (#[trigger] out@[j]).0@ == (*members@[j].0)@
                            && out@[j].1.view() == value_of(*members@[j].1),
            {
                let (k, m) = &members[i];
                assert(value_of(*v)->Object_0[i as int].1 == value_of(*members@[i as int].1));
                out.push(((*k).clone(), read(*m)));
            }
            let r = Json::Object(out);
            assert(r.view()->Object_0 =~= value_of(*v)->Object_0);
            r
        },
    }
}

/// The value that `text` writes, or the text of the parse error.
pub fn parse(text: &str) -> (r: Result<Json, String>)
    ensures
        match r {
            Ok(v) => json_of(text@) == Ok::<JsonView, Seq<char>>(v.view()),
            Err(e) => json_of(text@) == Err::<JsonView, Seq<char>>(e@),
        },
{
    match from_str(text) {
        Ok(v) => Ok(read(&v)),
        Err(e) => Err(e),
    }
}

/// The members of the object `v`, as views.
pub open spec fn views(members: Seq<(String, Json)>) -> Seq<(Seq<char>, JsonView)> {
    Seq::new(members.len(), |i: int| (members[i].0@, members[i].1.view()))
}

/// The views of the members are the members of the view.
pub proof fn lemma_views(v: Json)
    ensures
        v matches Json::Object(members) ==> v.view() == JsonView::Object(views(members@)),
{
    if let Json::Object(members) = v {
        assert(v.view()->Object_0 =~= views(members@));
    }
}

/// The value of the first member named `key`.
pub fn find_member<'a>(members: &'a Vec<(String, Json)>, key: &str) -> (r: Option<&'a Json>)
    ensures
        match r {
            Some(v) => member(views(members@), key@) == Some(v.view()),
            None => member(views(members@), key@) is None,
        },
{
    assert(views(members@).skip(0) == views(members@));
    for i in 0..members.len()
        invariant
            member(views(members@), key@) == member(views(members@).skip(i as int), key@),
    {
        if crate::text::same_text(members[i].0.as_str(), key) {
            return Some(&members[i].1);
        }
        assert(views(members@).skip(i as int).drop_first() == views(members@).skip(i + 1));
    }
    None
}

/// The number of a hexadecimal digit in lower case.
pub open spec fn hex_value(c: char) -> int {
    if c as int <= 57 {
        c as int - 48
    } else {
        c as int - 87
    }
}

/// The character that a backslash and another character stand for.
pub open spec fn unescaped_char(c: char) -> char {
    if c == 'b' {
        8 as char
    } else if c == 'f' {
        12 as char
    } else if c == 'n' {
        '\n'
    } else if c == 'r' {
        '\r'
    } else if c == 't' {
        '\t'
    } else {
        c
    }
}

/// What the characters inside a JSON string literal stand for.
pub open spec fn unescaped(s: Seq<char>) -> Seq<char>
    decreases s.len(),
{
    if s.len() == 0 {
        seq![]
    } else if s[0] != '\\' {
        seq![s[0]] + unescaped(s.skip(1))
    } else if s.len() >= 6 && s[1] == 'u' {
        seq![
            (hex_value(s[2]) * 0x1000 + hex_value(s[3]) * 0x100 + hex_value(s[4]) * 0x10
                + hex_value(s[5])) as char,
        ] + unescaped(s.skip(6))
    } else if s.len() >= 2 {
        seq![unescaped_char(s[1])] + unescaped(s.skip(2))
    } else {
        seq![]
    }
}

/// A literal starts with its first character's.
proof fn lemma_escaped_first(s: Seq<char>)
    requires
        s.len() > 0,
    ensures
        escaped_text(s) == escaped(s[0]) + escaped_text(s.drop_first()),
    decreases s.len(),
{
    if s.len() == 1 {
        assert(s.drop_last() =~= Seq::<char>::empty());
        assert(s.drop_first() =~= Seq::<char>::empty());
        assert(escaped_text(s) =~= escaped(s[0]) + escaped_text(s.drop_first()));
    } else {
        let d = s.drop_last();
        lemma_escaped_first(d);
        assert(d.drop_first() =~= s.drop_first().drop_last());
        assert(escaped_text(s) =~= escaped(s[0]) + escaped_text(s.drop_first()));
    }
}

/// One character reads back.
proof fn lemma_escaped_char(c: char, rest: Seq<char>)
    ensures
        unescaped(escaped(c) + rest) == seq![c] + unescaped(rest),
{
    let s = escaped(c) + rest;
    let n = escaped(c).len() as int;
    assert(s.skip(n) =~= rest);
    assert(s[0] == escaped(c)[0]);
    if n >= 2 {
        assert(s[1] == escaped(c)[1]);
    }
    if n == 6 {
        assert(s[2] == '0' && s[3] == '0');
        assert(s[4] == hex_digit(c as int / 16));
        assert(s[5] == hex_digit(c as int % 16));
        assert(hex_value(s[4]) == c as int / 16);
        assert(hex_value(s[5]) == c as int % 16);
    }
}

/// A literal says what was written: reading it gives the text back, so different texts have different
/// literals.
pub proof fn law_literals_read_back(s: Seq<char>)
    ensures
        unescaped(escaped_text(s)) == s,
    decreases s.len(),
{
    if s.len() > 0 {
        let rest = s.drop_first();
        lemma_escaped_first(s);
        lemma_escaped_char(s[0], escaped_text(rest));
        law_literals_read_back(rest);
        assert(seq![s[0]] + rest =~= s);
    }
}

/// Whether the characters inside a literal do not end it: no quote stands among them but behind its
/// own backslash, and no control character does.
pub open spec fn closed_literal(s: Seq<char>) -> bool
    decreases s.len(),
{
    if s.len() == 0 {
        true
    } else if s[0] == '\\' {
        s.len() >= 2 && s[1] as u32 >= 32 && closed_literal(s.skip(2))
    } else {
        s[0] != '"' && s[0] as u32 >= 32 && closed_literal(s.skip(1))
    }
}

/// One escaped character does not end its literal.
proof fn lemma_char_is_closed(c: char, t: Seq<char>)
    requires
        closed_literal(t),
    ensures
        closed_literal(escaped(c) + t),
{
    let e = escaped(c);
    assert((e + t).skip(e.len() as int) =~= t);
    assert((e + t)[0] == e[0]);
    if e.len() >= 2 {
        assert((e + t)[1] == e[1]);
    }
    if e.len() == 6 {
        let hex1 = hex_digit(c as int / 16);
        let hex2 = hex_digit(c as int % 16);
        let digits = seq!['0', '0', hex1, hex2] + t;
        assert((e + t).skip(2) =~= digits);
        assert(digits.skip(1).skip(1).skip(1).skip(1) =~= t);
        assert(closed_literal(digits.skip(1).skip(1).skip(1)));
        assert(closed_literal(digits.skip(1).skip(1)));
        assert(closed_literal(digits.skip(1)));
        assert(closed_literal(digits));
    }
}

/// What is escaped does not end its literal.
pub proof fn lemma_escaped_is_closed(s: Seq<char>)
    ensures
        closed_literal(escaped_text(s)),
    decreases s.len(),
{
    if s.len() > 0 {
        lemma_escaped_first(s);
        lemma_escaped_is_closed(s.drop_first());
        lemma_char_is_closed(s[0], escaped_text(s.drop_first()));
    }
}

/// A member is the first of its name, and there is one exactly where the name occurs.
pub proof fn law_members_go_by_their_names(members: Seq<(Seq<char>, JsonView)>, key: Seq<char>)
    ensures
        member(members, key) matches Some(v) ==> exists|i: int|
            0 <= i < members.len() && #[trigger] members[i] == (key, v) && forall|j: int|
                0 <= j < i ==> (#[trigger] members[j]).0 != key,
        member(members, key) is None ==> forall|j: int|
            0 <= j < members.len() ==> (#[trigger] members[j]).0 != key,
    decreases members.len(),
{
    if members.len() > 0 {
        if members[0].0 == key {
            assert(members[0] == (key, members[0].1));
        } else {
            let rest = members.drop_first();
            law_members_go_by_their_names(rest, key);
            assert forall|j: int| 0 < j < members.len() implies #[trigger] members[j] == rest[j
                - 1] by {}
            if let Some(v) = member(rest, key) {
                let i = choose|i: int|
                    0 <= i < rest.len() && #[trigger] rest[i] == (key, v) && forall|j: int|
                        0 <= j < i ==> (#[trigger] rest[j]).0 != key;
                assert(members[i + 1] == (key, v));
                assert forall|j: int| 0 <= j < i + 1 implies (#[trigger] members[j]).0 != key by {
                    if j > 0 {
                        assert(rest[j - 1].0 != key);
                    }
                }
            } else {
                assert forall|j: int| 0 <= j < members.len() implies (#[trigger] members[j]).0
                    != key by {
                    if j > 0 {
                        assert(rest[j - 1].0 != key);
                    }
                }
            }
        }
    }
}

/// What a value is: arrays and objects are read element by element.
pub proof fn law_values_are_read_element_by_element(v: Json)
    ensures
        v is Null <==> v.view() is Null,
        v is Number <==> v.view() is Number,
        v matches Json::Bool(b) ==> v.view() == JsonView::Bool(b),
        v matches Json::Text(s) ==> v.view() == JsonView::Text(s@),
        v matches Json::Array(items) ==> (v.view() matches JsonView::Array(w) && w.len()
            == items@.len() && forall|i: int|
            0 <= i < w.len() ==> #[trigger] w[i] == items@[i].view()),
        v matches Json::Object(members) ==> (v.view() matches JsonView::Object(w) && w.len()
            == members@.len() && forall|i: int|
            0 <= i < w.len() ==> #[trigger] w[i] == (members@[i].0@, members@[i].1.view())),
{
}

/// A literal is the text between quotes, with a backslash before quotes and backslashes, letters for
/// backspace, form feed, line feed, carriage return and tab, four hexadecimal digits for the other
/// control characters, and every other character as it is.
#[verifier::rlimit(40)]
pub proof fn law_literals_escape_what_json_requires(c: char, s: Seq<char>)
    ensures
        c as u32 == 34 ==> escaped(c) == "\\\""@,
        c as u32 == 92 ==> escaped(c) == "\\\\"@,
        c as u32 == 8 ==> escaped(c) == "\\b"@,
        c as u32 == 12 ==> escaped(c) == "\\f"@,
        c as u32 == 10 ==> escaped(c) == "\\n"@,
        c as u32 == 13 ==> escaped(c) == "\\r"@,
        c as u32 == 9 ==> escaped(c) == "\\t"@,
        (c as u32) < 32 && !set![8u32, 9, 10, 12, 13].contains(c as u32) ==> escaped(c) == "\\u00"@
            + seq![
            "0123456789abcdef"@[c as int / 16],
            "0123456789abcdef"@[c as int % 16],
        ],
        c as u32 >= 32 && c as u32 != 34 && c as u32 != 92 ==> escaped(c) == seq![c],
        literal(s).len() >= 2,
        literal(s)[0] as u32 == 34,
        literal(s).last() as u32 == 34,
        literal(s).drop_first().drop_last() == Seq::new(
            s.len(),
            |i: int| escaped(s[i]),
        ).flatten(),
{
    reveal_strlit("\\\"");
    reveal_strlit("\\\\");
    reveal_strlit("\\b");
    reveal_strlit("\\f");
    reveal_strlit("\\n");
    reveal_strlit("\\r");
    reveal_strlit("\\t");
    reveal_strlit("\\u00");
    lemma_escaped_flat(s);
    assert(literal(s).drop_first().drop_last() =~= escaped_text(s));
    if (c as u32) < 32 {
        lemma_lower_hex(c as int / 16);
        lemma_lower_hex(c as int % 16);
    }
    lemma_named_escapes(c);
}

proof fn lemma_named_escapes(c: char)
    ensures
        c as u32 == 34 <==> c == '"',
        c as u32 == 92 <==> c == '\\',
        c as u32 == 10 <==> c == '\n',
        c as u32 == 13 <==> c == '\r',
        c as u32 == 9 <==> c == '\t',
{
}

proof fn lemma_lower_hex(d: int)
    requires
        0 <= d < 16,
    ensures
        hex_digit(d) == "0123456789abcdef"@[d],
{
    reveal_strlit("0123456789abcdef");
    assert(d == 0 || d == 1 || d == 2 || d == 3 || d == 4 || d == 5 || d == 6 || d == 7 || d == 8
        || d == 9 || d == 10 || d == 11 || d == 12 || d == 13 || d == 14 || d == 15);
}

proof fn lemma_escaped_flat(s: Seq<char>)
    ensures
        escaped_text(s) == Seq::new(s.len(), |i: int| escaped(s[i])).flatten(),
    decreases s.len(),
{
    let parts = Seq::new(s.len(), |i: int| escaped(s[i]));
    if s.len() == 0 {
        assert(escaped_text(s) =~= parts.flatten());
    } else {
        let d = s.drop_last();
        lemma_escaped_flat(d);
        let before = Seq::new(d.len(), |i: int| escaped(d[i]));
        assert(parts =~= before.push(escaped(s.last())));
        before.lemma_flatten_push(escaped(s.last()));
    }
}

/// Members are read place by place.
pub proof fn law_members_are_read_place_by_place(members: Seq<(String, Json)>, v: Json)
    ensures
        views(members).len() == members.len(),
        forall|i: int|
            0 <= i < members.len() ==> #[trigger] views(members)[i] == (
                members[i].0@,
                members[i].1.view(),
            ),
        v matches Json::Object(ms) ==> v.members() == views(ms@),
        !(v is Object) ==> v.members().len() == 0,
{
    lemma_views(v);
}

/// A member found is the value of the first of its name.
pub proof fn law_found_members_are_the_first(
    members: &Vec<(String, Json)>,
    key: &str,
    r: Option<&Json>,
)
    requires
        call_ensures(find_member, (members, key), r),
    ensures
        r is Some <==> exists|i: int|
            0 <= i < members@.len() && (#[trigger] members@[i]).0@ == key@,
        r matches Some(v) ==> exists|i: int|
            0 <= i < members@.len() && (#[trigger] members@[i]).0@ == key@ && members@[i].1.view()
                == v.view() && forall|j: int|
                0 <= j < i ==> (#[trigger] members@[j]).0@ != key@,
{
    let all = views(members@);
    law_members_go_by_their_names(all, key@);
    assert forall|i: int| 0 <= i < all.len() implies #[trigger] all[i] == (
        members@[i].0@,
        members@[i].1.view(),
    ) by {}
    if let Some(v) = r {
        let i = choose|i: int|
            0 <= i < all.len() && #[trigger] all[i] == (key@, v.view()) && forall|j: int|
                0 <= j < i ==> (#[trigger] all[j]).0 != key@;
        assert(members@[i].0@ == key@);
        assert forall|j: int| 0 <= j < i implies (#[trigger] members@[j]).0@ != key@ by {
            assert(all[j].0 != key@);
        }
    } else {
        assert forall|j: int| 0 <= j < members@.len() implies (#[trigger] members@[j]).0@ != key@ by {
            assert(all[j].0 != key@);
        }
    }
}

} // verus!
