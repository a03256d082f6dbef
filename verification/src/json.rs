//! JSON values, as `serde_json` reads and writes them.
//!
//! A `serde_json::Value` is known here by its compact text: what its `Display`
//! writes. The functions of this module are the only place where the crate
//! calls into `serde_json`.

use serde_json::{Error, Value};
use vstd::prelude::*;

verus! {

/// `serde_json::Value`: any JSON value.
#[verifier::external_type_specification]
#[verifier::external_body]
pub struct ExValue(Value);

/// `serde_json::Map`: the members of a JSON object.
#[verifier::external_type_specification]
#[verifier::external_body]
#[verifier::reject_recursive_types(K)]
#[verifier::reject_recursive_types(V)]
pub struct ExObject<K, V>(serde_json::Map<K, V>);

/// `serde_json::Error`: why a text is not JSON.
#[verifier::external_type_specification]
#[verifier::external_body]
pub struct ExError(Error);

/// What the value holds, as its compact JSON text.
pub uninterp spec fn json_text(v: Value) -> Seq<char>;

/// What the object holds: the compact JSON text of each member's value, by the
/// member's name.
pub uninterp spec fn members_of(m: serde_json::Map<String, Value>) -> Map<Seq<char>, Seq<char>>;

/// The compact JSON text of the value that `serde_json::from_str` reads from
/// `raw`, if `raw` is JSON.
pub uninterp spec fn parsed_text(raw: Seq<char>) -> Option<Seq<char>>;

/// The compact JSON text of the member `name` of the object whose compact text is
/// `text`, as `Value::get` finds it; nothing where there is no such member or no
/// object.
pub uninterp spec fn member_of(text: Seq<char>, name: Seq<char>) -> Option<Seq<char>>;

/// The string that the value whose compact text is `text` holds, as `Value::as_str`
/// gives it; nothing where it holds none.
pub uninterp spec fn string_in(text: Seq<char>) -> Option<Seq<char>>;

/// The compact JSON texts of the items of the array whose compact text is `text`, as
/// `Value::as_array` gives them; nothing where it is no array.
pub uninterp spec fn items_in(text: Seq<char>) -> Option<Seq<Seq<char>>>;

/// The members of an object that has none.
pub open spec fn no_members() -> Map<Seq<char>, Seq<char>> {
    Map::empty()
}

// ---------------------------------------------------------------------------
// The compact text of strings, arrays, objects and numbers
// ---------------------------------------------------------------------------

/// The character for a value below sixteen, in lower-case hexadecimal.
pub open spec fn hex_digit(n: int) -> char {
    if n < 10 {
        ('0' as int + n) as char
    } else {
        ('a' as int + (n - 10)) as char
    }
}

/// How one character is written inside a JSON string.
pub open spec fn json_char(c: char) -> Seq<char> {
    if c == '"' {
        seq!['\\', '"']
    } else if c == '\\' {
        seq!['\\', '\\']
    } else if c == '\u{8}' {
        seq!['\\', 'b']
    } else if c == '\u{9}' {
        seq!['\\', 't']
    } else if c == '\u{A}' {
        seq!['\\', 'n']
    } else if c == '\u{C}' {
        seq!['\\', 'f']
    } else if c == '\u{D}' {
        seq!['\\', 'r']
    } else if (c as int) < 32 {
        seq!['\\', 'u', '0', '0', hex_digit((c as int) / 16), hex_digit((c as int) % 16)]
    } else {
        seq![c]
    }
}

/// The characters of `s` as they stand inside a JSON string.
pub open spec fn json_chars(s: Seq<char>) -> Seq<char>
    decreases s.len(),
{
    if s.len() == 0 {
        Seq::empty()
    } else {
        json_chars(s.drop_last()) + json_char(s.last())
    }
}

/// The JSON string for `s`.
pub open spec fn json_string(s: Seq<char>) -> Seq<char> {
    seq!['"'] + json_chars(s) + seq!['"']
}

/// The JSON word for `b`.
pub open spec fn json_bool(b: bool) -> Seq<char> {
    if b {
        "true"@
    } else {
        "false"@
    }
}

/// The texts of `items`, a comma between each and the next.
pub open spec fn comma_separated(items: Seq<Seq<char>>) -> Seq<char>
    decreases items.len(),
{
    if items.len() == 0 {
        Seq::empty()
    } else if items.len() == 1 {
        items[0]
    } else {
        comma_separated(items.drop_last()) + seq![','] + items.last()
    }
}

/// The compact texts of a list of JSON values.
pub open spec fn json_texts(values: Seq<Value>) -> Seq<Seq<char>> {
    values.map_values(|v: Value| json_text(v))
}

/// The JSON array of values with the given texts.
pub open spec fn json_array(items: Seq<Seq<char>>) -> Seq<char> {
    seq!['['] + comma_separated(items) + seq![']']
}

/// Whether `a` comes before `b`, character by character.
pub open spec fn precedes(a: Seq<char>, b: Seq<char>) -> bool {
    exists|n: int|
        #![trigger a.take(n)]
        {
            &&& 0 <= n <= a.len()
            &&& n < b.len()
            &&& a.take(n) == b.take(n)
            &&& (n == a.len() || a[n] < b[n])
        }
}

/// Whether `keys` lists the names of `members`, each once, in ascending order.
pub open spec fn lists_in_order(keys: Seq<Seq<char>>, members: Map<Seq<char>, Seq<char>>) -> bool {
    &&& forall|i: int, j: int| 0 <= i < j < keys.len() ==> precedes(keys[i], keys[j])
    &&& forall|k: Seq<char>| #[trigger] keys.contains(k) <==> members.contains_key(k)
}

/// The JSON object with the given members, whose names stand in ascending order.
pub open spec fn json_object(members: Map<Seq<char>, Seq<char>>) -> Seq<char> {
    let keys = choose|keys: Seq<Seq<char>>| lists_in_order(keys, members);
    seq!['{'] + comma_separated(
        keys.map_values(|k: Seq<char>| json_string(k) + seq![':'] + members[k]),
    ) + seq!['}']
}

/// The JSON object whose one member is a string.
pub open spec fn string_member(name: Seq<char>, s: Seq<char>) -> Seq<char> {
    json_object(no_members().insert(name, json_string(s)))
}

/// Whether `serde_json` gives no meaning of its own to a member of that name.
pub open spec fn is_ordinary(name: Seq<char>) -> bool {
    name != "$serde_json::private::RawValue"@ && name != "$serde_json::private::Number"@
}

/// Whether `text` is the JSON object whose one member is a string, of an ordinary name.
pub open spec fn is_string_member(text: Seq<char>) -> bool {
    exists|name: Seq<char>, s: Seq<char>|
        is_ordinary(name) && text == #[trigger] string_member(name, s)
}

/// `n` in decimal digits.
pub open spec fn decimal(n: nat) -> Seq<char>
    decreases n,
{
    if n < 10 {
        seq![('0' as int + n) as char]
    } else {
        decimal(n / 10).push(('0' as int + n % 10) as char)
    }
}

// ---------------------------------------------------------------------------
// Strings are told apart by their JSON text
// ---------------------------------------------------------------------------

/// No character is written like the beginning of another.
proof fn lemma_json_char(c: char, x: Seq<char>, d: char, y: Seq<char>)
    requires
        json_char(c) + x == json_char(d) + y,
    ensures
        c == d,
        x == y,
{
    let all = json_char(c) + x;
    assert(all[0] == json_char(c)[0] && all[0] == json_char(d)[0]);
    if all[0] == '\\' {
        assert(all[1] == json_char(c)[1] && all[1] == json_char(d)[1]);
        if all[1] == 'u' {
            assert(all[4] == json_char(c)[4] && all[4] == json_char(d)[4]);
            assert(all[5] == json_char(c)[5] && all[5] == json_char(d)[5]);
        }
    }
    assert(x =~= all.skip(json_char(c).len() as int));
    assert(y =~= all.skip(json_char(d).len() as int));
}

proof fn lemma_json_chars_front(s: Seq<char>)
    requires
        s.len() > 0,
    ensures
        json_chars(s) == json_char(s[0]) + json_chars(s.skip(1)),
    decreases s.len(),
{
    if s.len() == 1 {
        assert(json_chars(s.drop_last()) =~= Seq::empty());
        assert(json_chars(s.skip(1)) =~= Seq::empty());
        assert(json_chars(s) =~= json_char(s[0]) + json_chars(s.skip(1)));
    } else {
        lemma_json_chars_front(s.drop_last());
        assert(s.drop_last().skip(1) =~= s.skip(1).drop_last());
        assert(json_chars(s) =~= json_char(s[0]) + json_chars(s.skip(1)));
    }
}

proof fn lemma_json_chars_differ(s: Seq<char>, t: Seq<char>)
    requires
        json_chars(s) == json_chars(t),
    ensures
        s == t,
    decreases s.len(),
{
    if s.len() > 0 && t.len() > 0 {
        lemma_json_chars_front(s);
        lemma_json_chars_front(t);
        lemma_json_char(s[0], json_chars(s.skip(1)), t[0], json_chars(t.skip(1)));
        lemma_json_chars_differ(s.skip(1), t.skip(1));
        assert(s =~= seq![s[0]] + s.skip(1));
        assert(t =~= seq![t[0]] + t.skip(1));
    } else if s.len() > 0 {
        lemma_json_chars_front(s);
    } else if t.len() > 0 {
        lemma_json_chars_front(t);
    } else {
        assert(s =~= t);
    }
}

/// Two strings with the same JSON text are the same.
pub proof fn lemma_json_strings_differ(s: Seq<char>, t: Seq<char>)
    requires
        json_string(s) == json_string(t),
    ensures
        s == t,
{
    let n = json_string(s).len() - 1;
    assert(json_string(s).subrange(1, n) =~= json_chars(s));
    assert(json_string(t).subrange(1, n) =~= json_chars(t));
    lemma_json_chars_differ(s, t);
}

// ---------------------------------------------------------------------------
// The calls into serde_json
// ---------------------------------------------------------------------------

/// `Value::String`: the value that holds `s`. Its compact text is the quoted
/// string, with `"`, `\` and the control characters escaped.
#[verifier::external_body]
pub(crate) fn string_value(s: String) -> (v: Value)
    ensures
        json_text(v) == json_string(s@),
        string_in(json_text(v)) == Some(s@),
{
    Value::String(s)
}

/// `Value::from` for `u64`: the value that holds the number. Its compact text is
/// the number in decimal.
#[verifier::external_body]
pub(crate) fn number_value(n: u64) -> (v: Value)
    ensures
        json_text(v) == decimal(n as nat),
{
    Value::from(n)
}

/// `Value::Bool`: the value that holds `b`. Its compact text is the word for it.
#[verifier::external_body]
pub(crate) fn bool_value(b: bool) -> (v: Value)
    ensures
        json_text(v) == json_bool(b),
{
    Value::Bool(b)
}

/// `Value::Array`: the value that holds `items`. Its compact text stands in
/// brackets, the texts of the items in order, separated by commas.
#[verifier::external_body]
pub(crate) fn array_value(items: Vec<Value>) -> (v: Value)
    ensures
        json_text(v) == json_array(json_texts(items@)),
{
    Value::Array(items)
}

/// `Value::Object`: the value with the members of `m`. Its compact text stands in
/// braces, the members in ascending order of their names, separated by commas.
#[verifier::external_body]
pub(crate) fn object_value(m: serde_json::Map<String, Value>) -> (v: Value)
    ensures
        json_text(v) == json_object(members_of(m)),
{
    Value::Object(m)
}

/// `serde_json::from_str`: the value that `raw` denotes, or an error where `raw`
/// is not JSON. Which texts are JSON, and the text of the value, is left to the
/// name `parsed_text`, but for the compact text of an object whose one member is a
/// string: it is read as that object. Two names of members are left out there, by which
/// the crate writes values of its own.
#[verifier::external_body]
pub(crate) fn parse_value(raw: &str) -> (r: Result<Value, Error>)
    ensures
        match r {
            Ok(v) => {
                &&& parsed_text(raw@) == Some(json_text(v))
                &&& is_string_member(raw@) ==> json_text(v) == raw@
            },
            Err(_) => parsed_text(raw@) is None && !is_string_member(raw@),
        },
{
    serde_json::from_str(raw)
}

/// `Display` of `Value`, by way of `to_string`: the compact text of the value.
#[verifier::external_body]
pub(crate) fn value_text(v: &Value) -> (r: String)
    ensures
        r@ == json_text(*v),
{
    v.to_string()
}

/// `Value::clone`: a value with the same content.
#[verifier::external_body]
pub(crate) fn copy_value(v: &Value) -> (r: Value)
    ensures
        json_text(r) == json_text(*v),
{
    v.clone()
}

/// `serde_json::Map::new`: an object without members.
#[verifier::external_body]
pub(crate) fn empty_object() -> (m: serde_json::Map<String, Value>)
    ensures
        members_of(m) == no_members(),
{
    serde_json::Map::new()
}

/// `serde_json::Map::contains_key`: whether the object has a member of that name.
#[verifier::external_body]
pub(crate) fn has_member(m: &serde_json::Map<String, Value>, name: &str) -> (r: bool)
    ensures
        r == members_of(*m).contains_key(name@),
{
    m.contains_key(name)
}

/// `serde_json::Map::insert`: sets the member of that name.
#[verifier::external_body]
pub(crate) fn set_member(m: &mut serde_json::Map<String, Value>, name: String, v: Value)
    ensures
        members_of(*final(m)) == members_of(*old(m)).insert(name@, json_text(v)),
{
    m.insert(name, v);
}

/// `serde_json::Map::append`: moves all members of `other` into `m`, in place of
/// those of the same name.
#[verifier::external_body]
pub(crate) fn merge_members(
    m: &mut serde_json::Map<String, Value>,
    other: serde_json::Map<String, Value>,
)
    ensures
        members_of(*final(m)) == members_of(*old(m)).union_prefer_right(members_of(other)),
{
    let mut other = other;
    m.append(&mut other);
}

/// `serde_json::Map::remove`: takes out the member of that name, if there is one.
#[verifier::external_body]
pub(crate) fn drop_member(m: &mut serde_json::Map<String, Value>, name: &str)
    ensures
        members_of(*final(m)) == members_of(*old(m)).remove(name@),
{
    m.remove(name);
}

/// `Value::get`: the member of that name, here copied, if the value is an object
/// and has it. Which it is, is left to the name `member_of`, but for an object whose one
/// member is a string: there it is that string.
#[verifier::external_body]
pub(crate) fn read_member(v: &Value, name: &str) -> (r: Option<Value>)
    ensures
        match r {
            Some(member) => {
                &&& member_of(json_text(*v), name@) == Some(json_text(member))
                &&& forall|s: Seq<char>|
                    json_text(*v) == #[trigger] string_member(name@, s) ==> json_text(member)
                        == json_string(s)
            },
            None => {
                &&& member_of(json_text(*v), name@) is None
                &&& forall|s: Seq<char>| json_text(*v) != #[trigger] string_member(name@, s)
            },
        },
{
    v.get(name).cloned()
}

/// `Value::as_str`: the string that the value holds, here copied, if it is one. It is one
/// where the compact text is that of a string.
#[verifier::external_body]
pub(crate) fn read_string(v: &Value) -> (r: Option<String>)
    ensures
        match r {
            Some(s) => string_in(json_text(*v)) == Some(s@) && json_text(*v) == json_string(s@),
            None => {
                &&& string_in(json_text(*v)) is None
                &&& forall|s: Seq<char>| json_text(*v) != #[trigger] json_string(s)
            },
        },
{
    v.as_str().map(|s| s.to_owned())
}

/// `Value::as_array`: the items of the value, here copied, if it is an array.
#[verifier::external_body]
pub(crate) fn read_items(v: &Value) -> (r: Option<Vec<Value>>)
    ensures
        match r {
            Some(items) => items_in(json_text(*v)) == Some(json_texts(items@)) && json_text(*v)
                == json_array(json_texts(items@)),
            None => items_in(json_text(*v)) is None,
        },
{
    v.as_array().cloned()
}

} // verus!
