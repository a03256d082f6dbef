//! The tools that a request declares, and how Chat Completions knows them.
//!
//! Chat Completions knows only functions. A function of a namespace is known by the
//! name of the namespace and its own, joined by a hyphen. A tool that takes free
//! text is known as a function with one parameter, which holds the text.

use crate::json::{
    array_value, bool_value, copy_value, empty_object, is_ordinary, items_in, json_array, json_bool,
    json_object, json_string, json_text, json_texts, lemma_json_strings_differ, member_of,
    members_of, no_members, object_value, parse_value, parsed_text, read_items, read_member,
    read_string, set_member, string_in, string_member, string_value, value_text,
};
use crate::types::{FunctionTool, Tool};
use serde_json::Value;
use vstd::prelude::*;
use vstd::string::*;

verus! {

// ---------------------------------------------------------------------------
// Tools for Chat Completions
// ---------------------------------------------------------------------------

/// The name by which a function of a namespace is known.
pub open spec fn flat_name(namespace: Seq<char>, name: Seq<char>) -> Seq<char> {
    namespace + "-"@ + name
}

/// A function in the form that Chat Completions takes: the object `function` is
/// nested in it.
pub open spec fn nested(function: Map<Seq<char>, Seq<char>>) -> Seq<char> {
    json_object(
        no_members().insert("type"@, json_string("function"@)).insert(
            "function"@,
            json_object(function),
        ),
    )
}

/// The object `function` of a tool, but for its parameters.
pub open spec fn described(name: Seq<char>, description: Option<String>) -> Map<
    Seq<char>,
    Seq<char>,
> {
    let named = no_members().insert("name"@, json_string(name));
    match description {
        Some(text) => named.insert("description"@, json_string(text@)),
        None => named,
    }
}

/// The object `function` of a declared function that is known as `name`.
pub open spec fn function_members(name: Seq<char>, t: FunctionTool) -> Map<Seq<char>, Seq<char>> {
    let known = described(name, t.description);
    let with_parameters = match t.parameters {
        Some(parameters) => known.insert("parameters"@, json_text(parameters)),
        None => known,
    };
    match t.strict {
        Some(strict) => with_parameters.insert("strict"@, json_bool(strict)),
        None => with_parameters,
    }
}

/// The parameter that holds the text of a custom tool.
pub open spec fn custom_field(name: Seq<char>) -> Seq<char> {
    if name == "apply_patch"@ {
        "patch"@
    } else {
        "input"@
    }
}

/// The schema that requires one string, called `field`.
pub open spec fn one_string(field: Seq<char>) -> Seq<char> {
    let kind = json_object(no_members().insert("type"@, json_string("string"@)));
    json_object(
        no_members().insert("type"@, json_string("object"@)).insert(
            "properties"@,
            json_object(no_members().insert(field, kind)),
        ).insert("required"@, json_array(seq![json_string(field)])),
    )
}

/// The object `function` of a custom tool.
pub open spec fn custom_members(name: Seq<char>, description: Option<String>) -> Map<
    Seq<char>,
    Seq<char>,
> {
    described(name, description).insert("parameters"@, one_string(custom_field(name)))
}

/// A declared tool in the form that Chat Completions takes. A function is nested, a
/// custom tool becomes a function of one string, and a namespace is flattened;
/// anything else is passed on.
pub open spec fn chat_tool(tool: Tool) -> Seq<Seq<char>> {
    match tool {
        Tool::Function(t) => seq![nested(function_members(t.name@, t))],
        Tool::Custom { name, description } => seq![nested(custom_members(name@, description))],
        Tool::Namespace { name, tools } => flattened(name@, tools@, tools@.len() as int),
        Tool::Other(v) => seq![json_text(v)],
    }
}

/// The first `n` functions of a namespace.
pub open spec fn flattened(namespace: Seq<char>, tools: Seq<FunctionTool>, n: int) -> Seq<
    Seq<char>,
>
    decreases n,
{
    if n <= 0 {
        Seq::empty()
    } else {
        let t = tools[n - 1];
        flattened(namespace, tools, n - 1).push(
            nested(function_members(flat_name(namespace, t.name@), t)),
        )
    }
}

/// The first `n` of the declared tools in the form that Chat Completions takes.
pub open spec fn chat_tools(tools: Seq<Tool>, n: int) -> Seq<Seq<char>>
    decreases n,
{
    if n <= 0 {
        Seq::empty()
    } else {
        chat_tools(tools, n - 1) + chat_tool(tools[n - 1])
    }
}

// ---------------------------------------------------------------------------
// Calls of tools
// ---------------------------------------------------------------------------

/// The parameter that holds the text of the tool called `name`, from the `i`-th
/// tool on, if that is a tool of free text: a custom tool, or `apply_patch`
/// declared as a function.
pub open spec fn field_from(tools: Seq<Tool>, i: int, name: Seq<char>) -> Option<Seq<char>>
    decreases tools.len() - i,
{
    if i < 0 || i >= tools.len() {
        None
    } else {
        match own_field(tools[i], name) {
            Some(field) => Some(field),
            None => field_from(tools, i + 1, name),
        }
    }
}

/// The one parameter that a schema requires, if it requires exactly one.
pub open spec fn sole_required(parameters: Option<Value>) -> Option<Seq<char>> {
    match parameters {
        Some(schema) => match member_of(json_text(schema), "required"@) {
            Some(list) => match items_in(list) {
                Some(names) if names.len() == 1 => string_in(names[0]),
                _ => None,
            },
            None => None,
        },
        None => None,
    }
}

/// The parameter that holds the text of `tool`, if it is a tool of free text called
/// `name`.
pub open spec fn own_field(tool: Tool, name: Seq<char>) -> Option<Seq<char>> {
    match tool {
        Tool::Custom { name: own, .. } => if own@ == name {
            Some(custom_field(name))
        } else {
            None
        },
        Tool::Function(t) => if t.name@ == name && name == "apply_patch"@ {
            Some(
                match sole_required(t.parameters) {
                    Some(field) => field,
                    None => custom_field(name),
                },
            )
        } else {
            None
        },
        _ => None,
    }
}

/// The namespace and the name of the function that is known as `flat`, from the
/// `i`-th tool on.
pub open spec fn namespace_from(tools: Seq<Tool>, i: int, flat: Seq<char>) -> Option<
    (Seq<char>, Seq<char>),
>
    decreases tools.len() - i,
{
    if i < 0 || i >= tools.len() {
        None
    } else {
        match tools[i] {
            Tool::Namespace { name, tools: functions } => match member_from(
                name@,
                functions@,
                0,
                flat,
            ) {
                Some(own) => Some((name@, own)),
                None => namespace_from(tools, i + 1, flat),
            },
            _ => namespace_from(tools, i + 1, flat),
        }
    }
}

/// The name of the function of a namespace that is known as `flat`, from the `k`-th
/// on.
pub open spec fn member_from(
    namespace: Seq<char>,
    functions: Seq<FunctionTool>,
    k: int,
    flat: Seq<char>,
) -> Option<Seq<char>>
    decreases functions.len() - k,
{
    if k < 0 || k >= functions.len() {
        None
    } else if flat_name(namespace, functions[k].name@) == flat {
        Some(functions[k].name@)
    } else {
        member_from(namespace, functions, k + 1, flat)
    }
}

/// The arguments that hold the text of a tool of free text.
pub open spec fn wrapped(field: Seq<char>, input: Seq<char>) -> Seq<char> {
    string_member(field, input)
}

/// The string that a value holds as its member `field`, if the text is JSON and
/// there is one.
pub open spec fn held_text(arguments: Seq<char>, field: Seq<char>) -> Option<Seq<char>> {
    match parsed_text(arguments) {
        Some(value) => match member_of(value, field) {
            Some(member) => string_in(member),
            None => None,
        },
        None => None,
    }
}

/// The text of a tool of free text, where `found` is what its arguments hold in the
/// parameter for it: that, or else the arguments as they stand.
pub open spec fn text_or(arguments: Seq<char>, found: Option<Seq<char>>) -> Seq<char> {
    match found {
        Some(text) => text,
        None => arguments,
    }
}

// ---------------------------------------------------------------------------
// Executable functions
// ---------------------------------------------------------------------------

/// Sets a member to a string.
pub(crate) fn set_text(m: &mut serde_json::Map<String, Value>, name: &str, text: &str)
    ensures
        members_of(*final(m)) == members_of(*old(m)).insert(name@, json_string(text@)),
{
    set_member(m, name.to_owned(), string_value(text.to_owned()));
}

/// The array that holds one value.
pub(crate) fn array_of_one(v: Value) -> (r: Value)
    ensures
        json_text(r) == json_array(seq![json_text(v)]),
{
    let mut items: Vec<Value> = Vec::new();
    items.push(v);
    assert(json_texts(items@) =~= seq![json_text(v)]);
    array_value(items)
}

/// The name by which a function of a namespace is known.
pub fn join_name(namespace: &str, name: &str) -> (r: String)
    ensures
        r@ == flat_name(namespace@, name@),
{
    let mut r: String = namespace.to_owned();
    r.append("-");
    r.append(name);
    r
}

fn nest(function: serde_json::Map<String, Value>) -> (v: Value)
    ensures
        json_text(v) == nested(members_of(function)),
{
    let mut tool: serde_json::Map<String, Value> = empty_object();
    set_text(&mut tool, "type", "function");
    set_member(&mut tool, "function".to_owned(), object_value(function));
    object_value(tool)
}

fn describe(name: &str, description: &Option<String>) -> (m: serde_json::Map<String, Value>)
    ensures
        members_of(m) == described(name@, *description),
{
    let mut m: serde_json::Map<String, Value> = empty_object();
    set_text(&mut m, "name", name);
    match description {
        Some(text) => set_text(&mut m, "description", text.as_str()),
        None => {},
    }
    m
}

fn function_value(name: &str, t: &FunctionTool) -> (v: Value)
    ensures
        json_text(v) == nested(function_members(name@, *t)),
{
    let mut m: serde_json::Map<String, Value> = describe(name, &t.description);
    match &t.parameters {
        Some(parameters) => set_member(&mut m, "parameters".to_owned(), copy_value(parameters)),
        None => {},
    }
    match t.strict {
        Some(strict) => set_member(&mut m, "strict".to_owned(), bool_value(strict)),
        None => {},
    }
    nest(m)
}

/// The parameter that holds the text of a custom tool.
fn field_for(name: &str) -> (r: String)
    ensures
        r@ == custom_field(name@),
{
    if name.to_owned() == "apply_patch".to_owned() {
        "patch".to_owned()
    } else {
        "input".to_owned()
    }
}

fn custom_value(name: &str, description: &Option<String>) -> (v: Value)
    ensures
        json_text(v) == nested(custom_members(name@, *description)),
{
    let field: String = field_for(name);
    let mut kind: serde_json::Map<String, Value> = empty_object();
    set_text(&mut kind, "type", "string");
    let mut properties: serde_json::Map<String, Value> = empty_object();
    set_member(&mut properties, field.clone(), object_value(kind));
    let mut schema: serde_json::Map<String, Value> = empty_object();
    set_text(&mut schema, "type", "object");
    set_member(&mut schema, "properties".to_owned(), object_value(properties));
    set_member(&mut schema, "required".to_owned(), array_of_one(string_value(field)));
    let mut m: serde_json::Map<String, Value> = describe(name, description);
    set_member(&mut m, "parameters".to_owned(), object_value(schema));
    nest(m)
}

/// The declared tools in the form that Chat Completions takes.
pub fn convert_tools(tools: &Vec<Tool>) -> (r: Vec<Value>)
    ensures
        json_texts(r@) == chat_tools(tools@, tools@.len() as int),
{
    let mut r: Vec<Value> = Vec::new();
    let mut i: usize = 0;
    assert(json_texts(r@) =~= chat_tools(tools@, 0));
    while i < tools.len()
        invariant
            i <= tools@.len(),
            json_texts(r@) == chat_tools(tools@, i as int),
        decreases tools@.len() - i,
    {
        let ghost before = json_texts(r@);
        match &tools[i] {
            Tool::Function(t) => {
                let v: Value = function_value(t.name.as_str(), t);
                r.push(v);
                assert(json_texts(r@) =~= before + seq![json_text(v)]);
            },
            Tool::Custom { name, description } => {
                let v: Value = custom_value(name.as_str(), description);
                r.push(v);
                assert(json_texts(r@) =~= before + seq![json_text(v)]);
            },
            Tool::Namespace { name, tools: functions } => {
                let mut k: usize = 0;
                assert(before + flattened(name@, functions@, 0) =~= before);
                while k < functions.len()
                    invariant
                        k <= functions@.len(),
                        json_texts(r@) == before + flattened(name@, functions@, k as int),
                    decreases functions@.len() - k,
                {
                    let t: &FunctionTool = &functions[k];
                    let ghost so_far = json_texts(r@);
                    let flat: String = join_name(name.as_str(), t.name.as_str());
                    let v: Value = function_value(flat.as_str(), t);
                    r.push(v);
                    proof {
                        assert(json_texts(r@) =~= so_far.push(json_text(v)));
                        assert(before + flattened(name@, functions@, k + 1) =~= so_far.push(
                            json_text(v),
                        ));
                    }
                    k = k + 1;
                }
            },
            Tool::Other(v) => {
                let copy: Value = copy_value(v);
                r.push(copy);
                assert(json_texts(r@) =~= before + seq![json_text(copy)]);
            },
        }
        i = i + 1;
    }
    r
}

/// The one parameter that a schema requires, if it requires exactly one.
fn find_required(parameters: &Option<Value>) -> (r: Option<String>)
    ensures
        match r {
            Some(field) => sole_required(*parameters) == Some(field@),
            None => sole_required(*parameters) is None,
        },
{
    match parameters {
        Some(schema) => match read_member(schema, "required") {
            Some(list) => match read_items(&list) {
                Some(names) => if names.len() == 1 {
                    read_string(&names[0])
                } else {
                    None
                },
                None => None,
            },
            None => None,
        },
        None => None,
    }
}

/// The parameter that holds the text of the tool called `name`, where `found` is the
/// one parameter that it requires, if there is one.
pub fn field_or(name: &str, found: Option<String>) -> (r: String)
    ensures
        r@ == match found {
            Some(field) => field@,
            None => custom_field(name@),
        },
{
    match found {
        Some(field) => field,
        None => field_for(name),
    }
}

/// The parameter that holds the text of the tool called `name`, if it is a tool of
/// free text.
pub fn free_text_field(tools: &Vec<Tool>, name: &str) -> (r: Option<String>)
    ensures
        match r {
            Some(field) => field_from(tools@, 0, name@) == Some(field@),
            None => field_from(tools@, 0, name@) is None,
        },
{
    let wanted: String = name.to_owned();
    let mut i: usize = 0;
    while i < tools.len()
        invariant
            i <= tools@.len(),
            wanted@ == name@,
            field_from(tools@, 0, name@) == field_from(tools@, i as int, name@),
        decreases tools@.len() - i,
    {
        match &tools[i] {
            Tool::Custom { name: own, .. } => {
                if *own == wanted {
                    return Some(field_for(name));
                }
            },
            Tool::Function(t) => {
                if t.name == wanted && wanted == "apply_patch".to_owned() {
                    return Some(field_or(name, find_required(&t.parameters)));
                }
            },
            _ => {},
        }
        i = i + 1;
    }
    None
}

/// The namespace and the name of the function that is known as `flat`.
pub fn split_name(tools: &Vec<Tool>, flat: &str) -> (r: Option<(String, String)>)
    ensures
        match r {
            Some((namespace, name)) => namespace_from(tools@, 0, flat@) == Some(
                (namespace@, name@),
            ),
            None => namespace_from(tools@, 0, flat@) is None,
        },
{
    let wanted: String = flat.to_owned();
    let mut i: usize = 0;
    while i < tools.len()
        invariant
            i <= tools@.len(),
            wanted@ == flat@,
            namespace_from(tools@, 0, flat@) == namespace_from(tools@, i as int, flat@),
        decreases tools@.len() - i,
    {
        match &tools[i] {
            Tool::Namespace { name, tools: functions } => {
                let mut k: usize = 0;
                while k < functions.len()
                    invariant
                        i < tools@.len(),
                        k <= functions@.len(),
                        wanted@ == flat@,
                        tools@[i as int] == (Tool::Namespace { name: *name, tools: *functions }),
                        namespace_from(tools@, 0, flat@) == namespace_from(
                            tools@,
                            i as int,
                            flat@,
                        ),
                        member_from(name@, functions@, 0, flat@) == member_from(
                            name@,
                            functions@,
                            k as int,
                            flat@,
                        ),
                    decreases functions@.len() - k,
                {
                    let own: &String = &functions[k].name;
                    if join_name(name.as_str(), own.as_str()) == wanted {
                        return Some((name.clone(), own.clone()));
                    }
                    k = k + 1;
                }
            },
            _ => {},
        }
        i = i + 1;
    }
    None
}

/// The arguments that hold the text of a tool of free text.
pub fn wrap_text(field: &str, input: &str) -> (r: String)
    ensures
        r@ == wrapped(field@, input@),
{
    let mut m: serde_json::Map<String, Value> = empty_object();
    set_text(&mut m, field, input);
    value_text(&object_value(m))
}

/// The string that the arguments of a call hold as their member `field`.
fn find_text(arguments: &str, field: &str) -> (r: Option<String>)
    ensures
        match r {
            Some(text) => held_text(arguments@, field@) == Some(text@),
            None => held_text(arguments@, field@) is None,
        },
        forall|input: Seq<char>|
            is_ordinary(field@) && arguments@ == #[trigger] wrapped(field@, input) ==> (
            r matches Some(text) && text@ == input),
{
    let r: Option<String> = match parse_value(arguments) {
        Ok(value) => match read_member(&value, field) {
            Some(member) => read_string(&member),
            None => None,
        },
        Err(_) => None,
    };
    proof {
        assert forall|input: Seq<char>|
            is_ordinary(field@) && arguments@ == #[trigger] wrapped(field@, input) implies (
        r matches Some(text) && text@ == input) by {
            assert(arguments@ == string_member(field@, input));
            if let Some(text) = r {
                assert(json_string(text@) == json_string(input));
                lemma_json_strings_differ(text@, input);
            }
        }
    }
    r
}

/// The text of a tool of free text, where `found` is what its arguments hold in the
/// parameter for it.
pub fn text_from(arguments: &str, found: Option<String>) -> (r: String)
    ensures
        r@ == text_or(
            arguments@,
            match found {
                Some(text) => Some(text@),
                None => None,
            },
        ),
{
    match found {
        Some(text) => text,
        None => arguments.to_owned(),
    }
}

/// The text that the arguments of a tool of free text hold. Where they were made to hold
/// a text, it is that text.
pub fn unwrap_text(arguments: &str, field: &str) -> (r: String)
    ensures
        r@ == text_or(arguments@, held_text(arguments@, field@)),
        forall|input: Seq<char>|
            is_ordinary(field@) && arguments@ == #[trigger] wrapped(field@, input) ==> r@ == input,
{
    text_from(arguments, find_text(arguments, field))
}

// ---------------------------------------------------------------------------
// Laws
// ---------------------------------------------------------------------------

/// A function of a namespace is known by a name from which its namespace and its
/// own name are found again, if no earlier tool has a function known by that name.
pub proof fn law_flat_name_is_reversible(tools: Seq<Tool>, i: int, k: int)
    requires
        0 <= i < tools.len(),
        tools[i] is Namespace,
        0 <= k < tools[i]->Namespace_tools@.len(),
        forall|j: int|
            0 <= j < i && (#[trigger] tools[j]) is Namespace ==> member_from(
                tools[j]->Namespace_name@,
                tools[j]->Namespace_tools@,
                0,
                flat_name(tools[i]->Namespace_name@, tools[i]->Namespace_tools@[k].name@),
            ) is None,
    ensures
        namespace_from(
            tools,
            0,
            flat_name(tools[i]->Namespace_name@, tools[i]->Namespace_tools@[k].name@),
        ) == Some((tools[i]->Namespace_name@, tools[i]->Namespace_tools@[k].name@)),
{
    let namespace = tools[i]->Namespace_name@;
    let functions = tools[i]->Namespace_tools@;
    let flat = flat_name(namespace, functions[k].name@);
    lemma_member_found(namespace, functions, 0, k);
    lemma_skip_tools(tools, 0, i, flat);
}

proof fn lemma_member_found(
    namespace: Seq<char>,
    functions: Seq<FunctionTool>,
    from: int,
    k: int,
)
    requires
        0 <= from <= k < functions.len(),
    ensures
        member_from(namespace, functions, from, flat_name(namespace, functions[k].name@)) == Some(
            functions[k].name@,
        ),
    decreases k - from,
{
    let flat = flat_name(namespace, functions[k].name@);
    let own = functions[from].name@;
    if flat_name(namespace, own) == flat {
        let n = (namespace + "-"@).len() as int;
        assert(flat_name(namespace, own).skip(n) =~= own);
        assert(flat.skip(n) =~= functions[k].name@);
    } else {
        lemma_member_found(namespace, functions, from + 1, k);
    }
}

proof fn lemma_skip_tools(tools: Seq<Tool>, from: int, i: int, flat: Seq<char>)
    requires
        0 <= from <= i < tools.len(),
        forall|j: int|
            from <= j < i && (#[trigger] tools[j]) is Namespace ==> member_from(
                tools[j]->Namespace_name@,
                tools[j]->Namespace_tools@,
                0,
                flat,
            ) is None,
    ensures
        namespace_from(tools, from, flat) == namespace_from(tools, i, flat),
    decreases i - from,
{
    if from < i {
        assert(tools[from] is Namespace ==> member_from(
            tools[from]->Namespace_name@,
            tools[from]->Namespace_tools@,
            0,
            flat,
        ) is None);
        lemma_skip_tools(tools, from + 1, i, flat);
    }
}

} // verus!
