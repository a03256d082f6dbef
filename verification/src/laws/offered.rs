//! The tools that are offered to upstream, and how their calls are told apart.

use crate::json::{
    items_in, json_array, json_bool, json_object, json_string, json_text, member_of, no_members,
    string_in,
};
use crate::tools::{
    chat_tool, chat_tools, custom_members, field_from, flattened, function_members, member_from,
    namespace_from, nested,
};
use crate::types::{FunctionTool, Tool};
use serde_json::Value;
use vstd::prelude::*;
use vstd::string::*;

verus! {

// ---------------------------------------------------------------------------
// Functions as JSON
// ---------------------------------------------------------------------------

/// Whether `text` is the JSON of a function of Chat Completions with that name, and
/// with the description, the parameters and the strict flag that are given, and with
/// nothing else.
pub open spec fn is_function(
    text: Seq<char>,
    name: Seq<char>,
    description: Option<String>,
    parameters: Option<Seq<char>>,
    strict: Option<bool>,
) -> bool {
    exists|f: Map<Seq<char>, Seq<char>>|
        {
            &&& text == json_object(
                no_members().insert("type"@, json_string("function"@)).insert(
                    "function"@,
                    #[trigger] json_object(f),
                ),
            )
            &&& f.contains_key("name"@) && f["name"@] == json_string(name)
            &&& f.contains_key("description"@) == (description is Some)
            &&& description matches Some(d) ==> f["description"@] == json_string(d@)
            &&& f.contains_key("parameters"@) == (parameters is Some)
            &&& parameters matches Some(p) ==> f["parameters"@] == p
            &&& f.contains_key("strict"@) == (strict is Some)
            &&& strict matches Some(s) ==> f["strict"@] == json_bool(s)
            &&& forall|key: Seq<char>| #[trigger]
                f.contains_key(key) ==> key == "name"@ || key == "description"@ || key
                    == "parameters"@ || key == "strict"@
        }
}

/// The JSON text of the schema of a function.
pub open spec fn schema_of(parameters: Option<Value>) -> Option<Seq<char>> {
    match parameters {
        Some(schema) => Some(json_text(schema)),
        None => None,
    }
}

/// Whether `text` is the JSON of the declared function `t`, known by `name`.
pub open spec fn offers(text: Seq<char>, name: Seq<char>, t: FunctionTool) -> bool {
    is_function(text, name, t.description, schema_of(t.parameters), t.strict)
}

/// The names of the members of a function differ.
proof fn lemma_member_names()
    ensures
        "name"@ != "description"@,
        "name"@ != "parameters"@,
        "name"@ != "strict"@,
        "description"@ != "parameters"@,
        "description"@ != "strict"@,
        "parameters"@ != "strict"@,
{
    reveal_strlit("name");
    reveal_strlit("description");
    reveal_strlit("parameters");
    reveal_strlit("strict");
    assert("name"@.len() == 4 && "description"@.len() == 11);
    assert("parameters"@.len() == 10 && "strict"@.len() == 6);
}

proof fn lemma_function(name: Seq<char>, t: FunctionTool)
    ensures
        offers(nested(function_members(name, t)), name, t),
{
    lemma_member_names();
    let f = function_members(name, t);
    assert(json_object(f) == json_object(f));
}

// ---------------------------------------------------------------------------
// All tools, in their places
// ---------------------------------------------------------------------------

/// The number of functions that the first `n` declared tools stand for: a namespace
/// stands for each of its functions, any other tool for one.
pub open spec fn functions_before(tools: Seq<Tool>, n: int) -> int
    decreases n,
{
    if n <= 0 {
        0
    } else {
        functions_before(tools, n - 1) + match tools[n - 1] {
            Tool::Namespace { tools: functions, .. } => functions@.len() as int,
            _ => 1,
        }
    }
}

proof fn lemma_flattened(namespace: Seq<char>, functions: Seq<FunctionTool>, n: int)
    requires
        0 <= n <= functions.len(),
    ensures
        flattened(namespace, functions, n).len() == n,
        forall|k: int|
            0 <= k < n ==> offers(
                #[trigger] flattened(namespace, functions, n)[k],
                namespace + "-"@ + functions[k].name@,
                functions[k],
            ),
    decreases n,
{
    if n > 0 {
        lemma_flattened(namespace, functions, n - 1);
        let t = functions[n - 1];
        lemma_function(namespace + "-"@ + t.name@, t);
        let all = flattened(namespace, functions, n);
        let before = flattened(namespace, functions, n - 1);
        assert forall|k: int| 0 <= k < n implies offers(
            #[trigger] all[k],
            namespace + "-"@ + functions[k].name@,
            functions[k],
        ) by {
            if k < n - 1 {
                assert(all[k] == before[k]);
            }
        }
    }
}

proof fn lemma_one_tool(tool: Tool)
    ensures
        chat_tool(tool).len() == match tool {
            Tool::Namespace { tools: functions, .. } => functions@.len() as int,
            _ => 1,
        },
{
    if let Tool::Namespace { name, tools: functions } = tool {
        lemma_flattened(name@, functions@, functions@.len() as int);
    }
}

proof fn lemma_places(tools: Seq<Tool>, n: int, i: int)
    requires
        0 <= i < n <= tools.len(),
    ensures
        0 <= functions_before(tools, i),
        functions_before(tools, i) + chat_tool(tools[i]).len() <= functions_before(tools, n),
        chat_tools(tools, n).len() == functions_before(tools, n),
        chat_tools(tools, n).subrange(
            functions_before(tools, i),
            functions_before(tools, i) + chat_tool(tools[i]).len(),
        ) == chat_tool(tools[i]),
    decreases n,
{
    lemma_one_tool(tools[n - 1]);
    lemma_count(tools, n - 1);
    let before = chat_tools(tools, n - 1);
    let own = chat_tool(tools[n - 1]);
    let from = functions_before(tools, i);
    let to = from + chat_tool(tools[i]).len();
    if i < n - 1 {
        lemma_places(tools, n - 1, i);
        assert((before + own).subrange(from, to) =~= before.subrange(from, to));
    } else {
        assert((before + own).subrange(from, to) =~= own);
    }
}

proof fn lemma_count(tools: Seq<Tool>, n: int)
    requires
        0 <= n <= tools.len(),
    ensures
        0 <= functions_before(tools, n),
        chat_tools(tools, n).len() == functions_before(tools, n),
    decreases n,
{
    if n > 0 {
        lemma_count(tools, n - 1);
        lemma_one_tool(tools[n - 1]);
    }
}

/// As many functions are offered as are declared, those of namespaces counted one by
/// one.
pub proof fn law_as_many_functions_as_declared(tools: Seq<Tool>)
    ensures
        chat_tools(tools, tools.len() as int).len() == functions_before(tools, tools.len() as int),
{
    lemma_count(tools, tools.len() as int);
}

/// Each declared function is offered in its place, under its own name, with its own
/// description, parameters and strict flag.
pub proof fn law_declared_function_is_offered(tools: Seq<Tool>, i: int, t: FunctionTool)
    requires
        0 <= i < tools.len(),
        tools[i] == Tool::Function(t),
    ensures
        offers(
            chat_tools(tools, tools.len() as int)[functions_before(tools, i)],
            t.name@,
            t,
        ),
{
    let n = tools.len() as int;
    let at = functions_before(tools, i);
    lemma_places(tools, n, i);
    lemma_function(t.name@, t);
    assert(chat_tools(tools, n)[at] == chat_tools(tools, n).subrange(at, at + 1)[0]);
}

/// Each function of a namespace is offered in its place: the `k`-th of them stands `k`
/// places behind the first, under the name of the namespace, a hyphen and its own name,
/// with its own description, parameters and strict flag.
pub proof fn law_namespace_function_is_offered(
    tools: Seq<Tool>,
    i: int,
    namespace: String,
    functions: Vec<FunctionTool>,
    k: int,
)
    requires
        0 <= i < tools.len(),
        tools[i] == (Tool::Namespace { name: namespace, tools: functions }),
        0 <= k < functions@.len(),
    ensures
        functions_before(tools, i + 1) == functions_before(tools, i) + functions@.len(),
        offers(
            chat_tools(tools, tools.len() as int)[functions_before(tools, i) + k],
            namespace@ + "-"@ + functions@[k].name@,
            functions@[k],
        ),
{
    let n = tools.len() as int;
    let at = functions_before(tools, i);
    let to = at + chat_tool(tools[i]).len();
    lemma_places(tools, n, i);
    lemma_flattened(namespace@, functions@, functions@.len() as int);
    assert(chat_tools(tools, n)[at + k] == chat_tools(tools, n).subrange(at, to)[k]);
}

/// Each custom tool is offered in its place, as a function that takes one string: as
/// `patch` if it is called `apply_patch`, else as `input`.
pub proof fn law_custom_tool_is_offered(
    tools: Seq<Tool>,
    i: int,
    name: String,
    description: Option<String>,
    field: Seq<char>,
)
    requires
        0 <= i < tools.len(),
        tools[i] == (Tool::Custom { name, description }),
        field == if name@ == "apply_patch"@ {
            "patch"@
        } else {
            "input"@
        },
    ensures
        is_function(
            chat_tools(tools, tools.len() as int)[functions_before(tools, i)],
            name@,
            description,
            Some(
                json_object(
                    no_members().insert("type"@, json_string("object"@)).insert(
                        "properties"@,
                        json_object(
                            no_members().insert(
                                field,
                                json_object(no_members().insert("type"@, json_string("string"@))),
                            ),
                        ),
                    ).insert("required"@, json_array(seq![json_string(field)])),
                ),
            ),
            None,
        ),
{
    let n = tools.len() as int;
    let at = functions_before(tools, i);
    lemma_places(tools, n, i);
    lemma_member_names();
    let f = custom_members(name@, description);
    assert(chat_tools(tools, n)[at] == chat_tools(tools, n).subrange(at, at + 1)[0]);
    assert(chat_tools(tools, n)[at] == nested(f));
    assert(json_object(f) == json_object(f));
}

/// A tool of any other form is offered in its place as it is.
pub proof fn law_other_tool_is_passed_on(tools: Seq<Tool>, i: int, v: Value)
    requires
        0 <= i < tools.len(),
        tools[i] == Tool::Other(v),
    ensures
        chat_tools(tools, tools.len() as int)[functions_before(tools, i)] == json_text(v),
{
    let n = tools.len() as int;
    let at = functions_before(tools, i);
    lemma_places(tools, n, i);
    assert(chat_tools(tools, n)[at] == chat_tools(tools, n).subrange(at, at + 1)[0]);
}

// ---------------------------------------------------------------------------
// Tools of free text
// ---------------------------------------------------------------------------

/// Whether a tool takes free text under that name: a custom tool, or `apply_patch`
/// declared as a function.
pub open spec fn takes_text(tool: Tool, name: Seq<char>) -> bool {
    match tool {
        Tool::Custom { name: own, .. } => own@ == name,
        Tool::Function(t) => t.name@ == name && name == "apply_patch"@,
        _ => false,
    }
}

proof fn lemma_field_from(tools: Seq<Tool>, from: int, i: int, name: Seq<char>)
    requires
        0 <= from <= i <= tools.len(),
        forall|j: int| from <= j < i ==> !takes_text(#[trigger] tools[j], name),
    ensures
        field_from(tools, from, name) == field_from(tools, i, name),
    decreases i - from,
{
    if from < i {
        assert(!takes_text(tools[from], name));
        lemma_field_from(tools, from + 1, i, name);
    }
}

/// The text of a custom tool is in the parameter that is offered for it, unless an
/// earlier tool takes free text under the same name.
pub proof fn law_custom_text_has_its_parameter(
    tools: Seq<Tool>,
    i: int,
    name: String,
    description: Option<String>,
)
    requires
        0 <= i < tools.len(),
        tools[i] == (Tool::Custom { name, description }),
        forall|j: int| 0 <= j < i ==> !takes_text(#[trigger] tools[j], name@),
    ensures
        field_from(tools, 0, name@) == Some(
            if name@ == "apply_patch"@ {
                "patch"@
            } else {
                "input"@
            },
        ),
{
    lemma_field_from(tools, 0, i, name@);
}

/// The text of a patch tool that is declared as a function is in the one parameter that
/// its schema requires, or in `patch` where the schema does not require exactly one.
pub proof fn law_declared_patch_has_its_parameter(
    tools: Seq<Tool>,
    i: int,
    t: FunctionTool,
    schema: Value,
    required: Seq<char>,
    names: Seq<Seq<char>>,
)
    requires
        0 <= i < tools.len(),
        tools[i] == Tool::Function(t),
        t.name@ == "apply_patch"@,
        forall|j: int| 0 <= j < i ==> !takes_text(#[trigger] tools[j], "apply_patch"@),
    ensures
        t.parameters is None ==> field_from(tools, 0, "apply_patch"@) == Some("patch"@),
        t.parameters == Some(schema) && member_of(json_text(schema), "required"@) is None
            ==> field_from(tools, 0, "apply_patch"@) == Some("patch"@),
        t.parameters == Some(schema) && member_of(json_text(schema), "required"@) == Some(required)
            ==> {
            &&& items_in(required) is None ==> field_from(tools, 0, "apply_patch"@) == Some(
                "patch"@,
            )
            &&& items_in(required) == Some(names) && names.len() != 1 ==> field_from(
                tools,
                0,
                "apply_patch"@,
            ) == Some("patch"@)
            &&& items_in(required) == Some(names) && names.len() == 1 ==> field_from(
                tools,
                0,
                "apply_patch"@,
            ) == Some(
                match string_in(names[0]) {
                    Some(field) => field,
                    None => "patch"@,
                },
            )
        },
{
    lemma_field_from(tools, 0, i, "apply_patch"@);
}

/// A name under which no declared tool takes free text is not that of such a tool.
pub proof fn law_other_calls_hold_no_text(tools: Seq<Tool>, name: Seq<char>)
    requires
        forall|j: int| 0 <= j < tools.len() ==> !takes_text(#[trigger] tools[j], name),
    ensures
        field_from(tools, 0, name) is None,
{
    lemma_field_from(tools, 0, tools.len() as int, name);
}

// ---------------------------------------------------------------------------
// Functions of namespaces
// ---------------------------------------------------------------------------

/// Whether the `k`-th function of the `i`-th tool, a namespace, is known as `flat`.
pub open spec fn is_known_as(tools: Seq<Tool>, i: int, k: int, flat: Seq<char>) -> bool {
    &&& 0 <= i < tools.len()
    &&& tools[i] matches Tool::Namespace { name, tools: functions } && 0 <= k < functions@.len()
        && flat == name@ + "-"@ + functions@[k].name@
}

proof fn lemma_member_from(
    namespace: Seq<char>,
    functions: Seq<FunctionTool>,
    k: int,
    flat: Seq<char>,
)
    requires
        0 <= k,
    ensures
        match member_from(namespace, functions, k, flat) {
            Some(own) => exists|j: int|
                k <= j < functions.len() && (#[trigger] functions[j]).name@ == own && flat
                    == namespace + "-"@ + own,
            None => forall|j: int|
                k <= j < functions.len() ==> flat != namespace + "-"@ + (
                #[trigger] functions[j]).name@,
        },
    decreases functions.len() - k,
{
    if k < functions.len() {
        lemma_member_from(namespace, functions, k + 1, flat);
        assert(functions[k].name@ == functions[k].name@);
    }
}

/// What a name is taken apart into is a declared namespace and one of its functions,
/// whose names make it up with a hyphen between. Where no such function is declared, it
/// is not taken apart.
pub proof fn law_name_is_taken_apart_as_declared(tools: Seq<Tool>, from: int, flat: Seq<char>)
    requires
        0 <= from,
    ensures
        match namespace_from(tools, from, flat) {
            Some((namespace, own)) => {
                &&& flat == namespace + "-"@ + own
                &&& exists|i: int, k: int| #[trigger]
                    is_known_as(tools, i, k, flat) && from <= i && tools[i]->Namespace_name@
                        == namespace && tools[i]->Namespace_tools@[k].name@ == own
            },
            None => forall|i: int, k: int| from <= i ==> !#[trigger] is_known_as(tools, i, k, flat),
        },
    decreases tools.len() - from,
{
    if from < tools.len() {
        law_name_is_taken_apart_as_declared(tools, from + 1, flat);
        if let Tool::Namespace { name, tools: functions } = tools[from] {
            lemma_member_from(name@, functions@, 0, flat);
            if let Some(own) = member_from(name@, functions@, 0, flat) {
                let j = choose|j: int|
                    0 <= j < functions@.len() && (#[trigger] functions@[j]).name@ == own && flat
                        == name@ + "-"@ + own;
                assert(is_known_as(tools, from, j, flat));
            }
        }
    }
}

/// The first function that is known by a name is the one that the name is taken apart
/// into.
pub proof fn law_first_function_of_a_name_counts(tools: Seq<Tool>, i: int, k: int, flat: Seq<char>)
    requires
        is_known_as(tools, i, k, flat),
        forall|j: int, l: int| j < i ==> !#[trigger] is_known_as(tools, j, l, flat),
    ensures
        namespace_from(tools, 0, flat) == Some(
            (tools[i]->Namespace_name@, tools[i]->Namespace_tools@[k].name@),
        ),
{
    law_name_is_taken_apart_as_declared(tools, 0, flat);
    lemma_first_namespace(tools, 0, i, k, flat);
    let namespace = tools[i]->Namespace_name@;
    let (found, own) = namespace_from(tools, 0, flat)->0;
    let n = (namespace + "-"@).len() as int;
    assert((namespace + "-"@ + own).skip(n) =~= own);
    assert(flat.skip(n) =~= tools[i]->Namespace_tools@[k].name@);
}

proof fn lemma_first_namespace(tools: Seq<Tool>, from: int, i: int, k: int, flat: Seq<char>)
    requires
        0 <= from <= i,
        is_known_as(tools, i, k, flat),
        forall|j: int, l: int| j < i ==> !#[trigger] is_known_as(tools, j, l, flat),
    ensures
        namespace_from(tools, from, flat) matches Some((namespace, _)) && namespace
            == tools[i]->Namespace_name@,
    decreases i - from,
{
    if let Tool::Namespace { name, tools: functions } = tools[from] {
        lemma_member_from(name@, functions@, 0, flat);
        if let Some(own) = member_from(name@, functions@, 0, flat) {
            let j = choose|j: int|
                0 <= j < functions@.len() && (#[trigger] functions@[j]).name@ == own && flat
                    == name@ + "-"@ + own;
            assert(is_known_as(tools, from, j, flat));
        } else if from == i {
            assert(functions@[k].name@ == tools[i]->Namespace_tools@[k].name@);
        }
    }
    if from < i {
        lemma_first_namespace(tools, from + 1, i, k, flat);
    }
}

} // verus!
