//! What the Lua side of the bridge hands in and gets back: tool descriptors
//! as JSON text, and pending calls as JSON text.

use crate::gabp::json::{
    entries_view, json_as_str, json_get, json_parse, json_text, lemma_object_view, JsonData,
    JsonValue,
};
use crate::gabp::registry::{strings_view, CallData, DescriptorData, PendingToolCall, ToolDescriptor};
use crate::gabp::text::{debug_quote, debug_text};
use vstd::prelude::*;
use vstd::string::StringExecFns;

verus! {

/// Why a descriptor from Lua was refused.
#[derive(Debug, Clone, PartialEq, Eq)]
pub enum LuaBridgeError {
    InvalidJson(String),
    MissingDescription,
}

impl LuaBridgeError {
    /// The `Debug` rendering of this error, as `format!("{:?}", ..)` writes it.
    pub fn debug_string(&self) -> (r: String)
        ensures
            match self {
                LuaBridgeError::InvalidJson(m) => r@ == "InvalidJson("@ + debug_text(m@) + ")"@,
                LuaBridgeError::MissingDescription => r@ == "MissingDescription"@,
            },
    {
        match self {
            LuaBridgeError::InvalidJson(m) => {
                let mut r = "InvalidJson(".to_owned();
                let q = debug_quote(m.as_str());
                r.append(q.as_str());
                r.append(")");
                r
            },
            LuaBridgeError::MissingDescription => "MissingDescription".to_owned(),
        }
    }
}

/// The input schema of a tool whose descriptor gives none:
/// `{"properties": {}, "type": "object"}`.
pub open spec fn default_input_schema() -> JsonData {
    JsonData::Object(
        seq![
            ("properties"@, JsonData::Object(Seq::empty())),
            ("type"@, JsonData::String("object"@)),
        ],
    )
}

/// The string items of the descriptor's `tags` array (other items are
/// skipped; no array means no tags).
pub open spec fn tags_of(v: JsonData) -> Seq<Seq<char>> {
    match json_get(v, "tags"@) {
        Some(JsonData::Array(items)) => items.filter_map(|x: JsonData| json_as_str(Some(x))),
        _ => Seq::empty(),
    }
}

/// The descriptor that a parsed descriptor document gives for tool `name`,
/// or `None` when it has no string `description`.
pub open spec fn descriptor_of(name: Seq<char>, v: JsonData) -> Option<DescriptorData> {
    match json_as_str(json_get(v, "description"@)) {
        None => None,
        Some(description) => Some(
            DescriptorData {
                name,
                description,
                tags: tags_of(v),
                input_schema: match json_get(v, "inputSchema"@) {
                    Some(s) => s,
                    None => default_input_schema(),
                },
                output_schema: json_get(v, "outputSchema"@),
            },
        ),
    }
}

/// A descriptor keeps what its document says: the tool's name as given,
/// the `description` text, the `inputSchema` member exactly as it stands
/// (the object `{"properties": {}, "type": "object"}` only when the
/// document has none), and the `outputSchema` member when there is one. A
/// document whose `description` is not a string gives no descriptor.
pub proof fn law_descriptor_keeps_members(name: Seq<char>, v: JsonData)
    ensures
        json_as_str(json_get(v, "description"@)) is None ==> descriptor_of(name, v) is None,
        json_get(v, "description"@) matches Some(JsonData::String(text)) ==> (descriptor_of(
            name,
            v,
        ) matches Some(d) && d.name == name && d.description == text && d.output_schema
            == json_get(v, "outputSchema"@)),
        (json_as_str(json_get(v, "description"@)) is Some && json_get(v, "inputSchema"@) is Some)
            ==> (descriptor_of(name, v) matches Some(d) && d.input_schema == json_get(
            v,
            "inputSchema"@,
        )->0),
        (json_as_str(json_get(v, "description"@)) is Some && json_get(v, "inputSchema"@) is None)
            ==> (descriptor_of(name, v) matches Some(d) && d.input_schema == JsonData::Object(
            seq![
                ("properties"@, JsonData::Object(Seq::<(Seq<char>, JsonData)>::empty())),
                ("type"@, JsonData::String("object"@)),
            ],
        )),
{
}

fn default_schema() -> (r: JsonValue)
    ensures
        r@ == default_input_schema(),
{
    let empty: Vec<(String, JsonValue)> = Vec::new();
    let ghost empty_ghost = empty;
    let mut entries: Vec<(String, JsonValue)> = Vec::new();
    entries.push(("properties".to_owned(), JsonValue::Object(empty)));
    entries.push(("type".to_owned(), JsonValue::String("object".to_owned())));
    proof {
        lemma_object_view(entries);
        lemma_object_view(empty_ghost);
        assert(entries_view(empty_ghost@) =~= Seq::<(Seq<char>, JsonData)>::empty());
        assert(entries_view(entries@) =~= seq![
            ("properties"@, JsonData::Object(Seq::empty())),
            ("type"@, JsonData::String("object"@)),
        ]);
    }
    JsonValue::Object(entries)
}

/// Builds the descriptor of tool `name` from its parsed descriptor document.
pub fn descriptor_from_json(name: &str, value: &JsonValue) -> (r: Result<
    ToolDescriptor,
    LuaBridgeError,
>)
    ensures
        match descriptor_of(name@, value@) {
            None => r matches Err(LuaBridgeError::MissingDescription),
            Some(d) => r matches Ok(t) && t@ == d,
        },
{
    let description = match value.get("description") {
        Some(d) => match d.as_str() {
            Some(s) => s.clone(),
            None => {
                return Err(LuaBridgeError::MissingDescription);
            },
        },
        None => {
            return Err(LuaBridgeError::MissingDescription);
        },
    };
    let mut tags: Vec<String> = Vec::new();
    match value.get("tags") {
        Some(t) => match t.as_array() {
            Some(items) => {
                let ghost xs = t@->Array_0;
                let ghost f = |x: JsonData| json_as_str(Some(x));
                let mut i: usize = 0;
                while i < items.len()
                    invariant
                        i <= items@.len(),
                        xs == crate::gabp::json::items_view(items@),
                        f == (|x: JsonData| json_as_str(Some(x))),
                        strings_view(tags@) == xs.take(i as int).filter_map(f),
                    decreases items@.len() - i,
                {
                    proof {
                        assert(xs.take(i + 1).drop_last() =~= xs.take(i as int));
                        assert(xs.take(i + 1).last() == items@[i as int]@);
                    }
                    match items[i].as_str() {
                        Some(s) => {
                            let ghost before = tags@;
                            tags.push(s.clone());
                            proof {
                                assert(strings_view(tags@) =~= strings_view(before).push(s@));
                            }
                        },
                        None => {},
                    }
                    i = i + 1;
                }
                proof {
                    assert(xs.take(i as int) =~= xs);
                }
            },
            None => {
                proof {
                    assert(strings_view(tags@) =~= Seq::<Seq<char>>::empty());
                }
            },
        },
        None => {
            proof {
                assert(strings_view(tags@) =~= Seq::<Seq<char>>::empty());
            }
        },
    }
    let input_schema = match value.get("inputSchema") {
        Some(s) => s.deep_copy(),
        None => default_schema(),
    };
    let output_schema = match value.get("outputSchema") {
        Some(s) => Some(s.deep_copy()),
        None => None,
    };
    Ok(ToolDescriptor { name: name.to_owned(), description, tags, input_schema, output_schema })
}

/// Parses a tool descriptor that Lua hands in as JSON text.
pub fn parse_tool_descriptor(name: &str, descriptor_json: &str) -> (r: Result<
    ToolDescriptor,
    LuaBridgeError,
>)
    ensures
        match json_parse(descriptor_json@) {
            Err(msg) => r matches Err(LuaBridgeError::InvalidJson(m)) && m@ == msg,
            Ok(v) => match descriptor_of(name@, v) {
                None => r matches Err(LuaBridgeError::MissingDescription),
                Some(d) => r matches Ok(t) && t@ == d,
            },
        },
{
    let value = match JsonValue::parse(descriptor_json) {
        Ok(v) => v,
        Err(msg) => {
            return Err(LuaBridgeError::InvalidJson(msg));
        },
    };
    descriptor_from_json(name, &value)
}

/// The JSON object that Lua receives for a pending call:
/// `{"arguments": .., "requestId": .., "toolName": ..}`.
pub open spec fn call_json(c: CallData) -> JsonData {
    JsonData::Object(
        seq![
            ("arguments"@, c.arguments),
            ("requestId"@, JsonData::String(c.request_id)),
            ("toolName"@, JsonData::String(c.tool_name)),
        ],
    )
}

/// The pending call as the JSON text that Lua receives; writing it always
/// succeeds.
pub fn pending_call_to_json(call: PendingToolCall) -> (r: Result<String, serde_json::Error>)
    ensures
        r matches Ok(s) && s@ == json_text(call_json(call@)),
{
    let ghost data = call@;
    let mut entries: Vec<(String, JsonValue)> = Vec::new();
    entries.push(("arguments".to_owned(), call.arguments));
    entries.push(("requestId".to_owned(), JsonValue::String(call.request_id)));
    entries.push(("toolName".to_owned(), JsonValue::String(call.tool_name)));
    proof {
        lemma_object_view(entries);
        assert(entries_view(entries@) =~= seq![
            ("arguments"@, data.arguments),
            ("requestId"@, JsonData::String(data.request_id)),
            ("toolName"@, JsonData::String(data.tool_name)),
        ]);
    }
    let object = JsonValue::Object(entries);
    object.to_json_string()
}

} // verus!
