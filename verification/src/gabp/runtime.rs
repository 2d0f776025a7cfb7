//! The bridge's request handling: the runtime configuration, the dispatcher
//! that answers GABP requests, and the operations that the Lua side calls.
//! Listening on the network, waiting for completions and the process-wide
//! runtime slot live with the caller, which hands their results in here.

use crate::gabp::envelope::{
    failure_data, success_data, GabpRequest, GabpResponse, RequestData, ResponseData,
    GABP_VERSION,
};
use crate::gabp::json::{
    empty_object, entries_view, member, items_view, json_as_str, json_get, json_parse, json_text,
    lemma_array_view, lemma_object_view, string_eq_str, JsonData, JsonValue,
};
use crate::gabp::lua_bridge::{
    call_json, descriptor_of, parse_tool_descriptor, pending_call_to_json,
};
use crate::gabp::registry::{
    descriptors_view, listing_names, strings_view, tool_map, valid_tool_name, CallData, CallQueue,
    CompletionData, DescriptorData, FailureData, PendingToolCall, ToolCompletion, ToolDescriptor,
    ToolFailure, ToolRegistry,
};
use crate::gabp::keyed::lemma_keyed_absent;
use crate::gabp::text::{chars_of, debug_text, parse_unsigned, parse_unsigned_chars};
use vstd::prelude::*;

verus! {

/// The version that the bridge reports in its `session/hello` answer.
pub const BRIDGE_VERSION: &'static str = "0.1.0";

// ---------------------------------------------------------------------------
// Configuration
// ---------------------------------------------------------------------------

/// What GABS hands the bridge when it launches the game.
#[derive(Debug, Clone, PartialEq)]
pub struct RuntimeConfig {
    pub game_id: String,
    pub port: u16,
    pub token: String,
    pub launch_id: String,
}

/// The view of a [`RuntimeConfig`].
pub struct ConfigData {
    pub game_id: Seq<char>,
    pub port: u16,
    pub token: Seq<char>,
    pub launch_id: Seq<char>,
}

impl View for RuntimeConfig {
    type V = ConfigData;

    open spec fn view(&self) -> ConfigData {
        ConfigData {
            game_id: self.game_id@,
            port: self.port,
            token: self.token@,
            launch_id: self.launch_id@,
        }
    }
}

/// Why the runtime could not be configured or started.
#[derive(Debug, Clone, PartialEq, Eq)]
pub enum RuntimeError {
    MissingEnv(&'static str),
    InvalidPort(String),
    ListenFailed(String),
}

impl RuntimeConfig {
    /// The configuration from the values of `GABS_GAME_ID`,
    /// `GABP_SERVER_PORT`, `GABP_TOKEN` and `GABP_LAUNCH_ID` (each `None`
    /// when unset), in that order of checking; `fresh_launch_id` stands in
    /// for a missing launch id.
    pub fn from_env_values(
        game_id: Option<String>,
        port: Option<String>,
        token: Option<String>,
        launch_id: Option<String>,
        fresh_launch_id: String,
    ) -> (r: Result<RuntimeConfig, RuntimeError>)
        ensures
            game_id is None ==> (r matches Err(RuntimeError::MissingEnv(n)) && n@
                == "GABS_GAME_ID"@),
            game_id is Some && port is None ==> (r matches Err(RuntimeError::MissingEnv(n)) && n@
                == "GABP_SERVER_PORT"@),
            game_id is Some && port is Some && token is None ==> (r matches Err(
                RuntimeError::MissingEnv(n),
            ) && n@ == "GABP_TOKEN"@),
            game_id is Some && token is Some && (port matches Some(p) && parse_unsigned(
                p@,
                65535,
            ) is None) ==> (r matches Err(RuntimeError::InvalidPort(s)) && s@ == port->0@),
            game_id is Some && token is Some && (port matches Some(p) && parse_unsigned(
                p@,
                65535,
            ) is Some) ==> (r matches Ok(c) && c.game_id@ == game_id->0@ && c.port
                == parse_unsigned(port->0@, 65535)->0 && c.token@ == token->0@ && c.launch_id@
                == (match launch_id {
                Some(l) => l@,
                None => fresh_launch_id@,
            })),
    {
        let game_id = match game_id {
            Some(g) => g,
            None => {
                return Err(RuntimeError::MissingEnv("GABS_GAME_ID"));
            },
        };
        let port_raw = match port {
            Some(p) => p,
            None => {
                return Err(RuntimeError::MissingEnv("GABP_SERVER_PORT"));
            },
        };
        let token = match token {
            Some(t) => t,
            None => {
                return Err(RuntimeError::MissingEnv("GABP_TOKEN"));
            },
        };
        let chars = chars_of(port_raw.as_str());
        let port = match parse_unsigned_chars(&chars, 0, chars.len(), 65535) {
            Some(p) => p as u16,
            None => {
                proof {
                    assert(chars@.subrange(0, chars@.len() as int) =~= port_raw@);
                }
                return Err(RuntimeError::InvalidPort(port_raw));
            },
        };
        proof {
            assert(chars@.subrange(0, chars@.len() as int) =~= port_raw@);
        }
        let launch_id = match launch_id {
            Some(l) => l,
            None => fresh_launch_id,
        };
        Ok(RuntimeConfig { game_id, port, token, launch_id })
    }

    /// The configuration from the values of `GABS_GAME_ID`,
    /// `GABP_SERVER_PORT`, `GABP_TOKEN` and `GABP_LAUNCH_ID` (each `None`
    /// when unset), in that order of checking; a missing launch id is
    /// replaced by a new random (version 4) UUID, made only then.
    pub fn from_env_vars(
        game_id: Option<String>,
        port: Option<String>,
        token: Option<String>,
        launch_id: Option<String>,
    ) -> (r: Result<RuntimeConfig, RuntimeError>)
        ensures
            game_id is None ==> (r matches Err(RuntimeError::MissingEnv(n)) && n@
                == "GABS_GAME_ID"@),
            game_id is Some && port is None ==> (r matches Err(RuntimeError::MissingEnv(n)) && n@
                == "GABP_SERVER_PORT"@),
            game_id is Some && port is Some && token is None ==> (r matches Err(
                RuntimeError::MissingEnv(n),
            ) && n@ == "GABP_TOKEN"@),
            game_id is Some && token is Some && (port matches Some(p) && parse_unsigned(
                p@,
                65535,
            ) is None) ==> (r matches Err(RuntimeError::InvalidPort(s)) && s@ == port->0@),
            game_id is Some && token is Some && (port matches Some(p) && parse_unsigned(
                p@,
                65535,
            ) is Some) ==> (r matches Ok(c) && c.game_id@ == game_id->0@ && c.port
                == parse_unsigned(port->0@, 65535)->0 && c.token@ == token->0@ && (match launch_id {
                Some(l) => c.launch_id@ == l@,
                None => is_v4_uuid_text(c.launch_id@),
            })),
    {
        let missing = launch_id.is_none();
        match RuntimeConfig::from_env_values(game_id, port, token, launch_id, String::new()) {
            Ok(c) => {
                if missing {
                    let mut c = c;
                    c.launch_id = new_launch_id();
                    Ok(c)
                } else {
                    Ok(c)
                }
            },
            Err(e) => Err(e),
        }
    }
}

/// A lowercase hexadecimal digit.
pub open spec fn is_lower_hex_digit(c: char) -> bool {
    ('0' <= c && c <= '9') || ('a' <= c && c <= 'f')
}

/// The hyphenated lowercase text of a random (version 4, RFC 4122 variant)
/// UUID: 36 characters, hyphens at 8, 13, 18 and 23, hexadecimal digits
/// elsewhere, the version digit `4` at 14 and one of `8`, `9`, `a`, `b` at 19.
pub open spec fn is_v4_uuid_text(s: Seq<char>) -> bool {
    &&& s.len() == 36
    &&& forall|i: int|
        0 <= i < 36 ==> if i == 8 || i == 13 || i == 18 || i == 23 {
            #[trigger] s[i] == '-'
        } else {
            is_lower_hex_digit(s[i])
        }
    &&& s[14] == '4'
    &&& s[19] == '8' || s[19] == '9' || s[19] == 'a' || s[19] == 'b'
}

/// `uuid::Uuid::new_v4().to_string()`: a random UUID, as text. The value is
/// drawn from the system's random source, so only its form is stated:
/// `new_v4` masks in the version and variant bits, and `Display` writes
/// the hyphenated lowercase form.
#[verifier::external_body]
fn new_launch_id() -> (r: String)
    ensures
        is_v4_uuid_text(r@),
{
    uuid::Uuid::new_v4().to_string()
}

// ---------------------------------------------------------------------------
// What the dispatcher answers
// ---------------------------------------------------------------------------

/// The `session/hello` result for the game `game_id`.
pub open spec fn hello_result(game_id: Seq<char>) -> JsonData {
    JsonData::Object(
        seq![
            ("agentId"@, JsonData::String(game_id)),
            ("app"@, JsonData::Object(
                seq![
                    ("name"@, JsonData::String("Garry's Mod GABP Bridge"@)),
                    ("version"@, JsonData::String(BRIDGE_VERSION@)),
                ],
            )),
            ("capabilities"@, JsonData::Object(
                seq![
                    ("events"@, JsonData::Array(Seq::empty())),
                    ("methods"@, JsonData::Array(
                        seq![JsonData::String("tools/list"@), JsonData::String("tools/call"@)],
                    )),
                    ("resources"@, JsonData::Array(Seq::empty())),
                ],
            )),
            ("schemaVersion"@, JsonData::String("1.0"@)),
        ],
    )
}

/// A string array.
pub open spec fn string_array(items: Seq<Seq<char>>) -> JsonData {
    JsonData::Array(items.map_values(|s: Seq<char>| JsonData::String(s)))
}

/// A descriptor as the `tools/list` answer shows it; `outputSchema` is left
/// out when there is none.
pub open spec fn descriptor_json(d: DescriptorData) -> JsonData {
    JsonData::Object(
        seq![
            ("description"@, JsonData::String(d.description)),
            ("inputSchema"@, d.input_schema),
            ("name"@, JsonData::String(d.name)),
        ] + match d.output_schema {
            Some(o) => seq![("outputSchema"@, o)],
            None => Seq::empty(),
        } + seq![("tags"@, string_array(d.tags))],
    )
}

/// The `tools/list` result: `{"tools": [..]}` in the order of `listing`.
pub open spec fn tools_list_result(listing: Seq<DescriptorData>) -> JsonData {
    JsonData::Object(
        seq![
            ("tools"@, JsonData::Array(listing.map_values(|d: DescriptorData| descriptor_json(d)))),
        ],
    )
}

/// An object with one string member.
pub open spec fn single_member(key: Seq<char>, value: Seq<char>) -> JsonData {
    JsonData::Object(seq![(key, JsonData::String(value))])
}

/// The token that a `session/hello` request offers (empty when absent).
pub open spec fn offered_token(params: JsonData) -> Seq<char> {
    match json_as_str(json_get(params, "token"@)) {
        Some(t) => t,
        None => Seq::empty(),
    }
}

/// The call that a `tools/call` request asks for.
pub open spec fn requested_call(req: RequestData) -> CallData {
    CallData {
        request_id: req.id,
        tool_name: json_as_str(json_get(req.params, "name"@))->0,
        arguments: match json_get(req.params, "arguments"@) {
            Some(a) => a,
            None => empty_object(),
        },
    }
}

/// What the dispatcher does with a request: answer it at once, or wait for
/// the completion of the tool call that it queued.
pub enum OutcomeData {
    Respond(ResponseData),
    AwaitCompletion(Seq<char>),
}

/// The answer to `req` for a runtime configured by `config` whose registry
/// lists `listing`.
pub open spec fn request_outcome(
    config: ConfigData,
    listing: Seq<DescriptorData>,
    req: RequestData,
) -> OutcomeData {
    let id = req.id;
    if !(req.v == GABP_VERSION@ && req.message_type == "request"@) {
        OutcomeData::Respond(failure_data(id, -32600i32, "Invalid GABP request"@, None))
    } else if req.method == "session/hello"@ {
        if offered_token(req.params) == config.token {
            OutcomeData::Respond(success_data(id, hello_result(config.game_id)))
        } else {
            OutcomeData::Respond(failure_data(id, -32101i32, "Authentication failed"@, None))
        }
    } else if req.method == "tools/list"@ {
        OutcomeData::Respond(success_data(id, tools_list_result(listing)))
    } else if req.method == "tools/call"@ {
        match json_as_str(json_get(req.params, "name"@)) {
            None => OutcomeData::Respond(failure_data(id, -32602i32, "Missing tool name"@, None)),
            Some(name) => if tool_map(listing).contains_key(name) {
                OutcomeData::AwaitCompletion(id)
            } else {
                OutcomeData::Respond(
                    failure_data(id, -32400i32, "Tool not found"@, Some(single_member("tool"@, name))),
                )
            },
        }
    } else {
        OutcomeData::Respond(
            failure_data(id, -32601i32, "Method not found"@, Some(single_member("method"@, req.method))),
        )
    }
}

/// The answer to a `tools/call` request `id` once its completion came, or
/// once waiting for it timed out (`None`).
pub open spec fn tools_call_response(id: Seq<char>, completion: Option<CompletionData>) -> ResponseData {
    match completion {
        Some(c) => match c.result {
            Ok(v) => success_data(id, v),
            Err(f) => failure_data(id, f.code, f.message, f.data),
        },
        None => failure_data(id, -32403i32, "Tool execution timed out"@, None),
    }
}

/// The request id that marks the answer to a message that was not a request.
pub open spec fn unparsable_id() -> Seq<char> {
    "00000000-0000-0000-0000-000000000000"@
}

/// The answer to a message that does not parse as a GABP request.
pub open spec fn parse_error_response_data(error: Seq<char>) -> ResponseData {
    failure_data(unparsable_id(), -32700i32, "Parse error"@, Some(single_member("error"@, error)))
}

proof fn lemma_method_names_differ()
    ensures
        "session/hello"@ != "tools/list"@,
        "session/hello"@ != "tools/call"@,
        "tools/list"@ != "tools/call"@,
{
    reveal_strlit("session/hello");
    reveal_strlit("tools/list");
    reveal_strlit("tools/call");
    assert("session/hello"@[0] != "tools/list"@[0]);
    assert("session/hello"@[0] != "tools/call"@[0]);
    assert("tools/list"@[6] != "tools/call"@[6]);
}

/// A message that is not a `gabp/1` request is refused with code -32600,
/// whatever method it names.
pub proof fn law_invalid_envelope_refused(
    config: ConfigData,
    listing: Seq<DescriptorData>,
    req: RequestData,
)
    requires
        !(req.v == GABP_VERSION@ && req.message_type == "request"@),
    ensures
        request_outcome(config, listing, req) == OutcomeData::Respond(
            failure_data(req.id, -32600i32, "Invalid GABP request"@, None),
        ),
{
}

/// `session/hello` opens a session exactly when the offered token is the
/// configured one; otherwise it is refused with code -32101.
pub proof fn law_hello_needs_token(config: ConfigData, listing: Seq<DescriptorData>, req: RequestData)
    requires
        req.v == GABP_VERSION@,
        req.message_type == "request"@,
        req.method == "session/hello"@,
    ensures
        offered_token(req.params) == config.token ==> request_outcome(config, listing, req)
            == OutcomeData::Respond(success_data(req.id, hello_result(config.game_id))),
        offered_token(req.params) != config.token ==> request_outcome(config, listing, req)
            == OutcomeData::Respond(failure_data(req.id, -32101i32, "Authentication failed"@, None)),
{
}

/// `tools/list` lists the registered tools in the registry's order.
pub proof fn law_tools_list_lists_registry(
    config: ConfigData,
    listing: Seq<DescriptorData>,
    req: RequestData,
)
    requires
        req.v == GABP_VERSION@,
        req.message_type == "request"@,
        req.method == "tools/list"@,
    ensures
        request_outcome(config, listing, req) == OutcomeData::Respond(
            success_data(req.id, tools_list_result(listing)),
        ),
{
    lemma_method_names_differ();
}

proof fn lemma_descriptor_members(d: DescriptorData)
    ensures
        json_get(descriptor_json(d), "name"@) == Some(JsonData::String(d.name)),
        json_get(descriptor_json(d), "description"@) == Some(JsonData::String(d.description)),
        json_get(descriptor_json(d), "inputSchema"@) == Some(d.input_schema),
{
    reveal_strlit("name");
    reveal_strlit("description");
    reveal_strlit("inputSchema");
    assert("description"@ != "name"@) by {
        assert("description"@.len() != "name"@.len());
    }
    assert("inputSchema"@ != "name"@) by {
        assert("inputSchema"@.len() != "name"@.len());
    }
    assert("description"@ != "inputSchema"@) by {
        assert("description"@[0] != "inputSchema"@[0]);
    }
    let e = descriptor_json(d)->Object_0;
    assert(e[0] == ("description"@, JsonData::String(d.description)));
    assert(e[1] == ("inputSchema"@, d.input_schema));
    assert(e[2] == ("name"@, JsonData::String(d.name)));
    assert(e.drop_first()[0] == e[1]);
    assert(e.drop_first().drop_first()[0] == e[2]);
    assert(member(e, "inputSchema"@) == member(e.drop_first(), "inputSchema"@));
    assert(member(e.drop_first(), "inputSchema"@) == Some(d.input_schema));
    assert(member(e, "name"@) == member(e.drop_first(), "name"@));
    assert(member(e.drop_first(), "name"@) == member(e.drop_first().drop_first(), "name"@));
    assert(member(e.drop_first().drop_first(), "name"@) == Some(JsonData::String(d.name)));
}

/// `tools/list` lists every registered tool, once, in the registry's
/// order: the `tools` array of the answer has one entry per registered
/// descriptor, and entry `i` carries the name, description and input
/// schema of descriptor `i`; so every name that the registry holds is
/// listed.
pub proof fn law_tools_list_has_every_tool(
    config: ConfigData,
    listing: Seq<DescriptorData>,
    req: RequestData,
)
    requires
        req.v == "gabp/1"@,
        req.message_type == "request"@,
        req.method == "tools/list"@,
    ensures
        request_outcome(config, listing, req) is Respond,
        ({
            let resp = request_outcome(config, listing, req)->Respond_0;
            &&& resp.id == req.id
            &&& resp.error is None
            &&& resp.result is Some
            &&& json_get(resp.result->0, "tools"@) matches Some(JsonData::Array(items))
        }),
        ({
            let items = json_get(
                request_outcome(config, listing, req)->Respond_0.result->0,
                "tools"@,
            )->0->Array_0;
            &&& items.len() == listing.len()
            &&& forall|i: int|
                0 <= i < items.len() ==> json_get(#[trigger] items[i], "name"@) == Some(
                    JsonData::String(listing[i].name),
                ) && json_get(items[i], "description"@) == Some(
                    JsonData::String(listing[i].description),
                ) && json_get(items[i], "inputSchema"@) == Some(listing[i].input_schema)
            &&& forall|n: Seq<char>|
                #[trigger] tool_map(listing).contains_key(n) ==> exists|i: int|
                    0 <= i < items.len() && json_get(#[trigger] items[i], "name"@) == Some(
                        JsonData::String(n),
                    )
        }),
{
    reveal_strlit("gabp/1");
    lemma_method_names_differ();
    let items = listing.map_values(|d: DescriptorData| descriptor_json(d));
    assert(json_get(tools_list_result(listing), "tools"@) == Some(JsonData::Array(items)));
    assert forall|i: int| 0 <= i < items.len() implies json_get(#[trigger] items[i], "name"@)
        == Some(JsonData::String(listing[i].name)) && json_get(items[i], "description"@) == Some(
        JsonData::String(listing[i].description),
    ) && json_get(items[i], "inputSchema"@) == Some(listing[i].input_schema) by {
        lemma_descriptor_members(listing[i]);
    }
    assert forall|n: Seq<char>| #[trigger] tool_map(listing).contains_key(n) implies exists|i: int|
        0 <= i < items.len() && json_get(#[trigger] items[i], "name"@) == Some(
            JsonData::String(n),
        ) by {
        let names = listing_names(listing);
        if forall|i: int| 0 <= i < names.len() ==> names[i] != n {
            lemma_keyed_absent(names, listing, n);
        }
        let i = choose|i: int| 0 <= i < names.len() && names[i] == n;
        lemma_descriptor_members(listing[i]);
        assert(items[i] == descriptor_json(listing[i]));
    }
}

/// The call that `tools/call` queues carries the request's id, the tool
/// name it asks for, and its `arguments` member as it stands, or the empty
/// object `{}` when it has none.
pub proof fn law_tools_call_arguments(req: RequestData)
    ensures
        requested_call(req).request_id == req.id,
        json_get(req.params, "name"@) matches Some(JsonData::String(n)) ==> requested_call(
            req,
        ).tool_name == n,
        json_get(req.params, "arguments"@) matches Some(a) ==> requested_call(req).arguments == a,
        json_get(req.params, "arguments"@) is None ==> requested_call(req).arguments
            == JsonData::Object(Seq::<(Seq<char>, JsonData)>::empty()),
{
}

/// A `tools/call` of a registered tool is queued, and answered with exactly
/// what the game completes it with: its result, or its error code, message
/// and data.
pub proof fn law_tool_call_answered_by_completion(
    config: ConfigData,
    listing: Seq<DescriptorData>,
    req: RequestData,
    completion: CompletionData,
)
    requires
        req.v == GABP_VERSION@,
        req.message_type == "request"@,
        req.method == "tools/call"@,
        json_as_str(json_get(req.params, "name"@)) matches Some(n) && tool_map(listing).contains_key(n),
    ensures
        request_outcome(config, listing, req) == OutcomeData::AwaitCompletion(req.id),
        requested_call(req).request_id == req.id,
        completion.result matches Ok(v) ==> tools_call_response(req.id, Some(completion))
            == success_data(req.id, v),
        completion.result matches Err(f) ==> tools_call_response(req.id, Some(completion))
            == failure_data(req.id, f.code, f.message, f.data),
        tools_call_response(req.id, None) == failure_data(
            req.id,
            -32403i32,
            "Tool execution timed out"@,
            None,
        ),
{
    lemma_method_names_differ();
}

/// The dispatcher's decision, as a value.
#[derive(Debug)]
pub enum RequestOutcome {
    /// Send this response.
    Respond(GabpResponse),
    /// A tool call with this request id was queued; wait for its completion,
    /// then answer with [`BridgeRuntime::finish_tools_call`].
    AwaitCompletion(String),
}

impl View for RequestOutcome {
    type V = OutcomeData;

    open spec fn view(&self) -> OutcomeData {
        match self {
            RequestOutcome::Respond(r) => OutcomeData::Respond(r@),
            RequestOutcome::AwaitCompletion(id) => OutcomeData::AwaitCompletion(id@),
        }
    }
}

// ---------------------------------------------------------------------------
// Building the answers
// ---------------------------------------------------------------------------

fn string_value(s: &str) -> (r: JsonValue)
    ensures
        r@ == JsonData::String(s@),
{
    JsonValue::String(s.to_owned())
}

fn object_of(entries: Vec<(String, JsonValue)>) -> (r: JsonValue)
    ensures
        r@ == JsonData::Object(entries_view(entries@)),
{
    proof {
        lemma_object_view(entries);
    }
    JsonValue::Object(entries)
}

fn array_of(items: Vec<JsonValue>) -> (r: JsonValue)
    ensures
        r@ == JsonData::Array(items_view(items@)),
{
    proof {
        lemma_array_view(items);
    }
    JsonValue::Array(items)
}

fn single_member_value(key: &str, value: String) -> (r: JsonValue)
    ensures
        r@ == single_member(key@, value@),
{
    let mut entries: Vec<(String, JsonValue)> = Vec::new();
    entries.push((key.to_owned(), JsonValue::String(value)));
    let r = object_of(entries);
    proof {
        assert(entries_view(entries@) =~= seq![(key@, JsonData::String(value@))]);
    }
    r
}

fn hello_result_value(game_id: &String) -> (r: JsonValue)
    ensures
        r@ == hello_result(game_id@),
{
    let mut app: Vec<(String, JsonValue)> = Vec::new();
    app.push(("name".to_owned(), string_value("Garry's Mod GABP Bridge")));
    app.push(("version".to_owned(), string_value(BRIDGE_VERSION)));
    let ghost app_view = entries_view(app@);
    let app_value = object_of(app);
    let empty1: Vec<JsonValue> = Vec::new();
    let ghost e1 = empty1;
    let empty2: Vec<JsonValue> = Vec::new();
    let ghost e2 = empty2;
    let mut methods: Vec<JsonValue> = Vec::new();
    methods.push(string_value("tools/list"));
    methods.push(string_value("tools/call"));
    let ghost methods_view = items_view(methods@);
    let mut caps: Vec<(String, JsonValue)> = Vec::new();
    caps.push(("events".to_owned(), array_of(empty1)));
    caps.push(("methods".to_owned(), array_of(methods)));
    caps.push(("resources".to_owned(), array_of(empty2)));
    let ghost caps_view = entries_view(caps@);
    let caps_value = object_of(caps);
    let mut top: Vec<(String, JsonValue)> = Vec::new();
    top.push(("agentId".to_owned(), JsonValue::String(game_id.clone())));
    top.push(("app".to_owned(), app_value));
    top.push(("capabilities".to_owned(), caps_value));
    top.push(("schemaVersion".to_owned(), string_value("1.0")));
    let ghost top_view = entries_view(top@);
    let r = object_of(top);
    proof {
        assert(items_view(e1@) =~= Seq::<JsonData>::empty());
        assert(items_view(e2@) =~= Seq::<JsonData>::empty());
        assert(app_view =~= seq![
            ("name"@, JsonData::String("Garry's Mod GABP Bridge"@)),
            ("version"@, JsonData::String(BRIDGE_VERSION@)),
        ]);
        assert(methods_view =~= seq![JsonData::String("tools/list"@), JsonData::String("tools/call"@)]);
        assert(caps_view =~= seq![
            ("events"@, JsonData::Array(Seq::empty())),
            ("methods"@, JsonData::Array(methods_view)),
            ("resources"@, JsonData::Array(Seq::empty())),
        ]);
        assert(top_view =~= seq![
            ("agentId"@, JsonData::String(game_id@)),
            ("app"@, JsonData::Object(app_view)),
            ("capabilities"@, JsonData::Object(caps_view)),
            ("schemaVersion"@, JsonData::String("1.0"@)),
        ]);
    }
    r
}

/// A descriptor as the `tools/list` answer shows it.
fn descriptor_value(d: &ToolDescriptor) -> (r: JsonValue)
    ensures
        r@ == descriptor_json(d@),
{
    let ghost dv = d@;
    let mut tags: Vec<JsonValue> = Vec::new();
    let mut i: usize = 0;
    while i < d.tags.len()
        invariant
            i <= d.tags@.len(),
            items_view(tags@) == strings_view(d.tags@).take(i as int).map_values(
                |s: Seq<char>| JsonData::String(s),
            ),
        decreases d.tags@.len() - i,
    {
        let ghost before = tags@;
        let c = d.tags[i].clone();
        let v = JsonValue::String(c);
        tags.push(v);
        i = i + 1;
        proof {
            assert(v@ == JsonData::String(d.tags@[i - 1]@));
            assert(items_view(tags@) =~= items_view(before).push(v@));
            assert(strings_view(d.tags@).take(i as int) =~= strings_view(d.tags@).take(i - 1).push(
                d.tags@[i - 1]@,
            ));
            assert(items_view(tags@) =~= strings_view(d.tags@).take(i as int).map_values(
                |s: Seq<char>| JsonData::String(s),
            ));
        }
    }
    proof {
        assert(strings_view(d.tags@).take(i as int) =~= strings_view(d.tags@));
    }
    let ghost tags_view = items_view(tags@);
    let mut entries: Vec<(String, JsonValue)> = Vec::new();
    entries.push(("description".to_owned(), JsonValue::String(d.description.clone())));
    entries.push(("inputSchema".to_owned(), d.input_schema.deep_copy()));
    entries.push(("name".to_owned(), JsonValue::String(d.name.clone())));
    let ghost head = entries_view(entries@);
    let ghost has_output = d.output_schema is Some;
    match &d.output_schema {
        Some(o) => {
            entries.push(("outputSchema".to_owned(), o.deep_copy()));
        },
        None => {},
    }
    let ghost middle = entries_view(entries@);
    entries.push(("tags".to_owned(), array_of(tags)));
    let r = object_of(entries);
    proof {
        assert(head =~= seq![
            ("description"@, JsonData::String(dv.description)),
            ("inputSchema"@, dv.input_schema),
            ("name"@, JsonData::String(dv.name)),
        ]);
        let out = match dv.output_schema {
            Some(o) => seq![("outputSchema"@, o)],
            None => Seq::<(Seq<char>, JsonData)>::empty(),
        };
        assert(middle =~= head + out);
        assert(entries_view(entries@) =~= head + out + seq![("tags"@, string_array(dv.tags))]);
    }
    r
}

// ---------------------------------------------------------------------------
// The runtime
// ---------------------------------------------------------------------------

/// The bridge's state: its configuration, the registered tools and the
/// queue of tool calls.
pub struct BridgeRuntime {
    pub config: RuntimeConfig,
    pub registry: ToolRegistry,
    pub queue: CallQueue,
    /// How long a `tools/call` waits for the game's completion, in
    /// milliseconds.
    pub tool_timeout_ms: u64,
}

/// How long a `tools/call` waits for the game's completion: 30 seconds.
pub const TOOL_CALL_TIMEOUT_MS: u64 = 30_000;

impl BridgeRuntime {
    /// A runtime with no tools and nothing queued, whose tool calls wait
    /// [`TOOL_CALL_TIMEOUT_MS`] for their completion.
    pub fn new(config: RuntimeConfig) -> (r: Self)
        ensures
            r.config@ == config@,
            r.registry@ == Seq::<DescriptorData>::empty(),
            r.queue@.pending == Seq::<CallData>::empty(),
            r.queue@.completions == Map::<Seq<char>, CompletionData>::empty(),
            r.tool_timeout_ms == TOOL_CALL_TIMEOUT_MS,
    {
        BridgeRuntime {
            config,
            registry: ToolRegistry::new(),
            queue: CallQueue::new(),
            tool_timeout_ms: TOOL_CALL_TIMEOUT_MS,
        }
    }

    /// The registered tools.
    pub fn registry(&self) -> (r: &ToolRegistry)
        ensures
            r@ == self.registry@,
    {
        &self.registry
    }

    /// The queue of tool calls.
    pub fn queue(&self) -> (r: &CallQueue)
        ensures
            r@ == self.queue@,
    {
        &self.queue
    }

    /// Answers a GABP request, or queues the tool call it asks for.
    pub fn handle_request(&mut self, request: GabpRequest) -> (r: RequestOutcome)
        ensures
            r@ == request_outcome(old(self).config@, old(self).registry@, request@),
            final(self).config@ == old(self).config@,
            final(self).registry@ == old(self).registry@,
            r@ is AwaitCompletion ==> final(self).queue@.pending == old(self).queue@.pending.push(
                requested_call(request@),
            ) && final(self).queue@.completions == old(self).queue@.completions,
            !(r@ is AwaitCompletion) ==> final(self).queue@ == old(self).queue@,
    {
        let ghost req = request@;
        let id = request.id;
        if !(string_eq_str(&request.v, GABP_VERSION) && string_eq_str(
            &request.message_type,
            "request",
        )) {
            return RequestOutcome::Respond(
                GabpResponse::failure(id, -32600, "Invalid GABP request".to_owned(), None),
            );
        }
        if string_eq_str(&request.method, "session/hello") {
            let token = match request.params.get("token") {
                Some(t) => match t.as_str() {
                    Some(s) => s.clone(),
                    None => String::new(),
                },
                None => String::new(),
            };
            if token.eq(&self.config.token) {
                let result = hello_result_value(&self.config.game_id);
                return RequestOutcome::Respond(GabpResponse::success(id, result));
            } else {
                return RequestOutcome::Respond(
                    GabpResponse::failure(id, -32101, "Authentication failed".to_owned(), None),
                );
            }
        }
        if string_eq_str(&request.method, "tools/list") {
            let tools = self.registry.list_tools();
            let ghost listing = self.registry@;
            let n = tools.len();
            let mut items: Vec<JsonValue> = Vec::new();
            let mut i: usize = 0;
            while i < n
                invariant
                    n == tools@.len(),
                    i <= n,
                    descriptors_view(tools@) == listing,
                    items_view(items@) == listing.take(i as int).map_values(
                        |d: DescriptorData| descriptor_json(d),
                    ),
                decreases n - i,
            {
                let ghost before = items@;
                let v = descriptor_value(&tools[i]);
                items.push(v);
                i = i + 1;
                proof {
                    assert(listing.take(i as int) =~= listing.take(i - 1).push(tools@[i - 1]@));
                    assert(items_view(items@) =~= items_view(before).push(v@));
                    assert(items_view(items@) =~= listing.take(i as int).map_values(
                        |d: DescriptorData| descriptor_json(d),
                    ));
                }
            }
            proof {
                assert(listing.take(n as int) =~= listing);
            }
            let ghost items_data = items_view(items@);
            let mut top: Vec<(String, JsonValue)> = Vec::new();
            top.push(("tools".to_owned(), array_of(items)));
            let result = object_of(top);
            proof {
                assert(entries_view(top@) =~= seq![("tools"@, JsonData::Array(items_data))]);
            }
            return RequestOutcome::Respond(GabpResponse::success(id, result));
        }
        if string_eq_str(&request.method, "tools/call") {
            let name = match request.params.get("name") {
                Some(n) => match n.as_str() {
                    Some(s) => s.clone(),
                    None => {
                        return RequestOutcome::Respond(
                            GabpResponse::failure(id, -32602, "Missing tool name".to_owned(), None),
                        );
                    },
                },
                None => {
                    return RequestOutcome::Respond(
                        GabpResponse::failure(id, -32602, "Missing tool name".to_owned(), None),
                    );
                },
            };
            if !self.registry.has_tool(name.as_str()) {
                let data = single_member_value("tool", name);
                return RequestOutcome::Respond(
                    GabpResponse::failure(id, -32400, "Tool not found".to_owned(), Some(data)),
                );
            }
            let arguments = match request.params.get("arguments") {
                Some(a) => a.deep_copy(),
                None => object_of(Vec::new()),
            };
            proof {
                let empty: Seq<(String, JsonValue)> = Seq::empty();
                assert(entries_view(empty) =~= Seq::<(Seq<char>, JsonData)>::empty());
            }
            self.queue.enqueue(PendingToolCall { request_id: id.clone(), tool_name: name, arguments });
            return RequestOutcome::AwaitCompletion(id);
        }
        let data = single_member_value("method", request.method);
        RequestOutcome::Respond(GabpResponse::failure(id, -32601, "Method not found".to_owned(), Some(data)))
    }

    /// The answer to the `tools/call` request `id`, from the completion that
    /// came for it, or `None` when waiting for it timed out.
    pub fn finish_tools_call(id: String, completion: Option<ToolCompletion>) -> (r: GabpResponse)
        ensures
            r@ == tools_call_response(
                id@,
                match completion {
                    Some(c) => Some(c@),
                    None => None,
                },
            ),
    {
        match completion {
            Some(c) => match c.result {
                Ok(value) => GabpResponse::success(id, value),
                Err(f) => GabpResponse::failure(id, f.code, f.message, f.data),
            },
            None => GabpResponse::failure(id, -32403, "Tool execution timed out".to_owned(), None),
        }
    }

    /// The answer to a message that does not parse as a GABP request;
    /// `error` is the parser's message.
    pub fn parse_error_response(error: String) -> (r: GabpResponse)
        ensures
            r@ == parse_error_response_data(error@),
    {
        let data = single_member_value("error", error);
        GabpResponse::failure(
            "00000000-0000-0000-0000-000000000000".to_owned(),
            -32700,
            "Parse error".to_owned(),
            Some(data),
        )
    }
}

// ---------------------------------------------------------------------------
// What the Lua side calls
// ---------------------------------------------------------------------------

/// Two runtime states with the same configuration, tools and queue.
pub open spec fn same_state(a: BridgeRuntime, b: BridgeRuntime) -> bool {
    &&& a.config@ == b.config@
    &&& a.registry@ == b.registry@
    &&& a.queue@ == b.queue@
}

/// The descriptor that Lua's JSON text gives for tool `name`, or the
/// `Debug` text of the error.
pub open spec fn descriptor_result(name: Seq<char>, json: Seq<char>) -> Result<
    DescriptorData,
    Seq<char>,
> {
    match json_parse(json) {
        Err(msg) => Err("InvalidJson("@ + debug_text(msg) + ")"@),
        Ok(v) => match descriptor_of(name, v) {
            None => Err("MissingDescription"@),
            Some(d) => Ok(d),
        },
    }
}

/// The `Debug` text of the error that registering `d` meets, if any.
pub open spec fn registration_error(listing: Seq<DescriptorData>, d: DescriptorData) -> Option<
    Seq<char>,
> {
    if !valid_tool_name(d.name) {
        Some("InvalidToolName("@ + debug_text(d.name) + ")"@)
    } else if tool_map(listing).contains_key(d.name) {
        Some("DuplicateTool("@ + debug_text(d.name) + ")"@)
    } else {
        None
    }
}

/// Installs `runtime` in an empty slot; a slot that holds a runtime already
/// is left as it is.
pub fn set_global_runtime<R>(slot: &mut Option<R>, runtime: R) -> (r: Result<(), String>)
    ensures
        *old(slot) is Some ==> (r matches Err(m) && m@ == "runtime already started"@) && *final(slot)
            == *old(slot),
        *old(slot) is None ==> r is Ok && *final(slot) == Some(runtime),
{
    if slot.is_some() {
        return Err("runtime already started".to_owned());
    }
    *slot = Some(runtime);
    Ok(())
}

/// The runtime in the slot, or the error that the Lua functions report when
/// none was started (or it was shut down): `"runtime not started"`.
pub fn current_runtime<R>(slot: Option<R>) -> (r: Result<R, String>)
    ensures
        slot is None ==> (r matches Err(m) && m@ == "runtime not started"@),
        slot matches Some(x) ==> r == Ok::<R, String>(x),
{
    match slot {
        Some(x) => Ok(x),
        None => Err("runtime not started".to_owned()),
    }
}

/// Empties the runtime slot.
pub fn shutdown_global_runtime<R>(slot: &mut Option<R>)
    ensures
        *final(slot) is None,
{
    *slot = None;
}

/// Registers a tool that Lua describes in JSON text. `runtime` is the
/// current runtime, or the reason there is none; the descriptor is checked
/// before that reason is reported.
pub fn register_tool_from_lua(
    runtime: Result<&mut BridgeRuntime, String>,
    name: &str,
    descriptor_json: &str,
) -> (r: Result<(), String>)
    ensures
        descriptor_result(name@, descriptor_json@) matches Err(e) ==> (r matches Err(m) && m@ == e)
            && (runtime matches Ok(rt) ==> same_state(*final(rt), *rt)),
        descriptor_result(name@, descriptor_json@) is Ok ==> (runtime matches Err(e) ==> (
        r matches Err(m) && m@ == e@)),
        descriptor_result(name@, descriptor_json@) matches Ok(d) ==> (runtime matches Ok(rt) ==> (
        final(rt).config@ == rt.config@ && final(rt).queue@ == rt.queue@ && match registration_error(
            rt.registry@,
            d,
        ) {
            Some(e) => (r matches Err(m) && m@ == e) && final(rt).registry@ == rt.registry@,
            None => r is Ok && tool_map(final(rt).registry@) == tool_map(rt.registry@).insert(
                d.name,
                d,
            ),
        })),
{
    let descriptor = match parse_tool_descriptor(name, descriptor_json) {
        Ok(d) => d,
        Err(e) => {
            return Err(e.debug_string());
        },
    };
    let rt = match runtime {
        Ok(rt) => rt,
        Err(e) => {
            return Err(e);
        },
    };
    match rt.registry.register_tool(descriptor) {
        Ok(()) => Ok(()),
        Err(e) => Err(e.debug_string()),
    }
}

/// The oldest waiting call, as the JSON text that Lua receives; `None` when
/// there is no runtime or nothing waits.
pub fn poll_call_for_lua(runtime: Result<&mut BridgeRuntime, String>) -> (r: Option<String>)
    ensures
        runtime matches Ok(rt) ==> ({
            &&& final(rt).config@ == rt.config@
            &&& final(rt).registry@ == rt.registry@
            &&& final(rt).queue@.completions == rt.queue@.completions
            &&& rt.queue@.pending.len() == 0 ==> r is None && final(rt).queue@ == rt.queue@
            &&& rt.queue@.pending.len() > 0 ==> final(rt).queue@.pending
                == rt.queue@.pending.drop_first() && (r matches Some(s) && s@ == json_text(
                call_json(rt.queue@.pending[0]),
            ))
        }),
        runtime is Err ==> r is None,
{
    let rt = match runtime {
        Ok(rt) => rt,
        Err(_) => {
            return None;
        },
    };
    let call = match rt.queue.try_dequeue() {
        Some(c) => c,
        None => {
            return None;
        },
    };
    match pending_call_to_json(call) {
        Ok(s) => Some(s),
        Err(_) => None,
    }
}

/// Records that Lua finished request `request_id` with the result given as
/// JSON text.
pub fn complete_call_from_lua(
    runtime: Result<&mut BridgeRuntime, String>,
    request_id: &str,
    result_json: &str,
) -> (r: Result<(), String>)
    ensures
        json_parse(result_json@) matches Err(msg) ==> (r matches Err(m) && m@ == msg) && (
        runtime matches Ok(rt) ==> same_state(*final(rt), *rt)),
        json_parse(result_json@) is Ok ==> (runtime matches Err(e) ==> (r matches Err(m) && m@
            == e@)),
        json_parse(result_json@) matches Ok(v) ==> (runtime matches Ok(rt) ==> (r is Ok
            && final(rt).config@ == rt.config@ && final(rt).registry@ == rt.registry@
            && final(rt).queue@.pending == rt.queue@.pending && final(rt).queue@.completions
            == rt.queue@.completions.insert(
            request_id@,
            CompletionData { request_id: request_id@, result: Ok(v) },
        ))),
{
    let result = match JsonValue::parse(result_json) {
        Ok(v) => v,
        Err(msg) => {
            return Err(msg);
        },
    };
    let rt = match runtime {
        Ok(rt) => rt,
        Err(e) => {
            return Err(e);
        },
    };
    match rt.queue.complete(ToolCompletion { request_id: request_id.to_owned(), result: Ok(result) }) {
        Ok(()) => Ok(()),
        Err(e) => Err(e.debug_string()),
    }
}

/// The failure data that Lua hands in: nothing, or JSON text to parse.
pub open spec fn failure_data_result(data_json: Option<Seq<char>>) -> Result<
    Option<JsonData>,
    Seq<char>,
> {
    match data_json {
        None => Ok(None),
        Some(t) => match json_parse(t) {
            Ok(v) => Ok(Some(v)),
            Err(msg) => Err(msg),
        },
    }
}

/// Records that Lua failed request `request_id` with an error code, a
/// message and optional data given as JSON text.
pub fn fail_call_from_lua(
    runtime: Result<&mut BridgeRuntime, String>,
    request_id: &str,
    code: i32,
    message: &str,
    data_json: Option<&str>,
) -> (r: Result<(), String>)
    ensures
        ({
            let data = failure_data_result(
                match data_json {
                    Some(t) => Some(t@),
                    None => None,
                },
            );
            &&& data matches Err(msg) ==> (r matches Err(m) && m@ == msg) && (runtime matches Ok(rt)
                ==> same_state(*final(rt), *rt))
            &&& data is Ok ==> (runtime matches Err(e) ==> (r matches Err(m) && m@ == e@))
            &&& data matches Ok(d) ==> (runtime matches Ok(rt) ==> (r is Ok && final(rt).config@
                == rt.config@ && final(rt).registry@ == rt.registry@ && final(rt).queue@.pending
                == rt.queue@.pending && final(rt).queue@.completions
                == rt.queue@.completions.insert(
                request_id@,
                CompletionData {
                    request_id: request_id@,
                    result: Err(FailureData { code, message: message@, data: d }),
                },
            )))
        }),
{
    let data = match data_json {
        Some(raw) => match JsonValue::parse(raw) {
            Ok(v) => Some(v),
            Err(msg) => {
                return Err(msg);
            },
        },
        None => None,
    };
    let rt = match runtime {
        Ok(rt) => rt,
        Err(e) => {
            return Err(e);
        },
    };
    let failure = ToolFailure { code, message: message.to_owned(), data };
    match rt.queue.complete(ToolCompletion { request_id: request_id.to_owned(), result: Err(failure) }) {
        Ok(()) => Ok(()),
        Err(e) => Err(e.debug_string()),
    }
}

} // verus!
