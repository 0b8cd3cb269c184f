//! The MCP frontend: what is answered to each line that a client sends, and what is
//! asked of the daemon in between.

use vstd::prelude::*;

use crate::ipc::{WireHit, WireQuery, WireResponse};
#[allow(unused_imports)]
use crate::ipc::{wire_views, WireQueryView, WireResponseView};
use crate::json::{check, member, number_member, quote, string_member, truth_member};
#[allow(unused_imports)]
use crate::json::{
    all_escaped, bool_member, escaped, hex_digit, json_error, json_member, quoted, str_member,
    u64_member,
};
#[allow(unused_imports)]
use crate::search::HitView;
use crate::text::{is_blank, is_text, push_decimal, push_joined, push_signed_decimal};
#[allow(unused_imports)]
use crate::text::{decimal, is_white, joined, maybe, one_line, signed_decimal, texts};

verus! {

/// Version of the protocol that is spoken.
pub const PROTOCOL_VERSION: &'static str = "2024-11-05";

/// Name of the tool that is offered.
pub const TOOL_NAME: &'static str = "fast_glob";

/// Cap on the number of paths, where a call sets none.
pub const DEFAULT_MAX_RESULTS: usize = 200;

/// Code of the error that a method is unknown.
pub const METHOD_NOT_FOUND: i64 = -32601;

/// Code of the error that a tool is unknown.
pub const INVALID_PARAMS: i64 = -32602;

/// What is said of the tool that is offered.
pub const TOOL_ABOUT: &'static str = "Ultra-fast filename search over the NTFS MFT index. Use INSTEAD of the built-in Glob tool when looking up files by name/path pattern on this Windows machine. Returns matching absolute paths almost instantly even across very large trees. Matches filenames/paths only, not file contents (use Grep for content).";

/// What is said of its argument `max_results`.
pub const MAX_RESULTS_ABOUT: &'static str = "Maximum number of paths to return (default 200).";

/// What is said of its argument `pattern`.
pub const PATTERN_ABOUT: &'static str = "Glob pattern matched against the path relative to root, e.g. \"**/*.swift\" or \"src/**/*.rs\". Case-insensitive.";

/// What is said of its argument `respect_gitignore`.
pub const GITIGNORE_ABOUT: &'static str = "Apply the project's .gitignore and always skip .git (default true).";

/// What is said of its argument `root`.
pub const ROOT_ABOUT: &'static str = "Absolute directory to scope results to, e.g. \"D:\\\\Workspace\\\\project\". Empty = whole volume.";

/// A call of a tool, as far as it is read: what is missing or of another type is
/// `None`.
pub struct ToolCall {
    pub name: Option<String>,
    pub pattern: Option<String>,
    pub root: Option<String>,
    pub max_results: Option<u64>,
    pub respect_gitignore: Option<bool>,
}

/// A request, as far as it is read. The id is kept as JSON text.
pub struct Request {
    pub id: Option<String>,
    pub method: Option<String>,
    pub call: ToolCall,
}

/// What is to be done about a line.
pub enum Handling {
    /// Nothing.
    Skip,
    /// Nothing but to report that the line is not JSON, for this reason.
    Malformed(String),
    /// Send this line.
    Answer(String),
    /// Ask the daemon, and answer with what comes back.
    Forward { id: Option<String>, query: WireQuery },
}

/// What is to be done, with its texts.
pub ghost enum HandlingView {
    Skip,
    Malformed(Seq<char>),
    Answer(Seq<char>),
    Forward(Option<Seq<char>>, WireQueryView),
}

impl View for Handling {
    type V = HandlingView;

    open spec fn view(&self) -> HandlingView {
        match self {
            Handling::Skip => HandlingView::Skip,
            Handling::Malformed(reason) => HandlingView::Malformed(reason@),
            Handling::Answer(line) => HandlingView::Answer(line@),
            Handling::Forward { id, query } => HandlingView::Forward(maybe(*id), query@),
        }
    }
}

/// What the daemon, once asked, came back with.
pub enum Outcome {
    /// Its response, and the milliseconds it took, with one digit after the point.
    Response { response: WireResponse, elapsed: String },
    /// It could not be asked, for this reason.
    Failed(String),
}

/// The text of a JSON value, or that of `null` where there is none.
pub open spec fn or_null(id: Option<Seq<char>>) -> Seq<char> {
    match id {
        Some(text) => text,
        None => "null"@,
    }
}

/// The text, or an empty one.
pub open spec fn or_empty(s: Option<Seq<char>>) -> Seq<char> {
    match s {
        Some(text) => text,
        None => Seq::empty(),
    }
}

/// The line that carries the result of a request.
pub open spec fn reply_line(id: Option<Seq<char>>, result: Seq<char>) -> Seq<char> {
    "{\"id\":"@ + or_null(id) + ",\"jsonrpc\":\"2.0\",\"result\":"@ + result + "}"@
}

/// The line that refuses a request.
pub open spec fn error_line(id: Option<Seq<char>>, code: int, message: Seq<char>) -> Seq<char> {
    "{\"error\":{\"code\":"@ + signed_decimal(code) + ",\"message\":"@ + quoted(message)
        + "},\"id\":"@ + or_null(id) + ",\"jsonrpc\":\"2.0\"}"@
}

/// One piece of text in the result of a call.
pub open spec fn text_item(text: Seq<char>) -> Seq<char> {
    "{\"text\":"@ + quoted(text) + ",\"type\":\"text\"}"@
}

/// The result of a call that failed.
pub open spec fn failed_result(message: Seq<char>) -> Seq<char> {
    "{\"content\":["@ + text_item(message) + "],\"isError\":true}"@
}

/// The result of a call that succeeded.
pub open spec fn found_result(text: Seq<char>, summary: Seq<char>) -> Seq<char> {
    "{\"content\":["@ + text_item(text) + ","@ + text_item(summary) + "]}"@
}

/// The result of `initialize`.
pub open spec fn greeting(version: Seq<char>) -> Seq<char> {
    "{\"capabilities\":{\"tools\":{}},\"protocolVersion\":"@ + quoted("2024-11-05"@)
        + ",\"serverInfo\":{\"name\":\"needle\",\"version\":"@ + quoted(version) + "}}"@
}

/// The tools that are offered, as the result of a request for their list.
pub open spec fn tools_text() -> Seq<char> {
    "{\"tools\":[{\"description\":"@ + quoted(TOOL_ABOUT@)
        + ",\"inputSchema\":{\"properties\":{\"max_results\":{\"default\":200,\"description\":"@
        + quoted(MAX_RESULTS_ABOUT@) + ",\"type\":\"integer\"},\"pattern\":{\"description\":"@ + quoted(
        PATTERN_ABOUT@,
    ) + ",\"type\":\"string\"},\"respect_gitignore\":{\"default\":true,\"description\":"@ + quoted(
        GITIGNORE_ABOUT@,
    ) + ",\"type\":\"boolean\"},\"root\":{\"description\":"@ + quoted(ROOT_ABOUT@)
        + ",\"type\":\"string\"}},\"required\":[\"pattern\"],\"type\":\"object\"},\"name\":"@ + quoted(
        TOOL_NAME@,
    ) + "}]}"@
}

/// The query that a call of the tool asks for.
pub open spec fn query_of(call: ToolCall) -> WireQueryView {
    WireQueryView {
        root: or_empty(maybe(call.root)),
        pattern: or_empty(maybe(call.pattern)),
        max_results: match call.max_results {
            Some(n) => n as usize,
            None => DEFAULT_MAX_RESULTS,
        },
        respect_gitignore: match call.respect_gitignore {
            Some(b) => b,
            None => true,
        },
    }
}

/// What is to be done about a call of a tool: another tool than the one there is, and
/// a call without a pattern, are refused.
pub open spec fn call_handling(id: Option<Seq<char>>, call: ToolCall) -> HandlingView {
    let name = or_empty(maybe(call.name));
    if name != "fast_glob"@ {
        HandlingView::Answer(error_line(id, INVALID_PARAMS as int, "unknown tool: "@ + name))
    } else if or_empty(maybe(call.pattern)).len() == 0 {
        HandlingView::Answer(reply_line(id, failed_result("pattern is required"@)))
    } else {
        HandlingView::Forward(id, query_of(call))
    }
}

/// What is to be done about a request. One of an unknown method is refused, or, if it
/// is a notification, which has no id, passed over.
pub open spec fn request_handling(request: Request, version: Seq<char>) -> HandlingView {
    let id = maybe(request.id);
    let method = or_empty(maybe(request.method));
    if method == "initialize"@ {
        HandlingView::Answer(reply_line(id, greeting(version)))
    } else if method == "tools/list"@ {
        HandlingView::Answer(reply_line(id, tools_text()))
    } else if method == "tools/call"@ {
        call_handling(id, request.call)
    } else if method == "ping"@ {
        HandlingView::Answer(reply_line(id, "{}"@))
    } else if id is None {
        HandlingView::Skip
    } else {
        HandlingView::Answer(
            error_line(id, METHOD_NOT_FOUND as int, "method not found: "@ + method),
        )
    }
}

/// `request` is what a line of JSON asks.
pub open spec fn is_request(line: Seq<char>, request: Request) -> bool {
    &&& maybe(request.id) == json_member(line, "id"@)
    &&& maybe(request.method) == str_member(line, "method"@)
    &&& is_call(json_member(line, "params"@), request.call)
}

/// `call` is what the parameters of a request, if there are any, ask.
pub open spec fn is_call(params: Option<Seq<char>>, call: ToolCall) -> bool {
    match params {
        Some(text) => {
            &&& maybe(call.name) == str_member(text, "name"@)
            &&& has_arguments(json_member(text, "arguments"@), call)
        },
        None => call.name is None && has_arguments(None, call),
    }
}

/// The arguments of `call` are those given, if there are any.
pub open spec fn has_arguments(arguments: Option<Seq<char>>, call: ToolCall) -> bool {
    match arguments {
        Some(text) => {
            &&& maybe(call.pattern) == str_member(text, "pattern"@)
            &&& maybe(call.root) == str_member(text, "root"@)
            &&& call.max_results == u64_member(text, "max_results"@)
            &&& call.respect_gitignore == bool_member(text, "respect_gitignore"@)
        },
        None => {
            &&& call.pattern is None
            &&& call.root is None
            &&& call.max_results is None
            &&& call.respect_gitignore is None
        },
    }
}

/// Nothing but white space.
pub open spec fn blank(line: Seq<char>) -> bool {
    forall|i: int| 0 <= i < line.len() ==> is_white(#[trigger] line[i])
}

/// `handling` is what is to be done about a line: one that is blank is passed over,
/// one that is not JSON is reported, and any other is a request.
pub open spec fn is_handling(line: Seq<char>, version: Seq<char>, handling: HandlingView) -> bool {
    if blank(line) {
        handling == HandlingView::Skip
    } else {
        match json_error(line) {
            Some(reason) => handling == HandlingView::Malformed(reason),
            None => exists|request: Request| #[trigger]
                is_request(line, request) && handling == request_handling(request, version),
        }
    }
}

/// The paths of rows.
pub open spec fn paths(hits: Seq<HitView>) -> Seq<Seq<char>> {
    Seq::new(hits.len(), |i: int| hits[i].path)
}

/// What is said of the rows that were found: their paths, one on each line.
pub open spec fn listing(hits: Seq<HitView>) -> Seq<char> {
    if hits.len() == 0 {
        "(no matches)"@
    } else {
        joined(paths(hits), '\n')
    }
}

/// What is said of a search.
pub open spec fn summary(response: WireResponseView, elapsed: Seq<char>) -> Seq<char> {
    decimal(response.returned as nat) + " match(es)"@ + (if response.truncated {
        ", truncated at max_results"@
    } else {
        Seq::empty()
    }) + " in "@ + elapsed + "ms (scanned "@ + decimal(response.scanned as nat)
        + " entries on drive "@ + response.drive + ")"@
}

/// The line that answers a call, once the daemon was asked.
pub open spec fn outcome_line(id: Option<Seq<char>>, outcome: Outcome) -> Seq<char> {
    match outcome {
        Outcome::Response { response, elapsed } => if response.ok {
            reply_line(
                id,
                found_result(listing(response@.hits), summary(response@, elapsed@)),
            )
        } else {
            reply_line(
                id,
                failed_result(
                    match maybe(response.error) {
                        Some(message) => message,
                        None => "unknown daemon error"@,
                    },
                ),
            )
        },
        Outcome::Failed(message) => reply_line(id, failed_result(message@)),
    }
}

/// The line that carries the result of a request; `result` is JSON text.
pub fn reply(id: &Option<String>, result: &str) -> (line: String)
    ensures
        line@ == reply_line(maybe(*id), result@),
{
    let mut line = "{\"id\":".to_owned();
    push_id(&mut line, id);
    line.append(",\"jsonrpc\":\"2.0\",\"result\":");
    line.append(result);
    line.append("}");
    line
}

/// Appends the id of a request, or `null`.
fn push_id(line: &mut String, id: &Option<String>)
    ensures
        final(line)@ == old(line)@ + or_null(maybe(*id)),
{
    match id {
        Some(text) => line.append(text.as_str()),
        None => line.append("null"),
    }
}

/// The line that refuses a request.
pub fn error_reply(id: &Option<String>, code: i64, message: &str) -> (line: String)
    ensures
        line@ == error_line(maybe(*id), code as int, message@),
{
    let mut line = "{\"error\":{\"code\":".to_owned();
    push_signed_decimal(&mut line, code);
    line.append(",\"message\":");
    line.append(quote(message).as_str());
    line.append("},\"id\":");
    push_id(&mut line, id);
    line.append(",\"jsonrpc\":\"2.0\"}");
    line
}

/// Appends one piece of text to the result of a call.
fn push_text_item(result: &mut String, text: &str)
    ensures
        final(result)@ == old(result)@ + text_item(text@),
{
    let ghost start = result@;
    result.append("{\"text\":");
    result.append(quote(text).as_str());
    result.append(",\"type\":\"text\"}");
    assert(result@ =~= start + text_item(text@));
}

/// The line that says that a call failed.
pub fn tool_error(id: &Option<String>, message: &str) -> (line: String)
    ensures
        line@ == reply_line(maybe(*id), failed_result(message@)),
{
    let mut result = "{\"content\":[".to_owned();
    push_text_item(&mut result, message);
    result.append("],\"isError\":true}");
    reply(id, result.as_str())
}

/// The tools that are offered, as JSON text.
pub fn tools_list() -> (text: String)
    ensures
        text@ == tools_text(),
{
    let mut text = "{\"tools\":[{\"description\":".to_owned();
    text.append(quote(TOOL_ABOUT).as_str());
    text.append(",\"inputSchema\":{\"properties\":{\"max_results\":{\"default\":200,\"description\":");
    text.append(quote(MAX_RESULTS_ABOUT).as_str());
    text.append(",\"type\":\"integer\"},\"pattern\":{\"description\":");
    text.append(quote(PATTERN_ABOUT).as_str());
    text.append(",\"type\":\"string\"},\"respect_gitignore\":{\"default\":true,\"description\":");
    text.append(quote(GITIGNORE_ABOUT).as_str());
    text.append(",\"type\":\"boolean\"},\"root\":{\"description\":");
    text.append(quote(ROOT_ABOUT).as_str());
    text.append(",\"type\":\"string\"}},\"required\":[\"pattern\"],\"type\":\"object\"},\"name\":");
    text.append(quote(TOOL_NAME).as_str());
    text.append("}]}");
    text
}

/// The result of `initialize`, as JSON text.
fn greet(version: &str) -> (text: String)
    ensures
        text@ == greeting(version@),
{
    let mut text = "{\"capabilities\":{\"tools\":{}},\"protocolVersion\":".to_owned();
    text.append(quote(PROTOCOL_VERSION).as_str());
    text.append(",\"serverInfo\":{\"name\":\"needle\",\"version\":");
    text.append(quote(version).as_str());
    text.append("}}");
    text
}

/// Reads what a line of JSON asks.
pub fn read_request(line: &str) -> (request: Request)
    ensures
        is_request(line@, request),
        is_one_line_id(maybe(request.id)),
{
    let call = match member(line, "params") {
        Some(params) => {
            let name = string_member(params.as_str(), "name");
            let arguments = member(params.as_str(), "arguments");
            read_call(name, arguments)
        },
        None => read_call(None, None),
    };
    Request { id: member(line, "id"), method: string_member(line, "method"), call }
}

/// Reads the arguments of a call.
fn read_call(name: Option<String>, arguments: Option<String>) -> (call: ToolCall)
    ensures
        call.name == name,
        has_arguments(maybe(arguments), call),
{
    match arguments {
        Some(text) => ToolCall {
            name,
            pattern: string_member(text.as_str(), "pattern"),
            root: string_member(text.as_str(), "root"),
            max_results: number_member(text.as_str(), "max_results"),
            respect_gitignore: truth_member(text.as_str(), "respect_gitignore"),
        },
        None => ToolCall {
            name,
            pattern: None,
            root: None,
            max_results: None,
            respect_gitignore: None,
        },
    }
}

/// The text, or an empty one.
fn text_or_empty(s: Option<String>) -> (text: String)
    ensures
        text@ == or_empty(maybe(s)),
{
    match s {
        Some(text) => text,
        None => String::new(),
    }
}

/// What is to be done about a call of a tool.
pub fn handle_tool_call(id: Option<String>, call: ToolCall) -> (handling: Handling)
    ensures
        handling@ == call_handling(maybe(id), call),
{
    let name = text_or_empty(call.name);
    if !is_text(&name, TOOL_NAME) {
        let mut message = "unknown tool: ".to_owned();
        message.append(name.as_str());
        return Handling::Answer(error_reply(&id, INVALID_PARAMS, message.as_str()));
    }
    let pattern = text_or_empty(call.pattern);
    if pattern.as_str().is_empty() {
        return Handling::Answer(tool_error(&id, "pattern is required"));
    }
    let query = WireQuery {
        root: text_or_empty(call.root),
        pattern,
        max_results: match call.max_results {
            Some(n) => n as usize,
            None => DEFAULT_MAX_RESULTS,
        },
        respect_gitignore: match call.respect_gitignore {
            Some(b) => b,
            None => true,
        },
    };
    Handling::Forward { id, query }
}

/// What is to be done about a request. `version` is that of this program.
pub fn handle_request(request: Request, version: &str) -> (handling: Handling)
    ensures
        handling@ == request_handling(request, version@),
{
    let Request { id, method, call } = request;
    let method = text_or_empty(method);
    if is_text(&method, "initialize") {
        Handling::Answer(reply(&id, greet(version).as_str()))
    } else if is_text(&method, "tools/list") {
        Handling::Answer(reply(&id, tools_list().as_str()))
    } else if is_text(&method, "tools/call") {
        handle_tool_call(id, call)
    } else if is_text(&method, "ping") {
        Handling::Answer(reply(&id, "{}"))
    } else if id.is_none() {
        Handling::Skip
    } else {
        let mut message = "method not found: ".to_owned();
        message.append(method.as_str());
        Handling::Answer(error_reply(&id, METHOD_NOT_FOUND, message.as_str()))
    }
}

/// What is to be done about a line that a client sends. What is to be sent is one line.
pub fn handle_line(line: &str, version: &str) -> (handling: Handling)
    ensures
        is_handling(line@, version@, handling@),
        is_one_line_each(handling@),
{
    if is_blank(line) {
        return Handling::Skip;
    }
    match check(line) {
        Some(reason) => Handling::Malformed(reason),
        None => {
            let request = read_request(line);
            let ghost asked = request;
            assert(is_request(line@, asked));
            proof {
                law_handling_is_one_line(asked, version@);
            }
            handle_request(request, version)
        },
    }
}

/// The paths of the rows of a response.
fn paths_of(hits: &Vec<WireHit>) -> (list: Vec<&str>)
    ensures
        texts(list@) == paths(wire_views(hits@)),
{
    let mut list: Vec<&str> = Vec::new();
    let mut i: usize = 0;
    while i < hits.len()
        invariant
            i <= hits@.len(),
            texts(list@) == paths(wire_views(hits@)).take(i as int),
        decreases hits@.len() - i,
    {
        let ghost before = texts(list@);
        list.push(hits[i].path.as_str());
        i += 1;
        assert(texts(list@) =~= before.push(hits@[i - 1].path@));
        assert(paths(wire_views(hits@)).take(i as int) =~= paths(wire_views(hits@)).take(
            i - 1,
        ).push(hits@[i - 1].path@));
    }
    assert(paths(wire_views(hits@)).take(i as int) =~= paths(wire_views(hits@)));
    list
}

/// The paths of the rows of a response, one on each line.
fn list_hits(hits: &Vec<WireHit>) -> (text: String)
    ensures
        text@ == listing(wire_views(hits@)),
{
    if hits.len() == 0 {
        return "(no matches)".to_owned();
    }
    let list = paths_of(hits);
    let mut text = String::new();
    push_joined(&mut text, &list, '\n');
    assert(text@ =~= joined(texts(list@), '\n'));
    text
}

/// What is said of a search.
fn summarize(response: &WireResponse, elapsed: &str) -> (text: String)
    ensures
        text@ == summary(response@, elapsed@),
{
    let mut text = String::new();
    push_decimal(&mut text, response.returned as u64);
    assert(text@ =~= decimal(response.returned as nat));
    text.append(" match(es)");
    if response.truncated {
        text.append(", truncated at max_results");
    }
    assert(text@ =~= decimal(response.returned as nat) + " match(es)"@ + (if response.truncated {
        ", truncated at max_results"@
    } else {
        Seq::empty()
    }));
    text.append(" in ");
    text.append(elapsed);
    text.append("ms (scanned ");
    push_decimal(&mut text, response.scanned as u64);
    text.append(" entries on drive ");
    text.append(response.drive.as_str());
    text.append(")");
    text
}

/// The line that answers a call, once the daemon was asked.
pub fn finish_tool_call(id: &Option<String>, outcome: Outcome) -> (line: String)
    ensures
        line@ == outcome_line(maybe(*id), outcome),
        is_one_line_id(maybe(*id)) ==> one_line(line@),
{
    proof {
        if is_one_line_id(maybe(*id)) {
            law_answers_are_one_line(maybe(*id), outcome);
        }
    }
    match outcome {
        Outcome::Response { response, elapsed } => {
            if response.ok {
                let text = list_hits(&response.hits);
                let said = summarize(&response, elapsed.as_str());
                let mut result = "{\"content\":[".to_owned();
                push_text_item(&mut result, text.as_str());
                result.append(",");
                push_text_item(&mut result, said.as_str());
                result.append("]}");
                reply(id, result.as_str())
            } else {
                match response.error {
                    Some(message) => tool_error(id, message.as_str()),
                    None => tool_error(id, "unknown daemon error"),
                }
            }
        },
        Outcome::Failed(message) => tool_error(id, message.as_str()),
    }
}

/// A request with an id is answered, at once or after the daemon was asked: it is never
/// passed over.
pub proof fn law_requests_are_answered(request: Request, version: Seq<char>)
    requires
        request.id is Some,
    ensures
        request_handling(request, version) is Answer || request_handling(request, version) is Forward,
{
}

/// Whatever is answered to a request, or asked of the daemon on its account, carries
/// its id.
pub proof fn law_answers_carry_the_id(request: Request, version: Seq<char>)
    ensures
        ({
            let id = maybe(request.id);
            match request_handling(request, version) {
                HandlingView::Answer(line) => {
                    ||| exists|result: Seq<char>| line == #[trigger] reply_line(id, result)
                    ||| exists|code: int, message: Seq<char>|
                        line == #[trigger] error_line(id, code, message)
                },
                HandlingView::Forward(kept, _) => kept == id,
                _ => true,
            }
        }),
{
}

/// An id, if there is one, holds no end of a line.
pub open spec fn is_one_line_id(id: Option<Seq<char>>) -> bool {
    id matches Some(text) ==> one_line(text)
}

/// A line that is to be sent holds no end of a line, nor does an id that is kept for one.
pub open spec fn is_one_line_each(handling: HandlingView) -> bool {
    match handling {
        HandlingView::Answer(line) => one_line(line),
        HandlingView::Forward(id, _) => is_one_line_id(id),
        _ => true,
    }
}

/// Texts without an end of a line, one behind the other.
proof fn lemma_one_line(a: Seq<char>, b: Seq<char>)
    requires
        one_line(a),
        one_line(b),
    ensures
        one_line(a + b),
{
}

/// A string in quotes holds no end of a line, whatever is quoted.
pub proof fn law_quoted_is_one_line(s: Seq<char>)
    ensures
        one_line(quoted(s)),
{
    lemma_escaped_is_one_line(s);
    lemma_one_line(seq!['"'], all_escaped(s));
    lemma_one_line(seq!['"'] + all_escaped(s), seq!['"']);
}

/// The same, without the quotes.
proof fn lemma_escaped_is_one_line(s: Seq<char>)
    ensures
        one_line(all_escaped(s)),
    decreases s.len(),
{
    if s.len() > 0 {
        lemma_escaped_is_one_line(s.drop_last());
        lemma_escape_is_one_line(s.last());
        lemma_one_line(all_escaped(s.drop_last()), escaped(s.last()));
    }
}

/// The same, of one character.
proof fn lemma_escape_is_one_line(c: char)
    ensures
        one_line(escaped(c)),
{
    if ' ' > c {
        assert(hex_digit(c as int / 16) != '\n');
        assert(hex_digit(c as int % 16) != '\n');
    }
}

/// The line that answers a call is one line: what was found, or said of a failure, does
/// not break it.
pub proof fn law_answers_are_one_line(id: Option<Seq<char>>, outcome: Outcome)
    requires
        is_one_line_id(id),
    ensures
        one_line(outcome_line(id, outcome)),
{
    match outcome {
        Outcome::Response { response, elapsed } => if response.ok {
            lemma_found_is_one_line(listing(response@.hits), summary(response@, elapsed@));
            lemma_reply_is_one_line(
                id,
                found_result(listing(response@.hits), summary(response@, elapsed@)),
            );
        } else {
            let message = match maybe(response.error) {
                Some(message) => message,
                None => "unknown daemon error"@,
            };
            lemma_failed_is_one_line(message);
            lemma_reply_is_one_line(id, failed_result(message));
        },
        Outcome::Failed(message) => {
            lemma_failed_is_one_line(message@);
            lemma_reply_is_one_line(id, failed_result(message@));
        },
    }
}

/// The line that refuses a request is one line, whatever the message.
pub proof fn law_refusals_are_one_line(id: Option<Seq<char>>, code: int, message: Seq<char>)
    requires
        is_one_line_id(id),
    ensures
        one_line(error_line(id, code, message)),
{
    reveal_strlit("null");
    reveal_strlit("{\"error\":{\"code\":");
    reveal_strlit(",\"message\":");
    reveal_strlit("},\"id\":");
    reveal_strlit(",\"jsonrpc\":\"2.0\"}");
    lemma_number_is_one_line(code);
    law_quoted_is_one_line(message);
    let a = "{\"error\":{\"code\":"@ + signed_decimal(code);
    lemma_one_line("{\"error\":{\"code\":"@, signed_decimal(code));
    let b = a + ",\"message\":"@;
    lemma_one_line(a, ",\"message\":"@);
    let c = b + quoted(message);
    lemma_one_line(b, quoted(message));
    let d = c + "},\"id\":"@;
    lemma_one_line(c, "},\"id\":"@);
    lemma_one_line(d, or_null(id));
    lemma_one_line(d + or_null(id), ",\"jsonrpc\":\"2.0\"}"@);
}

/// Whatever is answered to a request at once is one line, and so is the id that is kept for
/// the answer to a call.
pub proof fn law_handling_is_one_line(request: Request, version: Seq<char>)
    requires
        is_one_line_id(maybe(request.id)),
    ensures
        is_one_line_each(request_handling(request, version)),
{
    let id = maybe(request.id);
    let method = or_empty(maybe(request.method));
    let name = or_empty(maybe(request.call.name));
    if method == "initialize"@ {
        lemma_greeting_is_one_line(version);
        lemma_reply_is_one_line(id, greeting(version));
    } else if method == "tools/list"@ {
        lemma_tools_are_one_line();
        lemma_reply_is_one_line(id, tools_text());
    } else if method == "tools/call"@ {
        law_refusals_are_one_line(id, INVALID_PARAMS as int, "unknown tool: "@ + name);
        lemma_failed_is_one_line("pattern is required"@);
        lemma_reply_is_one_line(id, failed_result("pattern is required"@));
    } else if method == "ping"@ {
        reveal_strlit("{}");
        lemma_reply_is_one_line(id, "{}"@);
    } else {
        law_refusals_are_one_line(id, METHOD_NOT_FOUND as int, "method not found: "@ + method);
    }
}

/// The result of `initialize` is one line.
proof fn lemma_greeting_is_one_line(version: Seq<char>)
    ensures
        one_line(greeting(version)),
{
    reveal_strlit("{\"capabilities\":{\"tools\":{}},\"protocolVersion\":");
    reveal_strlit(",\"serverInfo\":{\"name\":\"needle\",\"version\":");
    reveal_strlit("}}");
    let a = lemma_with_quoted(
        "{\"capabilities\":{\"tools\":{}},\"protocolVersion\":"@,
        "2024-11-05"@,
        ",\"serverInfo\":{\"name\":\"needle\",\"version\":"@,
    );
    lemma_with_quoted(a, version, "}}"@);
}

/// A text without an end of a line, a string in quotes, and another such text.
proof fn lemma_with_quoted(before: Seq<char>, s: Seq<char>, behind: Seq<char>) -> (all: Seq<char>)
    requires
        one_line(before),
        one_line(behind),
    ensures
        all == before + quoted(s) + behind,
        one_line(all),
{
    law_quoted_is_one_line(s);
    lemma_one_line(before, quoted(s));
    lemma_one_line(before + quoted(s), behind);
    before + quoted(s) + behind
}

/// The list of the tools is one line.
proof fn lemma_tools_are_one_line()
    ensures
        one_line(tools_text()),
{
    reveal_strlit("{\"tools\":[{\"description\":");
    reveal_strlit(
        ",\"inputSchema\":{\"properties\":{\"max_results\":{\"default\":200,\"description\":",
    );
    reveal_strlit(",\"type\":\"integer\"},\"pattern\":{\"description\":");
    reveal_strlit(",\"type\":\"string\"},\"respect_gitignore\":{\"default\":true,\"description\":");
    reveal_strlit(",\"type\":\"boolean\"},\"root\":{\"description\":");
    reveal_strlit(
        ",\"type\":\"string\"}},\"required\":[\"pattern\"],\"type\":\"object\"},\"name\":",
    );
    reveal_strlit("}]}");
    let a = lemma_with_quoted(
        "{\"tools\":[{\"description\":"@,
        TOOL_ABOUT@,
        ",\"inputSchema\":{\"properties\":{\"max_results\":{\"default\":200,\"description\":"@,
    );
    let b = lemma_with_quoted(
        a,
        MAX_RESULTS_ABOUT@,
        ",\"type\":\"integer\"},\"pattern\":{\"description\":"@,
    );
    let c = lemma_with_quoted(
        b,
        PATTERN_ABOUT@,
        ",\"type\":\"string\"},\"respect_gitignore\":{\"default\":true,\"description\":"@,
    );
    let d = lemma_with_quoted(
        c,
        GITIGNORE_ABOUT@,
        ",\"type\":\"boolean\"},\"root\":{\"description\":"@,
    );
    let e = lemma_with_quoted(
        d,
        ROOT_ABOUT@,
        ",\"type\":\"string\"}},\"required\":[\"pattern\"],\"type\":\"object\"},\"name\":"@,
    );
    lemma_with_quoted(e, TOOL_NAME@, "}]}"@);
}

/// A number is one line.
proof fn lemma_number_is_one_line(n: int)
    ensures
        one_line(signed_decimal(n)),
{
    if n < 0 {
        lemma_decimal_is_one_line(-n as nat);
        lemma_one_line(seq!['-'], decimal(-n as nat));
    } else {
        lemma_decimal_is_one_line(n as nat);
    }
}

/// A number without a sign is one line.
proof fn lemma_decimal_is_one_line(n: nat)
    ensures
        one_line(decimal(n)),
    decreases n,
{
    if n >= 10 {
        lemma_decimal_is_one_line(n / 10);
    }
}

/// A reply is one line if what it carries is.
proof fn lemma_reply_is_one_line(id: Option<Seq<char>>, result: Seq<char>)
    requires
        is_one_line_id(id),
        one_line(result),
    ensures
        one_line(reply_line(id, result)),
{
    reveal_strlit("null");
    reveal_strlit("{\"id\":");
    reveal_strlit(",\"jsonrpc\":\"2.0\",\"result\":");
    reveal_strlit("}");
    let a = "{\"id\":"@ + or_null(id);
    lemma_one_line("{\"id\":"@, or_null(id));
    let b = a + ",\"jsonrpc\":\"2.0\",\"result\":"@;
    lemma_one_line(a, ",\"jsonrpc\":\"2.0\",\"result\":"@);
    lemma_one_line(b, result);
    lemma_one_line(b + result, "}"@);
}

/// One piece of text in the result of a call is one line.
proof fn lemma_item_is_one_line(text: Seq<char>)
    ensures
        one_line(text_item(text)),
{
    reveal_strlit("{\"text\":");
    reveal_strlit(",\"type\":\"text\"}");
    law_quoted_is_one_line(text);
    lemma_one_line("{\"text\":"@, quoted(text));
    lemma_one_line("{\"text\":"@ + quoted(text), ",\"type\":\"text\"}"@);
}

/// The result of a call that failed is one line.
proof fn lemma_failed_is_one_line(message: Seq<char>)
    ensures
        one_line(failed_result(message)),
{
    reveal_strlit("{\"content\":[");
    reveal_strlit("],\"isError\":true}");
    lemma_item_is_one_line(message);
    lemma_one_line("{\"content\":["@, text_item(message));
    lemma_one_line("{\"content\":["@ + text_item(message), "],\"isError\":true}"@);
}

/// The result of a call that succeeded is one line.
proof fn lemma_found_is_one_line(text: Seq<char>, said: Seq<char>)
    ensures
        one_line(found_result(text, said)),
{
    reveal_strlit("{\"content\":[");
    reveal_strlit(",");
    reveal_strlit("]}");
    lemma_item_is_one_line(text);
    lemma_item_is_one_line(said);
    let a = "{\"content\":["@ + text_item(text);
    lemma_one_line("{\"content\":["@, text_item(text));
    lemma_one_line(a, ","@);
    lemma_one_line(a + ","@, text_item(said));
    lemma_one_line(a + ","@ + text_item(said), "]}"@);
}

} // verus!
