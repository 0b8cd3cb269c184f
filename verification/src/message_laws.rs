//! What is said to clients: every request gets the answer that belongs to it, calls are
//! handed on as they were made, and what was found is told whole.

use vstd::prelude::*;

use crate::engine::{QueryError, QueryStats};
use crate::ipc::{bad_request, refusal, response_to, response_with, WireQuery, WireResponse};
use crate::json::{json_bool, json_error, json_member, json_str, json_u64, quoted};
use crate::machine::Answer;
use crate::mcp::{
    error_line, failed_result, found_result, greeting, is_handling, is_request, listing, or_empty,
    outcome_line, paths, reply_line, request_handling, summary, tools_text, Handling,
    HandlingView, Outcome, Request,
};
use crate::report::{bench_head_text, bench_row_text, find_line, index_line, query_line};
use crate::search::{Hit, HitView};
use crate::text::{decimal, is_white, maybe, signed_decimal, upper};
use crate::text_laws::law_joining;

verus! {

/// A call of the tool is handed on as it was made: the pattern as it is; the root, the cap
/// and whether ignore rules count as they were given, or nothing, 200 and yes where they
/// were not.
pub proof fn law_call_is_handed_on(request: Request, version: Seq<char>)
    requires
        request.method matches Some(method) && method@ == "tools/call"@,
        request.call.name matches Some(name) && name@ == "fast_glob"@,
        request.call.pattern matches Some(pattern) && pattern@.len() > 0,
    ensures
        ({
            let call = request.call;
            &&& request_handling(request, version) matches HandlingView::Forward(id, query)
            &&& id is Some <==> request.id is Some
            &&& request.id matches Some(text) ==> id == Some(text@)
            &&& call.pattern matches Some(pattern) && query.pattern == pattern@
            &&& call.root matches Some(root) ==> query.root == root@
            &&& call.root is None ==> query.root.len() == 0
            &&& call.max_results matches Some(n) ==> (n <= usize::MAX ==> query.max_results == n)
            &&& call.max_results is None ==> query.max_results == 200
            &&& call.respect_gitignore matches Some(b) ==> query.respect_gitignore == b
            &&& call.respect_gitignore is None ==> query.respect_gitignore
        }),
{
    lemma_methods();
}

/// A request is read by the names of its members: `id`, `method` and `params`, in the
/// parameters `name` and `arguments`, and in these the four arguments of the tool.
pub proof fn law_requests_are_read_by_name(line: Seq<char>, request: Request)
    requires
        is_request(line, request),
    ensures
        maybe(request.id) == json_member(line, "id"@),
        maybe(request.method) == (match json_member(line, "method"@) {
            Some(text) => json_str(text),
            None => None,
        }),
        json_member(line, "params"@) matches Some(params) ==> {
            &&& maybe(request.call.name) == (match json_member(params, "name"@) {
                Some(text) => json_str(text),
                None => None,
            })
            &&& json_member(params, "arguments"@) matches Some(arguments) ==> {
                &&& maybe(request.call.pattern) == (match json_member(arguments, "pattern"@) {
                    Some(text) => json_str(text),
                    None => None,
                })
                &&& maybe(request.call.root) == (match json_member(arguments, "root"@) {
                    Some(text) => json_str(text),
                    None => None,
                })
                &&& request.call.max_results == (match json_member(arguments, "max_results"@) {
                    Some(text) => json_u64(text),
                    None => None,
                })
                &&& request.call.respect_gitignore == (match json_member(
                    arguments,
                    "respect_gitignore"@,
                ) {
                    Some(text) => json_bool(text),
                    None => None,
                })
            }
            &&& json_member(params, "arguments"@) is None ==> {
                &&& request.call.pattern is None
                &&& request.call.root is None
                &&& request.call.max_results is None
                &&& request.call.respect_gitignore is None
            }
        },
        json_member(line, "params"@) is None ==> {
            &&& request.call.name is None
            &&& request.call.pattern is None
            &&& request.call.root is None
            &&& request.call.max_results is None
            &&& request.call.respect_gitignore is None
        },
{
}

/// A line that is not blank is reported if it is not JSON, and else handled as the request
/// that it is.
pub proof fn law_lines_are_handled(
    line: Seq<char>,
    version: Seq<char>,
    handling: HandlingView,
    i: int,
)
    requires
        is_handling(line, version, handling),
        0 <= i < line.len(),
        line[i] == '{',
    ensures
        json_error(line) matches Some(reason) ==> handling == HandlingView::Malformed(reason),
        json_error(line) is None ==> exists|request: Request| #[trigger]
            is_request(line, request) && handling == request_handling(request, version),
{
    assert(!is_white(line[i]));
}

/// The names of the methods differ.
proof fn lemma_methods()
    ensures
        "initialize"@ != "tools/list"@,
        "initialize"@ != "tools/call"@,
        "initialize"@ != "ping"@,
        "tools/list"@ != "tools/call"@,
        "tools/list"@ != "ping"@,
        "tools/call"@ != "ping"@,
        "initialize"@.len() > 0,
        "tools/list"@.len() > 0,
        "tools/call"@.len() > 0,
        "ping"@.len() > 0,
        "fast_glob"@.len() > 0,
{
    reveal_strlit("initialize");
    reveal_strlit("tools/list");
    reveal_strlit("tools/call");
    reveal_strlit("ping");
    reveal_strlit("fast_glob");
    assert("initialize"@[0] != "tools/list"@[0]);
    assert("initialize"@[0] != "tools/call"@[0]);
    assert("tools/list"@[6] != "tools/call"@[6]);
}

/// A call of another tool, or without a pattern, is refused.
pub proof fn law_bad_calls_are_refused(request: Request, version: Seq<char>)
    requires
        request.method matches Some(method) && method@ == "tools/call"@,
    ensures
        ({
            let id = maybe(request.id);
            let name = or_empty(maybe(request.call.name));
            let handling = request_handling(request, version);
            &&& (request.call.name matches Some(other) && other@ != "fast_glob"@) ==> handling
                == HandlingView::Answer(error_line(id, -32602, "unknown tool: "@ + name))
            &&& request.call.name is None ==> handling == HandlingView::Answer(
                error_line(id, -32602, "unknown tool: "@ + Seq::<char>::empty()),
            )
            &&& (request.call.name matches Some(tool) && tool@ == "fast_glob"@) && (
            request.call.pattern matches Some(pattern) ==> pattern@.len() == 0) ==> handling
                == HandlingView::Answer(
                reply_line(id, failed_result("pattern is required"@)),
            )
        }),
{
    lemma_methods();
}

/// Each method has its own answer. A method that is not known is refused by name, unless
/// the request is a notification, which is passed over.
pub proof fn law_methods_are_answered(request: Request, version: Seq<char>)
    ensures
        ({
            let id = maybe(request.id);
            let handling = request_handling(request, version);
            match request.method {
                Some(m) => {
                    let method = m@;
                    &&& method == "initialize"@ ==> handling == HandlingView::Answer(
                        reply_line(id, greeting(version)),
                    )
                    &&& method == "tools/list"@ ==> handling == HandlingView::Answer(
                        reply_line(id, tools_text()),
                    )
                    &&& method == "ping"@ ==> handling == HandlingView::Answer(
                        reply_line(id, "{}"@),
                    )
                    &&& method != "initialize"@ && method != "tools/list"@ && method
                        != "tools/call"@ && method != "ping"@ ==> handling == (match id {
                        Some(_) => HandlingView::Answer(
                            error_line(id, -32601, "method not found: "@ + method),
                        ),
                        None => HandlingView::Skip,
                    })
                },
                None => handling == (match id {
                    Some(_) => HandlingView::Answer(
                        error_line(id, -32601, "method not found: "@ + Seq::<char>::empty()),
                    ),
                    None => HandlingView::Skip,
                }),
            }
        }),
{
    lemma_methods();
}

/// The lines of the protocol, as they are written.
pub proof fn law_lines_of_the_protocol(
    id: Option<Seq<char>>,
    result: Seq<char>,
    code: int,
    message: Seq<char>,
    said: Seq<char>,
)
    ensures
        ({
            let own = match id {
                Some(text) => text,
                None => "null"@,
            };
            &&& reply_line(id, result) == "{\"id\":"@ + own
                + ",\"jsonrpc\":\"2.0\",\"result\":"@ + result + "}"@
            &&& error_line(id, code, message) == "{\"error\":{\"code\":"@ + signed_decimal(code)
                + ",\"message\":"@ + quoted(message) + "},\"id\":"@ + own
                + ",\"jsonrpc\":\"2.0\"}"@
            &&& greeting(message)
                == "{\"capabilities\":{\"tools\":{}},\"protocolVersion\":"@ + quoted("2024-11-05"@)
                + ",\"serverInfo\":{\"name\":\"needle\",\"version\":"@ + quoted(message) + "}}"@
            &&& failed_result(message) == "{\"content\":["@ + ("{\"text\":"@ + quoted(message)
                + ",\"type\":\"text\"}"@) + "],\"isError\":true}"@
            &&& found_result(message, said) == "{\"content\":["@ + ("{\"text\":"@ + quoted(message)
                + ",\"type\":\"text\"}"@) + ","@ + ("{\"text\":"@ + quoted(said)
                + ",\"type\":\"text\"}"@) + "]}"@
        }),
{
}

/// What the daemon found is told whole: every path, each on a line of its own, in the order
/// in which they were found, and how many there were. What it refused is told as a failed
/// call, with its reason.
pub proof fn law_outcomes_are_told(id: Option<Seq<char>>, outcome: Outcome)
    ensures
        match outcome {
            Outcome::Response { response, elapsed } => if response.ok {
                outcome_line(id, outcome) == reply_line(
                    id,
                    found_result(listing(response@.hits), summary(response@, elapsed@)),
                )
            } else {
                outcome_line(id, outcome) == reply_line(
                    id,
                    failed_result(
                        match response.error {
                            Some(message) => message@,
                            None => "unknown daemon error"@,
                        },
                    ),
                )
            },
            Outcome::Failed(message) => outcome_line(id, outcome) == reply_line(
                id,
                failed_result(message@),
            ),
        },
{
}

/// The paths that were found are listed one below the other; if there are none, that is
/// said.
pub proof fn law_paths_are_listed(hits: Seq<HitView>, hit: HitView)
    ensures
        listing(Seq::empty()) == "(no matches)"@,
        listing(seq![hit]) == hit.path,
        hits.len() > 0 ==> listing(hits.push(hit)) == listing(hits) + seq!['\n'] + hit.path,
{
    assert(paths(seq![hit]) =~= seq![hit.path]);
    assert(paths(hits.push(hit)) =~= paths(hits) + seq![hit.path]);
    law_joining(paths(hits), seq![hit.path], hit.path, '\n');
}

/// What is said of a search: how many rows there are, whether more were left out, how long
/// it took, how many records were looked at, and where.
pub proof fn law_summary_tells_the_counts(response: WireResponse, elapsed: Seq<char>)
    ensures
        summary(response@, elapsed) == decimal(response.returned as nat) + " match(es)"@ + (
        if response.truncated {
            ", truncated at max_results"@
        } else {
            Seq::empty()
        }) + " in "@ + elapsed + "ms (scanned "@ + decimal(response.scanned as nat)
            + " entries on drive "@ + response.drive@ + ")"@,
        find_line(response@, elapsed) == "[needle] "@ + decimal(response.returned as nat)
            + " match(es)"@ + (if response.truncated {
            " (truncated)"@
        } else {
            Seq::empty()
        }) + " in "@ + elapsed + "ms (scanned "@ + decimal(response.scanned as nat)
            + " on drive "@ + response.drive@ + ")"@,
{
}

/// What the command line says of a search, of an index and in the benchmark.
pub proof fn law_reports_tell_the_counts(
    drive: Seq<char>,
    letter: char,
    scanned: nat,
    returned: nat,
    truncated: bool,
    elapsed: Seq<char>,
    seconds: Seq<char>,
)
    ensures
        query_line(drive, scanned, returned, truncated, elapsed) == "[needle] drive "@ + drive
            + " scanned "@ + decimal(scanned) + " returned "@ + decimal(returned) + (
        if truncated {
            " (truncated)"@
        } else {
            Seq::empty()
        }) + " in "@ + elapsed + "ms"@,
        index_line(scanned, letter, seconds) == "[needle] indexed "@ + decimal(scanned)
            + " entries on drive "@ + seq![letter] + " in "@ + seconds + "s"@,
        bench_row_text(drive, returned, elapsed) == "| `"@ + drive + "` | "@ + decimal(returned)
            + " | "@ + elapsed + " ms |"@,
        bench_head_text(letter, scanned, elapsed, seconds) == "## Benchmark (drive "@ + seq![
            upper(letter),
        ] + ")\n\nIndexed **"@ + decimal(scanned) + "** entries in **"@ + elapsed + " ms** ("@
            + seconds
            + " s).\n\n| query (whole volume) | matches | time |\n|----------------------|---------|------|"@,
{
}

/// What is said of a query or a response on the wire is said of its fields.
pub proof fn law_wire_is_seen_as_it_is(query: WireQuery, response: WireResponse)
    ensures
        query@.root == query.root@,
        query@.pattern == query.pattern@,
        query@.max_results == query.max_results,
        query@.respect_gitignore == query.respect_gitignore,
        response@.ok == response.ok,
        response.error is None ==> response@.error is None,
        response.error matches Some(text) ==> response@.error == Some(text@),
        response@.hits.len() == response.hits@.len(),
        forall|i: int|
            0 <= i < response.hits@.len() ==> (#[trigger] response@.hits[i]).path
                == response.hits@[i].path@ && response@.hits[i].is_dir == response.hits@[i].is_dir,
        response@.drive == response.drive@,
        response@.scanned == response.scanned,
        response@.returned == response.returned,
        response@.truncated == response.truncated,
{
}

/// What is said of the handling of a line is said of its fields.
pub proof fn law_handling_is_seen_as_it_is(handling: Handling)
    ensures
        match handling {
            Handling::Skip => handling@ == HandlingView::Skip,
            Handling::Malformed(reason) => handling@ == HandlingView::Malformed(reason@),
            Handling::Answer(line) => handling@ == HandlingView::Answer(line@),
            Handling::Forward { id, query } => {
                &&& handling@ matches HandlingView::Forward(own, asked)
                &&& id is None ==> own is None
                &&& id matches Some(text) ==> own == Some(text@)
                &&& asked == query@
            },
        },
{
}

/// A response to a query carries every row that was found, in order, and what is known of
/// the search; one to a query that failed carries the reason and nothing else.
pub proof fn law_responses_carry_everything(
    result: Result<(Vec<Hit>, QueryStats), QueryError>,
    answer: Answer,
    reason: Seq<char>,
)
    ensures
        match result {
            Ok((hits, stats)) => {
                let response = response_to(result);
                &&& response.ok
                &&& response.error is None
                &&& response.hits.len() == hits@.len()
                &&& forall|i: int|
                    0 <= i < hits@.len() ==> (#[trigger] response.hits[i]).path == hits@[i].path@
                        && response.hits[i].is_dir == hits@[i].is_dir
                &&& response.drive == seq![stats.drive]
                &&& response.scanned == stats.scanned
                &&& response.returned == stats.returned
                &&& response.truncated == stats.truncated
            },
            Err(error) => {
                let response = response_to(result);
                &&& !response.ok
                &&& response.hits.len() == 0
                &&& error matches QueryError::BadPattern(message) ==> response.error == Some(
                    message@,
                )
                &&& error is NotIndexed ==> response.error == Some("drive not indexed"@)
            },
        },
        ({
            let response = response_with(answer);
            &&& response.ok
            &&& response.error is None
            &&& response.hits.len() == answer.hits@.len()
            &&& forall|i: int|
                0 <= i < answer.hits@.len() ==> (#[trigger] response.hits[i]).path
                    == answer.hits@[i].path@ && response.hits[i].is_dir == answer.hits@[i].is_dir
            &&& response.drive == answer.drives@
            &&& response.scanned == answer.scanned
            &&& response.returned == answer.hits@.len()
            &&& response.truncated == answer.truncated
        }),
        ({
            let response = refusal(reason);
            &&& !response.ok
            &&& response.error == Some(reason)
            &&& response.hits.len() == 0
            &&& response.returned == 0
        }),
        bad_request(reason) == "bad request: "@ + reason,
{
}

} // verus!
