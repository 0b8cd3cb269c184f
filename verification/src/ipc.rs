//! What the daemon and its clients say to each other: one line with a query, and one
//! line with the response.

use vstd::prelude::*;

use crate::engine::{QueryError, QueryStats};
use crate::machine::Answer;
use crate::search::Hit;
#[allow(unused_imports)]
use crate::search::{hit_views, HitView};
#[allow(unused_imports)]
use crate::text::maybe;

verus! {

/// Default loopback endpoint for the daemon.
pub const DEFAULT_ADDR: &'static str = "127.0.0.1:48923";

/// A query sent from the MCP frontend to the daemon.
pub struct WireQuery {
    pub root: String,
    pub pattern: String,
    pub max_results: usize,
    pub respect_gitignore: bool,
}

/// A query with its texts.
pub ghost struct WireQueryView {
    pub root: Seq<char>,
    pub pattern: Seq<char>,
    pub max_results: usize,
    pub respect_gitignore: bool,
}

impl View for WireQuery {
    type V = WireQueryView;

    open spec fn view(&self) -> WireQueryView {
        WireQueryView {
            root: self.root@,
            pattern: self.pattern@,
            max_results: self.max_results,
            respect_gitignore: self.respect_gitignore,
        }
    }
}

/// A hit row on the wire.
#[derive(Clone)]
pub struct WireHit {
    pub path: String,
    pub is_dir: bool,
}

impl View for WireHit {
    type V = HitView;

    open spec fn view(&self) -> HitView {
        HitView { path: self.path@, is_dir: self.is_dir }
    }
}

/// The rows of a response, as views.
pub open spec fn wire_views(hits: Seq<WireHit>) -> Seq<HitView> {
    Seq::new(hits.len(), |i: int| hits[i]@)
}

/// The daemon's response, but for the time that it took.
pub struct WireResponse {
    pub ok: bool,
    pub error: Option<String>,
    pub hits: Vec<WireHit>,
    pub drive: String,
    pub scanned: usize,
    pub returned: usize,
    pub truncated: bool,
}

/// A response with its texts.
pub ghost struct WireResponseView {
    pub ok: bool,
    pub error: Option<Seq<char>>,
    pub hits: Seq<HitView>,
    pub drive: Seq<char>,
    pub scanned: usize,
    pub returned: usize,
    pub truncated: bool,
}

impl View for WireResponse {
    type V = WireResponseView;

    open spec fn view(&self) -> WireResponseView {
        WireResponseView {
            ok: self.ok,
            error: maybe(self.error),
            hits: wire_views(self.hits@),
            drive: self.drive@,
            scanned: self.scanned,
            returned: self.returned,
            truncated: self.truncated,
        }
    }
}

/// The response to a request that failed.
pub open spec fn refusal(message: Seq<char>) -> WireResponseView {
    WireResponseView {
        ok: false,
        error: Some(message),
        hits: Seq::empty(),
        drive: Seq::empty(),
        scanned: 0,
        returned: 0,
        truncated: false,
    }
}

/// What is said of a request that cannot be read.
pub open spec fn bad_request(message: Seq<char>) -> Seq<char> {
    "bad request: "@ + message
}

/// What is said of a query that has no result.
pub open spec fn query_failure(error: QueryError) -> Seq<char> {
    match error {
        QueryError::BadPattern(message) => message@,
        QueryError::NotIndexed => "drive not indexed"@,
    }
}

/// The response to a query of one drive.
pub open spec fn response_to(
    result: Result<(Vec<Hit>, QueryStats), QueryError>,
) -> WireResponseView {
    match result {
        Ok((hits, stats)) => WireResponseView {
            ok: true,
            error: None,
            hits: hit_views(hits@),
            drive: seq![stats.drive],
            scanned: stats.scanned,
            returned: stats.returned,
            truncated: stats.truncated,
        },
        Err(error) => refusal(query_failure(error)),
    }
}

/// The response to a query of several drives.
pub open spec fn response_with(answer: Answer) -> WireResponseView {
    WireResponseView {
        ok: true,
        error: None,
        hits: hit_views(answer.hits@),
        drive: answer.drives@,
        scanned: answer.scanned,
        returned: answer.hits.len(),
        truncated: answer.truncated,
    }
}

/// The response to a request that failed.
pub fn err_response(msg: &str) -> (response: WireResponse)
    ensures
        response@ == refusal(msg@),
{
    let response = WireResponse {
        ok: false,
        error: Some(msg.to_owned()),
        hits: Vec::new(),
        drive: String::new(),
        scanned: 0,
        returned: 0,
        truncated: false,
    };
    assert(response@.hits =~= Seq::empty());
    response
}

/// The response to a request that cannot be read, for the reason given.
pub fn bad_request_response(reason: &str) -> (response: WireResponse)
    ensures
        response@ == refusal(bad_request(reason@)),
{
    let mut text = "bad request: ".to_owned();
    text.append(reason);
    err_response(text.as_str())
}

impl QueryError {
    /// What is said of a query that has no result.
    pub fn message(self) -> (text: String)
        ensures
            text@ == query_failure(self),
    {
        match self {
            QueryError::BadPattern(message) => message,
            QueryError::NotIndexed => "drive not indexed".to_owned(),
        }
    }
}

/// The rows, as they go on the wire.
fn wire_hits(hits: Vec<Hit>) -> (rows: Vec<WireHit>)
    ensures
        wire_views(rows@) == hit_views(hits@),
{
    let mut rows: Vec<WireHit> = Vec::new();
    let ghost all = hits@;
    assert(wire_views(rows@) =~= hit_views(all.take(0)));
    for hit in it: hits
        invariant
            it.seq() == all,
            wire_views(rows@) == hit_views(all.take(it.index() as int)),
    {
        let ghost row = hit@;
        let ghost i = it.index() as int;
        let ghost before = wire_views(rows@);
        rows.push(WireHit { path: hit.path, is_dir: hit.is_dir });
        assert(wire_views(rows@) =~= before.push(row));
        assert(hit_views(all.take(i + 1)) =~= hit_views(all.take(i)).push(row));
    }
    assert(all.take(all.len() as int) =~= all);
    rows
}

/// The response to a query of one drive.
pub fn respond(result: Result<(Vec<Hit>, QueryStats), QueryError>) -> (response: WireResponse)
    ensures
        response@ == response_to(result),
{
    match result {
        Ok((hits, stats)) => {
            let mut drive = String::new();
            drive.push(stats.drive);
            assert(drive@ =~= seq![stats.drive]);
            WireResponse {
                ok: true,
                error: None,
                hits: wire_hits(hits),
                drive,
                scanned: stats.scanned,
                returned: stats.returned,
                truncated: stats.truncated,
            }
        },
        Err(error) => {
            let text = error.message();
            err_response(text.as_str())
        },
    }
}

/// The response to a query of several drives.
pub fn respond_all(answer: Answer) -> (response: WireResponse)
    ensures
        response@ == response_with(answer),
{
    let returned = answer.hits.len();
    WireResponse {
        ok: true,
        error: None,
        hits: wire_hits(answer.hits),
        drive: answer.drives,
        scanned: answer.scanned,
        returned,
        truncated: answer.truncated,
    }
}

} // verus!
