//! What the command line prints: summaries of searches, and the benchmark.
//!
//! Times are taken and formatted by the caller.

use vstd::prelude::*;

use crate::ipc::WireResponse;
#[allow(unused_imports)]
use crate::ipc::WireResponseView;
#[allow(unused_imports)]
use crate::mft::drive_root;
#[allow(unused_imports)]
use crate::text::{decimal, maybe, texts, upper};
use crate::text::{push_decimal, upper_char};

verus! {

/// Cap on the number of rows of a query in the benchmark.
pub const BENCH_MAX_RESULTS: usize = 1_000_000;

/// What is printed below the benchmark.
pub const BENCH_NOTE: &'static str =
    "\n_Index build is a one-time cost; queries run against the warm in-memory index and are kept fresh via the USN Journal._";

/// What is added where a search was cut off.
pub open spec fn cut_mark(truncated: bool) -> Seq<char> {
    if truncated {
        " (truncated)"@
    } else {
        Seq::empty()
    }
}

/// What is said of a query that was run in this process.
pub open spec fn query_line(
    drive: Seq<char>,
    scanned: nat,
    returned: nat,
    truncated: bool,
    elapsed: Seq<char>,
) -> Seq<char> {
    "[needle] drive "@ + drive + " scanned "@ + decimal(scanned) + " returned "@ + decimal(returned)
        + cut_mark(truncated) + " in "@ + elapsed + "ms"@
}

/// What is said of a query that the daemon ran.
pub open spec fn find_line(response: WireResponseView, elapsed: Seq<char>) -> Seq<char> {
    "[needle] "@ + decimal(response.returned as nat) + " match(es)"@ + cut_mark(response.truncated)
        + " in "@ + elapsed + "ms (scanned "@ + decimal(response.scanned as nat) + " on drive "@
        + response.drive + ")"@
}

/// What is said of an index that was built.
pub open spec fn index_line(entries: nat, drive: char, seconds: Seq<char>) -> Seq<char> {
    "[needle] indexed "@ + decimal(entries) + " entries on drive "@ + seq![drive] + " in "@ + seconds
        + "s"@
}

/// The head of the benchmark: the build, and the head of the table of queries.
pub open spec fn bench_head_text(
    drive: char,
    entries: nat,
    build_ms: Seq<char>,
    build_s: Seq<char>,
) -> Seq<char> {
    "## Benchmark (drive "@ + seq![upper(drive)] + ")\n\nIndexed **"@ + decimal(entries)
        + "** entries in **"@ + build_ms + " ms** ("@ + build_s
        + " s).\n\n| query (whole volume) | matches | time |\n|----------------------|---------|------|"@
}

/// A row of the table of queries.
pub open spec fn bench_row_text(pattern: Seq<char>, matches: nat, elapsed: Seq<char>) -> Seq<char> {
    "| `"@ + pattern + "` | "@ + decimal(matches) + " | "@ + elapsed + " ms |"@
}

/// The mark of a search that was cut off.
fn push_cut_mark(line: &mut String, truncated: bool)
    ensures
        final(line)@ == old(line)@ + cut_mark(truncated),
{
    if truncated {
        line.append(" (truncated)");
    } else {
        assert(line@ + cut_mark(truncated) =~= line@);
    }
}

/// What is said of a query that was run in this process.
pub fn query_summary(
    drive: &str,
    scanned: usize,
    returned: usize,
    truncated: bool,
    elapsed: &str,
) -> (line: String)
    ensures
        line@ == query_line(drive@, scanned as nat, returned as nat, truncated, elapsed@),
{
    let mut line = "[needle] drive ".to_owned();
    line.append(drive);
    line.append(" scanned ");
    push_decimal(&mut line, scanned as u64);
    line.append(" returned ");
    push_decimal(&mut line, returned as u64);
    push_cut_mark(&mut line, truncated);
    line.append(" in ");
    line.append(elapsed);
    line.append("ms");
    line
}

/// What is said of a query that the daemon ran.
pub fn find_summary(response: &WireResponse, elapsed: &str) -> (line: String)
    ensures
        line@ == find_line(response@, elapsed@),
{
    let mut line = "[needle] ".to_owned();
    push_decimal(&mut line, response.returned as u64);
    line.append(" match(es)");
    push_cut_mark(&mut line, response.truncated);
    line.append(" in ");
    line.append(elapsed);
    line.append("ms (scanned ");
    push_decimal(&mut line, response.scanned as u64);
    line.append(" on drive ");
    line.append(response.drive.as_str());
    line.append(")");
    line
}

/// Why the daemon refused a query, if it did.
pub fn find_failure(response: &WireResponse) -> (message: Option<String>)
    ensures
        maybe(message) == (if response.ok {
            None
        } else {
            match maybe(response.error) {
                Some(text) => Some(text),
                None => Some("daemon error"@),
            }
        }),
{
    if response.ok {
        return None;
    }
    match &response.error {
        Some(text) => Some(text.clone()),
        None => Some("daemon error".to_owned()),
    }
}

/// What is said where the daemon cannot be reached.
pub fn unreachable_daemon(addr: &str, reason: &str) -> (message: String)
    ensures
        message@ == "cannot reach daemon at "@ + addr@ + ": "@ + reason@
            + ". Start it with: needle serve (as admin)"@,
{
    let mut message = "cannot reach daemon at ".to_owned();
    message.append(addr);
    message.append(": ");
    message.append(reason);
    message.append(". Start it with: needle serve (as admin)");
    message
}

/// What is said of an index that was built.
pub fn index_summary(entries: usize, drive: char, seconds: &str) -> (line: String)
    ensures
        line@ == index_line(entries as nat, drive, seconds@),
{
    let mut line = "[needle] indexed ".to_owned();
    push_decimal(&mut line, entries as u64);
    line.append(" entries on drive ");
    let ghost before = line@;
    line.push(drive);
    assert(line@ =~= before + seq![drive]);
    line.append(" in ");
    line.append(seconds);
    line.append("s");
    line
}

/// The patterns that the benchmark looks for.
pub fn bench_patterns() -> (patterns: Vec<&'static str>)
    ensures
        texts(patterns@) == seq![
            "**/*.rs"@,
            "**/Cargo.toml"@,
            "**/*.dll"@,
            "**/package.json"@,
            "**/*.exe"@,
        ],
{
    let patterns = vec!["**/*.rs", "**/Cargo.toml", "**/*.dll", "**/package.json", "**/*.exe"];
    assert(texts(patterns@) =~= seq![
        "**/*.rs"@,
        "**/Cargo.toml"@,
        "**/*.dll"@,
        "**/package.json"@,
        "**/*.exe"@,
    ]);
    patterns
}

/// The root below which the benchmark looks: all of the drive.
pub fn bench_root(drive: char) -> (root: String)
    ensures
        root@ == drive_root(drive),
{
    let mut root = String::new();
    root.push(upper_char(drive));
    root.push(':');
    root.push('\\');
    assert(root@ =~= drive_root(drive));
    root
}

/// The head of the benchmark.
pub fn bench_head(drive: char, entries: usize, build_ms: &str, build_s: &str) -> (text: String)
    ensures
        text@ == bench_head_text(drive, entries as nat, build_ms@, build_s@),
{
    let mut text = "## Benchmark (drive ".to_owned();
    let ghost before = text@;
    text.push(upper_char(drive));
    assert(text@ =~= before + seq![upper(drive)]);
    text.append(")\n\nIndexed **");
    push_decimal(&mut text, entries as u64);
    text.append("** entries in **");
    text.append(build_ms);
    text.append(" ms** (");
    text.append(build_s);
    text.append(
        " s).\n\n| query (whole volume) | matches | time |\n|----------------------|---------|------|",
    );
    text
}

/// A row of the benchmark.
pub fn bench_row(pattern: &str, matches: usize, elapsed: &str) -> (text: String)
    ensures
        text@ == bench_row_text(pattern@, matches as nat, elapsed@),
{
    let mut text = "| `".to_owned();
    text.append(pattern);
    text.append("` | ");
    push_decimal(&mut text, matches as u64);
    text.append(" | ");
    text.append(elapsed);
    text.append(" ms |");
    text
}

} // verus!
