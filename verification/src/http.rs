//! The HTTP endpoints: liveness, readiness and metrics.
use crate::model::{lemma_prefix_len, lemma_prefix_len_unique, prefix_len};
use crate::protocol::{or_zero, value_or_zero, RaftStatus};
use crate::queue::QueueMetrics;
use crate::text::{append_decimal, decimal, same};
use vstd::prelude::*;
use vstd::string::{StrSliceExecFns, StringExecFns};
use vstd::utf8::{decode_utf8, encode_utf8, valid_utf8};

verus! {

/// The text that bytes stand for, with a replacement for what is not text.
pub uninterp spec fn lossy_text(bytes: Seq<u8>) -> Seq<char>;

/// Calls `String::from_utf8_lossy`: valid UTF-8 is decoded, and whatever else comes out
/// is a function of the bytes.
#[verifier::external_body]
fn text_of(bytes: &Vec<u8>) -> (r: String)
    ensures
        r@ == lossy_text(bytes@),
        valid_utf8(bytes@) ==> r@ == decode_utf8(bytes@),
{
    String::from_utf8_lossy(bytes.as_slice()).into_owned()
}

/// The characters that part words: those with the Unicode property `White_Space`.
pub open spec fn parts_words(c: char) -> bool {
    ||| '\u{9}' <= c <= '\u{d}'
    ||| c == ' '
    ||| c == '\u{85}'
    ||| c == '\u{a0}'
    ||| c == '\u{1680}'
    ||| '\u{2000}' <= c <= '\u{200a}'
    ||| c == '\u{2028}'
    ||| c == '\u{2029}'
    ||| c == '\u{202f}'
    ||| c == '\u{205f}'
    ||| c == '\u{3000}'
}

/// Whether the character parts words.
fn is_whitespace(c: char) -> (r: bool)
    ensures
        r == parts_words(c),
{
    ('\u{9}' <= c && c <= '\u{d}') || c == ' ' || c == '\u{85}' || c == '\u{a0}' || c == '\u{1680}'
        || ('\u{2000}' <= c && c <= '\u{200a}') || c == '\u{2028}' || c == '\u{2029}' || c
        == '\u{202f}' || c == '\u{205f}' || c == '\u{3000}'
}

/// The text without the white space it starts with.
pub open spec fn after_spaces(s: Seq<char>) -> Seq<char> {
    s.skip(prefix_len(s, |c: char| parts_words(c)) as int)
}

/// The word that the text starts with.
pub open spec fn first_word(s: Seq<char>) -> Seq<char> {
    s.take(prefix_len(s, |c: char| !parts_words(c)) as int)
}

/// The text after the word that it starts with.
pub open spec fn after_word(s: Seq<char>) -> Seq<char> {
    s.skip(prefix_len(s, |c: char| !parts_words(c)) as int)
}

/// The path of a request: its second word, or the root where there is none.
pub open spec fn path_in(head: Seq<char>) -> Seq<char> {
    let rest = after_spaces(after_word(after_spaces(head)));
    if rest.len() == 0 {
        "/"@
    } else {
        first_word(rest)
    }
}

/// The end of the run of characters from `from` on that part words, or that do not.
fn run_end(chars: &Vec<char>, from: usize, spaces: bool) -> (r: usize)
    requires
        from <= chars@.len(),
    ensures
        from <= r <= chars@.len(),
        r - from == prefix_len(chars@.skip(from as int), |c: char| parts_words(c) == spaces),
{
    let ghost s = chars@.skip(from as int);
    let ghost p = |c: char| parts_words(c) == spaces;
    let mut i: usize = from;
    while i < chars.len() && is_whitespace(chars[i]) == spaces
        invariant
            from <= i <= chars@.len(),
            s == chars@.skip(from as int),
            p == (|c: char| parts_words(c) == spaces),
            forall|j: int| 0 <= j < i - from ==> p(#[trigger] s[j]),
        ensures
            from <= i <= chars@.len(),
            i < chars@.len() ==> !p(s[i - from]),
        decreases chars@.len() - i,
    {
        i += 1;
    }
    proof {
        lemma_prefix_len_unique(s, p, (i - from) as nat);
    }
    i
}

/// Two predicates that agree hold on the same prefix.
proof fn lemma_same_prefix(s: Seq<char>, p: spec_fn(char) -> bool, q: spec_fn(char) -> bool)
    requires
        forall|c: char| #[trigger] p(c) == q(c),
    ensures
        prefix_len(s, p) == prefix_len(s, q),
{
    lemma_prefix_len(s, p);
    lemma_prefix_len_unique(s, q, prefix_len(s, p));
}

/// The path in the head of a request.
pub fn request_path(head: &str) -> (r: String)
    ensures
        r@ == path_in(head@),
{
    let mut chars: Vec<char> = Vec::new();
    for c in it: head.chars()
        invariant
            it.seq() == head@,
            chars@ == head@.take(it.index()),
    {
        chars.push(c);
        assert(chars@ =~= head@.take(it.index() + 1));
    }
    assert(chars@ =~= head@);
    let ghost space = |c: char| parts_words(c);
    let ghost no_space = |c: char| !parts_words(c);
    let ghost is = |c: char| parts_words(c) == true;
    let ghost is_not = |c: char| parts_words(c) == false;
    let a: usize = run_end(&chars, 0, true);
    let b: usize = run_end(&chars, a, false);
    let c: usize = run_end(&chars, b, true);
    proof {
        assert(head@.skip(0) =~= head@);
        lemma_same_prefix(head@, is, space);
        assert(after_spaces(head@) =~= head@.skip(a as int));
        lemma_same_prefix(head@.skip(a as int), is_not, no_space);
        assert(after_word(head@.skip(a as int)) =~= head@.skip(b as int));
        lemma_same_prefix(head@.skip(b as int), is, space);
        assert(after_spaces(head@.skip(b as int)) =~= head@.skip(c as int));
    }
    if c == chars.len() {
        return "/".to_owned();
    }
    let d: usize = run_end(&chars, c, false);
    proof {
        lemma_same_prefix(head@.skip(c as int), is_not, no_space);
        assert(head@.subrange(c as int, d as int) =~= first_word(head@.skip(c as int)));
    }
    head.substring_char(c, d).to_owned()
}

/// The path in the bytes of a request.
pub fn path_of(bytes: &Vec<u8>) -> (r: String)
    ensures
        r@ == path_in(lossy_text(bytes@)),
        valid_utf8(bytes@) ==> r@ == path_in(decode_utf8(bytes@)),
{
    let head = text_of(bytes);
    request_path(head.as_str())
}

/// An answer: its status line, the type of its body and the body.
#[derive(Debug, Clone, PartialEq, Eq)]
pub struct Page {
    pub status: String,
    pub content_type: String,
    pub body: String,
}

/// The value of a [`Page`].
pub struct PageView {
    pub status: Seq<char>,
    pub content_type: Seq<char>,
    pub body: Seq<char>,
}

impl View for Page {
    type V = PageView;

    open spec fn view(&self) -> PageView {
        PageView { status: self.status@, content_type: self.content_type@, body: self.body@ }
    }
}

/// The page of a path. Metrics can be switched off; the other pages stay.
pub open spec fn page_of(
    path: Seq<char>,
    raft: RaftStatus,
    queue: QueueMetrics,
    metrics_enabled: bool,
) -> PageView {
    if path == "/health"@ {
        PageView { status: "200 OK"@, content_type: "text/plain"@, body: "ok\n"@ }
    } else if path == "/ready"@ {
        if raft.current_leader is Some {
            PageView { status: "200 OK"@, content_type: "text/plain"@, body: "ready\n"@ }
        } else {
            PageView {
                status: "503 Service Unavailable"@,
                content_type: "text/plain"@,
                body: "not ready\n"@,
            }
        }
    } else if path == "/metrics"@ {
        if metrics_enabled {
            PageView {
                status: "200 OK"@,
                content_type: "text/plain; version=0.0.4"@,
                body: metrics_page(raft, queue),
            }
        } else {
            PageView {
                status: "404 Not Found"@,
                content_type: "text/plain"@,
                body: "metrics disabled\n"@,
            }
        }
    } else {
        PageView { status: "404 Not Found"@, content_type: "text/plain"@, body: "not found\n"@ }
    }
}

fn page(status: &str, content_type: &str, body: String) -> (r: Page)
    ensures
        r@ == (PageView { status: status@, content_type: content_type@, body: body@ }),
{
    Page { status: status.to_owned(), content_type: content_type.to_owned(), body }
}

/// Answers a path.
pub fn route(path: &str, raft: &RaftStatus, queue: &QueueMetrics, metrics_enabled: bool) -> (r: Page)
    ensures
        r@ == page_of(path@, *raft, *queue, metrics_enabled),
{
    if same(path, "/health") {
        page("200 OK", "text/plain", "ok\n".to_owned())
    } else if same(path, "/ready") {
        match raft.current_leader {
            Some(_) => page("200 OK", "text/plain", "ready\n".to_owned()),
            None => page("503 Service Unavailable", "text/plain", "not ready\n".to_owned()),
        }
    } else if same(path, "/metrics") {
        if metrics_enabled {
            page("200 OK", "text/plain; version=0.0.4", metrics_text(raft, queue))
        } else {
            page("404 Not Found", "text/plain", "metrics disabled\n".to_owned())
        }
    } else {
        page("404 Not Found", "text/plain", "not found\n".to_owned())
    }
}

/// One gauge in the Prometheus text format.
pub open spec fn gauge(name: Seq<char>, help: Seq<char>, node: u64, value: u64) -> Seq<char> {
    "# HELP "@ + name + " "@ + help + "\n# TYPE "@ + name + " gauge\n"@ + name + "{node=\""@
        + decimal(node as nat) + "\"} "@ + decimal(value as nat) + "\n"@
}

/// All gauges of the node.
pub open spec fn metrics_page(raft: RaftStatus, queue: QueueMetrics) -> Seq<char> {
    gauge("hermesmq_raft_term"@, "Current Raft term"@, raft.id, raft.current_term) + gauge(
        "hermesmq_raft_is_leader"@,
        "1 if this node is the leader"@,
        raft.id,
        if raft.current_leader == Some(raft.id) {
            1
        } else {
            0
        },
    ) + gauge(
        "hermesmq_raft_current_leader"@,
        "Current leader node id (0 if none)"@,
        raft.id,
        or_zero(raft.current_leader),
    ) + gauge(
        "hermesmq_raft_last_log_index"@,
        "Last log index appended"@,
        raft.id,
        or_zero(raft.last_log_index),
    ) + gauge(
        "hermesmq_raft_last_applied"@,
        "Last log index applied to the state machine"@,
        raft.id,
        or_zero(raft.last_applied),
    ) + gauge(
        "hermesmq_raft_millis_since_quorum_ack"@,
        "Replication lag: ms since last quorum ack (leader only)"@,
        raft.id,
        or_zero(raft.millis_since_quorum_ack),
    ) + gauge("hermesmq_topics"@, "Number of topics"@, raft.id, queue.topics) + gauge(
        "hermesmq_messages"@,
        "Number of retained messages across topics"@,
        raft.id,
        queue.messages,
    ) + gauge(
        "hermesmq_in_flight"@,
        "Number of leased (in-flight) messages"@,
        raft.id,
        queue.in_flight,
    )
}

fn append_gauge(text: &mut String, name: &str, help: &str, node: u64, value: u64)
    ensures
        final(text)@ == old(text)@ + gauge(name@, help@, node, value),
{
    let ghost start = text@;
    text.append("# HELP ");
    text.append(name);
    text.append(" ");
    text.append(help);
    text.append("\n# TYPE ");
    text.append(name);
    text.append(" gauge\n");
    text.append(name);
    text.append("{node=\"");
    append_decimal(text, node);
    text.append("\"} ");
    append_decimal(text, value);
    text.append("\n");
    assert(text@ =~= start + gauge(name@, help@, node, value));
}

/// The metrics in the Prometheus text format.
pub fn metrics_text(raft: &RaftStatus, queue: &QueueMetrics) -> (r: String)
    ensures
        r@ == metrics_page(*raft, *queue),
{
    let leads: u64 = if raft.is_leader() {
        1
    } else {
        0
    };
    let mut text = String::new();
    append_gauge(&mut text, "hermesmq_raft_term", "Current Raft term", raft.id, raft.current_term);
    append_gauge(
        &mut text,
        "hermesmq_raft_is_leader",
        "1 if this node is the leader",
        raft.id,
        leads,
    );
    append_gauge(
        &mut text,
        "hermesmq_raft_current_leader",
        "Current leader node id (0 if none)",
        raft.id,
        value_or_zero(raft.current_leader),
    );
    append_gauge(
        &mut text,
        "hermesmq_raft_last_log_index",
        "Last log index appended",
        raft.id,
        value_or_zero(raft.last_log_index),
    );
    append_gauge(
        &mut text,
        "hermesmq_raft_last_applied",
        "Last log index applied to the state machine",
        raft.id,
        value_or_zero(raft.last_applied),
    );
    append_gauge(
        &mut text,
        "hermesmq_raft_millis_since_quorum_ack",
        "Replication lag: ms since last quorum ack (leader only)",
        raft.id,
        value_or_zero(raft.millis_since_quorum_ack),
    );
    append_gauge(&mut text, "hermesmq_topics", "Number of topics", raft.id, queue.topics);
    append_gauge(
        &mut text,
        "hermesmq_messages",
        "Number of retained messages across topics",
        raft.id,
        queue.messages,
    );
    append_gauge(
        &mut text,
        "hermesmq_in_flight",
        "Number of leased (in-flight) messages",
        raft.id,
        queue.in_flight,
    );
    assert(text@ =~= metrics_page(*raft, *queue));
    text
}

/// The bytes of an answer: its head, an empty line and its body.
pub open spec fn response_of(p: PageView) -> Seq<char> {
    "HTTP/1.1 "@ + p.status + "\r\ncontent-type: "@ + p.content_type + "\r\ncontent-length: "@
        + decimal(encode_utf8(p.body).len()) + "\r\nconnection: close\r\n\r\n"@ + p.body
}

/// The answer as it goes out.
pub fn response_text(p: &Page) -> (r: String)
    ensures
        r@ == response_of(p@),
{
    let mut text = "HTTP/1.1 ".to_owned();
    text.append(p.status.as_str());
    text.append("\r\ncontent-type: ");
    text.append(p.content_type.as_str());
    text.append("\r\ncontent-length: ");
    append_decimal(&mut text, p.body.as_str().as_bytes().len() as u64);
    text.append("\r\nconnection: close\r\n\r\n");
    text.append(p.body.as_str());
    assert(text@ =~= response_of(p@));
    text
}

/// Answers a request.
pub fn handle(
    request: &Vec<u8>,
    raft: &RaftStatus,
    queue: &QueueMetrics,
    metrics_enabled: bool,
) -> (r: String)
    ensures
        r@ == response_of(
            page_of(path_in(lossy_text(request@)), *raft, *queue, metrics_enabled),
        ),
        valid_utf8(request@) ==> r@ == response_of(
            page_of(path_in(decode_utf8(request@)), *raft, *queue, metrics_enabled),
        ),
{
    let path = path_of(request);
    let p = route(path.as_str(), raft, queue, metrics_enabled);
    response_text(&p)
}

} // verus!
