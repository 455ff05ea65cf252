//! What the HTTP endpoint promises to those who watch the node.
use crate::http::{
    after_spaces, after_word, first_word, gauge, page_of, parts_words, path_in, response_of,
    PageView,
};
use crate::model::lemma_prefix_len_unique;
use crate::protocol::RaftStatus;
use crate::queue::QueueMetrics;
use crate::text::decimal;
use vstd::prelude::*;
use vstd::utf8::encode_utf8;

verus! {

/// A character that parts the words of a request.
pub open spec fn blank(c: char) -> bool {
    c == ' ' || c == '\t' || c == '\r' || c == '\n'
}

/// A character that stands in a word of a request.
pub open spec fn solid(c: char) -> bool {
    '!' <= c <= '~'
}

/// The text is made of such characters throughout.
pub open spec fn made_of(s: Seq<char>, p: spec_fn(char) -> bool) -> bool {
    forall|i: int| 0 <= i < s.len() ==> p(#[trigger] s[i])
}

proof fn lemma_spaces(gap: Seq<char>, rest: Seq<char>)
    requires
        made_of(gap, |c: char| blank(c)),
        rest.len() == 0 || solid(rest[0]),
    ensures
        after_spaces(gap + rest) == rest,
{
    let s = gap + rest;
    let p = |c: char| parts_words(c);
    let b = |c: char| blank(c);
    assert forall|i: int| 0 <= i < gap.len() implies p(#[trigger] s[i]) by {
        assert(b(gap[i]));
    }
    lemma_prefix_len_unique(s, p, gap.len());
    assert(s.skip(gap.len() as int) =~= rest);
}

proof fn lemma_word(word: Seq<char>, rest: Seq<char>)
    requires
        made_of(word, |c: char| solid(c)),
        rest.len() == 0 || blank(rest[0]),
    ensures
        first_word(word + rest) == word,
        after_word(word + rest) == rest,
{
    let s = word + rest;
    let p = |c: char| !parts_words(c);
    let b = |c: char| solid(c);
    assert forall|i: int| 0 <= i < word.len() implies p(#[trigger] s[i]) by {
        assert(b(word[i]));
    }
    lemma_prefix_len_unique(s, p, word.len());
    assert(s.skip(word.len() as int) =~= rest);
    assert(s.take(word.len() as int) =~= word);
}

/// The path of a request is its second word, whatever stands before the first one, between
/// the two and behind: the method, the version and the other lines make no difference.
pub proof fn the_path_is_the_second_word(
    lead: Seq<char>,
    method: Seq<char>,
    gap: Seq<char>,
    path: Seq<char>,
    rest: Seq<char>,
)
    requires
        made_of(lead, |c: char| blank(c)),
        made_of(method, |c: char| solid(c)),
        made_of(gap, |c: char| blank(c)),
        made_of(path, |c: char| solid(c)),
        method.len() > 0,
        gap.len() > 0,
        path.len() > 0,
        rest.len() == 0 || blank(rest[0]),
    ensures
        path_in(lead + method + gap + path + rest) == path,
{
    let tail = gap + (path + rest);
    let b = |c: char| blank(c);
    let s = |c: char| solid(c);
    assert(s(method[0]));
    assert(b(gap[0]));
    assert(s(path[0]));
    assert(tail[0] == gap[0]);
    assert((method + tail)[0] == method[0]);
    assert((path + rest)[0] == path[0]);
    assert(lead + method + gap + path + rest =~= lead + (method + tail));
    lemma_spaces(lead, method + tail);
    lemma_word(method, tail);
    lemma_spaces(gap, path + rest);
    lemma_word(path, rest);
}

/// A request without a second word is for the root.
pub proof fn without_a_path_the_root_is_meant(
    lead: Seq<char>,
    method: Seq<char>,
    gap: Seq<char>,
)
    requires
        made_of(lead, |c: char| blank(c)),
        made_of(method, |c: char| solid(c)),
        made_of(gap, |c: char| blank(c)),
        method.len() > 0,
    ensures
        path_in(lead + method + gap) == seq!['/'],
{
    let b = |c: char| blank(c);
    let s = |c: char| solid(c);
    assert(s(method[0]));
    assert(gap.len() > 0 ==> b(gap[0]));
    assert((method + gap)[0] == method[0]);
    assert(lead + method + gap =~= lead + (method + gap));
    lemma_spaces(lead, method + gap);
    lemma_word(method, gap);
    assert(gap + Seq::<char>::empty() =~= gap);
    lemma_spaces(gap, Seq::empty());
    reveal_strlit("/");
    assert("/"@ =~= seq!['/']);
}

proof fn lemma_paths()
    ensures
        "/health"@ != "/ready"@,
        "/health"@ != "/metrics"@,
        "/ready"@ != "/metrics"@,
{
    reveal_strlit("/health");
    reveal_strlit("/ready");
    reveal_strlit("/metrics");
    assert("/health"@[1] == 'h');
    assert("/ready"@[1] == 'r');
    assert("/metrics"@[1] == 'm');
}

/// A node that runs is healthy, whatever else. It is ready if and only if it sees a leader.
/// Its metrics are served if and only if they are switched on, which touches no other page,
/// and there are no other pages.
pub proof fn the_pages_say_how_the_node_stands(
    path: Seq<char>,
    raft: RaftStatus,
    queue: QueueMetrics,
    metrics_enabled: bool,
)
    ensures
        ({
            let p = page_of(path, raft, queue, metrics_enabled);
            &&& path == "/health"@ ==> p.status == "200 OK"@ && p.body == "ok\n"@
            &&& path == "/ready"@ ==> p.status == if raft.current_leader is Some {
                "200 OK"@
            } else {
                "503 Service Unavailable"@
            }
            &&& path == "/metrics"@ ==> p.status == if metrics_enabled {
                "200 OK"@
            } else {
                "404 Not Found"@
            }
            &&& path != "/health"@ && path != "/ready"@ && path != "/metrics"@ ==> p.status
                == "404 Not Found"@
            &&& path != "/metrics"@ ==> p == page_of(path, raft, queue, !metrics_enabled)
            &&& path != "/metrics"@ || !metrics_enabled ==> p.content_type == "text/plain"@
        }),
{
    lemma_paths();
}

/// The text holds the line.
pub open spec fn has_line(text: Seq<char>, line: Seq<char>) -> bool {
    exists|i: int| 0 <= i && i + line.len() <= text.len() && #[trigger] text.subrange(
        i,
        i + line.len(),
    ) == line
}

/// The line that shows a figure of a node.
pub open spec fn sample(name: Seq<char>, node: u64, value: u64) -> Seq<char> {
    "\n"@ + name + "{node=\""@ + decimal(node as nat) + "\"} "@ + decimal(value as nat) + "\n"@
}

proof fn lemma_line_in_gauge(name: Seq<char>, help: Seq<char>, node: u64, value: u64)
    ensures
        has_line(gauge(name, help, node, value), sample(name, node, value)),
{
    let g = gauge(name, help, node, value);
    let line = sample(name, node, value);
    let start = "# HELP "@ + name + " "@ + help + "\n# TYPE "@ + name;
    reveal_strlit(" gauge\n");
    reveal_strlit("\n");
    let at = start.len() as int + 6;
    assert(g =~= start + " gauge\n"@ + (name + "{node=\""@ + decimal(node as nat) + "\"} "@
        + decimal(value as nat) + "\n"@));
    assert(" gauge\n"@ =~= " gauge\n"@.take(6) + "\n"@);
    assert(g.subrange(at, at + line.len()) =~= line);
}

proof fn lemma_line_in_part(a: Seq<char>, b: Seq<char>, c: Seq<char>, line: Seq<char>)
    requires
        has_line(b, line),
    ensures
        has_line(a + b + c, line),
{
    let i = choose|i: int| 0 <= i && i + line.len() <= b.len() && #[trigger] b.subrange(
        i,
        i + line.len(),
    ) == line;
    let k = a.len() + i;
    assert((a + b + c).subrange(k, k + line.len()) =~= b.subrange(i, i + line.len()));
}

/// The figures of a node, each with its name, in the order in which they are shown.
pub open spec fn figures(raft: RaftStatus, queue: QueueMetrics) -> Seq<(Seq<char>, u64)> {
    seq![
        ("hermesmq_raft_term"@, raft.current_term),
        (
            "hermesmq_raft_is_leader"@,
            if raft.current_leader == Some(raft.id) {
                1u64
            } else {
                0u64
            },
        ),
        (
            "hermesmq_raft_current_leader"@,
            match raft.current_leader {
                Some(id) => id,
                None => 0,
            },
        ),
        (
            "hermesmq_raft_last_log_index"@,
            match raft.last_log_index {
                Some(i) => i,
                None => 0,
            },
        ),
        (
            "hermesmq_raft_last_applied"@,
            match raft.last_applied {
                Some(i) => i,
                None => 0,
            },
        ),
        (
            "hermesmq_raft_millis_since_quorum_ack"@,
            match raft.millis_since_quorum_ack {
                Some(ms) => ms,
                None => 0,
            },
        ),
        ("hermesmq_topics"@, queue.topics),
        ("hermesmq_messages"@, queue.messages),
        ("hermesmq_in_flight"@, queue.in_flight),
    ]
}

/// The first `k` of the texts, one after the other.
spec fn joined(parts: Seq<Seq<char>>, k: int) -> Seq<char>
    decreases k,
{
    if k <= 0 {
        Seq::empty()
    } else {
        joined(parts, k - 1) + parts[k - 1]
    }
}

proof fn lemma_line_in_joined(parts: Seq<Seq<char>>, k: int, i: int, line: Seq<char>)
    requires
        0 <= i < k,
        has_line(parts[i], line),
    ensures
        has_line(joined(parts, k), line),
    decreases k,
{
    let (front, last) = (joined(parts, k - 1), parts[k - 1]);
    if i < k - 1 {
        lemma_line_in_joined(parts, k - 1, i, line);
        lemma_line_in_part(Seq::empty(), front, last, line);
        assert(Seq::<char>::empty() + front + last =~= joined(parts, k));
    } else {
        lemma_line_in_part(front, last, Seq::empty(), line);
        assert(front + last + Seq::<char>::empty() =~= joined(parts, k));
    }
}

/// A line of one of nine texts is a line of the nine put together.
proof fn lemma_line_in_nine(parts: Seq<Seq<char>>, i: int, line: Seq<char>)
    requires
        parts.len() == 9,
        0 <= i < 9,
        has_line(parts[i], line),
    ensures
        has_line(
            parts[0] + parts[1] + parts[2] + parts[3] + parts[4] + parts[5] + parts[6] + parts[7]
                + parts[8],
            line,
        ),
{
    lemma_line_in_joined(parts, 9, i, line);
    reveal_with_fuel(joined, 10);
    assert(joined(parts, 1) =~= parts[0]);
}

/// The metrics show every figure of the node on a line of its own, with its name and the
/// number of the node.
pub proof fn the_metrics_show_every_figure(raft: RaftStatus, queue: QueueMetrics, i: int)
    requires
        0 <= i < figures(raft, queue).len(),
    ensures
        has_line(
            page_of("/metrics"@, raft, queue, true).body,
            sample(figures(raft, queue)[i].0, raft.id, figures(raft, queue)[i].1),
        ),
{
    lemma_paths();
    let all = figures(raft, queue);
    let helps = seq![
        "Current Raft term"@,
        "1 if this node is the leader"@,
        "Current leader node id (0 if none)"@,
        "Last log index appended"@,
        "Last log index applied to the state machine"@,
        "Replication lag: ms since last quorum ack (leader only)"@,
        "Number of topics"@,
        "Number of retained messages across topics"@,
        "Number of leased (in-flight) messages"@,
    ];
    let parts = Seq::new(9, |k: int| gauge(all[k].0, helps[k], raft.id, all[k].1));
    lemma_line_in_gauge(all[i].0, helps[i], raft.id, all[i].1);
    lemma_line_in_nine(parts, i, sample(all[i].0, raft.id, all[i].1));
}

/// What goes out is the status line, the type of the body and its length in bytes, in lines
/// of the head, then an empty line, and then the body, to the last byte.
pub proof fn an_answer_carries_its_page(p: PageView)
    ensures
        ({
            let text = response_of(p);
            let line = "\r\ncontent-length: "@ + decimal(encode_utf8(p.body).len()) + "\r\n"@;
            let opening = "HTTP/1.1 "@ + p.status + "\r\n"@;
            let closing = "\r\n\r\n"@ + p.body;
            &&& text.len() >= opening.len() + closing.len()
            &&& text.take(opening.len() as int) == opening
            &&& text.skip(text.len() - closing.len()) == closing
            &&& has_line(text, line)
            &&& has_line(text, "\r\ncontent-type: "@ + p.content_type + "\r\n"@)
        }),
{
    let text = response_of(p);
    let length = decimal(encode_utf8(p.body).len());
    let opening = "HTTP/1.1 "@ + p.status + "\r\n"@;
    let closing = "\r\n\r\n"@ + p.body;
    let line = "\r\ncontent-length: "@ + length + "\r\n"@;
    let kind = "\r\ncontent-type: "@ + p.content_type + "\r\n"@;
    reveal_strlit("\r\n");
    reveal_strlit("\r\n\r\n");
    reveal_strlit("\r\ncontent-type: ");
    reveal_strlit("\r\ncontent-length: ");
    reveal_strlit("\r\nconnection: close\r\n\r\n");
    let head = "HTTP/1.1 "@ + p.status;
    let upto = head + "\r\ncontent-type: "@ + p.content_type;
    let end = "\r\nconnection: close\r\n\r\n"@;
    assert(text =~= upto + "\r\ncontent-length: "@ + length + end + p.body);
    assert(text.take(opening.len() as int) =~= opening);
    assert(end =~= end.take(19) + "\r\n\r\n"@);
    assert(text.skip(text.len() - closing.len()) =~= closing);
    let (a, b) = (head.len() as int, upto.len() as int);
    assert(text.subrange(a, a + kind.len()) =~= kind);
    assert(text.subrange(b, b + line.len()) =~= line);
}

} // verus!
