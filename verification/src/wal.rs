//! The write-ahead log: entry creation with a monotonic sequence counter,
//! serialization of entries to checksummed JSON lines, and recovery that
//! re-reads a log's content line by line, silently dropping anything that
//! does not parse (so a line truncated by a crash costs only itself).

use vstd::prelude::*;
use crate::hashring::{HashRing, spec_locate};
use crate::ring::position_of;
use crate::routes_resp::{Wal, WalOp, WalOpView, op_key};
use crate::text::{str_chars, chars_to_string, slice_chars};
use crate::wal_format::{wal_line, wal_line_body, parse_wal_line, parse_op, checksum_chars, no_nl,
    LogRecordView, build_wal_line, eat_lit, scan_jstr_exec, scan_u64_exec,
    lemma_parse_wal_line_round_trip, lemma_wal_line_body_no_nl};

verus! {

/// The source of sequence numbers: strictly increasing from 1, one per entry.
pub struct WalCounter {
    next: u64,
}

impl WalCounter {
    /// The number the next entry will receive.
    pub closed spec fn spec_next(&self) -> u64 {
        self.next
    }

    /// A fresh counter: the first entry is numbered 1.
    pub fn new() -> (r: Self)
        ensures
            r.spec_next() == 1,
    {
        WalCounter { next: 1 }
    }

    /// The number the next entry will receive, readable at run time so a
    /// caller can test the counter's headroom before creating an entry.
    pub fn peek_next(&self) -> (r: u64)
        ensures
            r == self.spec_next(),
    {
        self.next
    }

    /// Hands out the next sequence number and advances by exactly 1.
    pub fn take_next(&mut self) -> (r: u64)
        requires
            old(self).spec_next() < u64::MAX,
        ensures
            r == old(self).spec_next(),
            final(self).spec_next() == old(self).spec_next() + 1,
    {
        let r = self.next;
        self.next = self.next + 1;
        r
    }
}

/// Sequence monotonicity: two entries drawn one after the other from the same
/// counter carry consecutive numbers, the later one exactly 1 higher.
pub proof fn lemma_wal_sequence_monotonic(first: u64, counter_after_first: u64, second: u64)
    requires
        counter_after_first == first + 1,
        second == counter_after_first,
    ensures
        second == first + 1,
{
}

/// Relies on chrono's `Utc::now` and its formatter: the wall clock is ambient
/// state, so nothing is promised of the returned text.
#[verifier::external_body]
fn now_utc_string() -> String {
    chrono::Utc::now().format("%Y-%m-%d %H:%M:%S%.3f UTC").to_string()
}

impl Wal {
    /// A new entry: the counter's next number, the operation, and the
    /// creation time.
    pub fn new(operation: WalOp, counter: &mut WalCounter) -> (r: Wal)
        requires
            old(counter).spec_next() < u64::MAX,
        ensures
            r.sequence_number == old(counter).spec_next(),
            final(counter).spec_next() == old(counter).spec_next() + 1,
            r.operation == operation,
    {
        let seq = counter.take_next();
        Wal { sequence_number: seq, operation, timestamp: now_utc_string() }
    }

    /// Serializes the entry as one log line, stamped with the node that owns
    /// its key under the given ring; the empty string when the ring is empty.
    pub fn to_log_line(&self, ring: &HashRing) -> (r: String)
        ensures
            (match spec_locate(ring.ring_seq(), position_of(op_key(self.operation@))) {
                None => r@ == Seq::<char>::empty(),
                Some(node_id) => r@ == wal_line(
                    self.sequence_number,
                    self.timestamp@,
                    node_id,
                    self.operation@,
                ),
            }),
    {
        let key: &String = match &self.operation {
            WalOp::Put { key, .. } => key,
            WalOp::Delete { key } => key,
        };
        let node = match ring.get_node(key.as_str()) {
            Some(n) => n,
            None => {
                return String::new();
            },
        };
        let line = build_wal_line(
            self.sequence_number,
            self.timestamp.as_str(),
            node.id.as_str(),
            &self.operation,
        );
        chars_to_string(&line)
    }
}

/// One recovered log record.
pub struct LogRecord {
    pub seq: u64,
    pub timestamp: String,
    pub node_id: String,
    pub operation: WalOp,
    pub checksum: String,
}

impl View for LogRecord {
    type V = LogRecordView;

    open spec fn view(&self) -> LogRecordView {
        LogRecordView {
            seq: self.seq,
            timestamp: self.timestamp@,
            node_id: self.node_id@,
            operation: self.operation@,
            checksum: self.checksum@,
        }
    }
}

impl DeepView for LogRecord {
    type V = LogRecordView;

    open spec fn deep_view(&self) -> LogRecordView {
        self.view()
    }
}

/// Parses one line body into a record.
#[verifier::rlimit(50)]
fn parse_line_chars(s: &Vec<char>) -> (r: Option<LogRecord>)
    ensures
        match r {
            Some(rec) => parse_wal_line(s@) == Some(rec@),
            None => parse_wal_line(s@) is None,
        },
{
    proof {
        assert(s@.skip(0) =~= s@);
    }
    let p0 = match eat_lit(s, 0, "{\"seq\":") {
        Some(p) => p,
        None => {
            return None;
        },
    };
    proof {
        assert(s@.skip("{\"seq\":"@.len() as int) =~= s@.skip(p0 as int));
    }
    let (seqno, p1) = match scan_u64_exec(s, p0) {
        Some(p) => p,
        None => {
            return None;
        },
    };
    proof {
        assert(s@.skip(p0 as int).skip((p1 - p0) as int) =~= s@.skip(p1 as int));
    }
    let p2 = match eat_lit(s, p1, ",\"timestamp\":\"") {
        Some(p) => p,
        None => {
            return None;
        },
    };
    proof {
        assert(s@.skip(p1 as int).skip(",\"timestamp\":\""@.len() as int) =~= s@.skip(p2 as int));
    }
    let (ts, p3) = match scan_jstr_exec(s, p2) {
        Some(p) => p,
        None => {
            return None;
        },
    };
    proof {
        assert(s@.skip(p2 as int).skip((p3 - p2) as int) =~= s@.skip(p3 as int));
    }
    let p4 = match eat_lit(s, p3, "\",\"node_id\":\"") {
        Some(p) => p,
        None => {
            return None;
        },
    };
    proof {
        assert(s@.skip(p3 as int).skip("\",\"node_id\":\""@.len() as int) =~= s@.skip(p4 as int));
    }
    let (nid, p5) = match scan_jstr_exec(s, p4) {
        Some(p) => p,
        None => {
            return None;
        },
    };
    proof {
        assert(s@.skip(p4 as int).skip((p5 - p4) as int) =~= s@.skip(p5 as int));
    }
    let p6 = match eat_lit(s, p5, "\",\"operation\":") {
        Some(p) => p,
        None => {
            return None;
        },
    };
    proof {
        assert(s@.skip(p5 as int).skip("\",\"operation\":"@.len() as int) =~= s@.skip(p6 as int));
    }
    let (op, p7) = match parse_op_exec(s, p6) {
        Some(p) => p,
        None => {
            return None;
        },
    };
    proof {
        assert(s@.skip(p6 as int).skip((p7 - p6) as int) =~= s@.skip(p7 as int));
    }
    let p8 = match eat_lit(s, p7, ",\"checksum\":\"") {
        Some(p) => p,
        None => {
            return None;
        },
    };
    proof {
        assert(s@.skip(p7 as int).skip(",\"checksum\":\""@.len() as int) =~= s@.skip(p8 as int));
    }
    let (ck, p9) = match scan_jstr_exec(s, p8) {
        Some(p) => p,
        None => {
            return None;
        },
    };
    proof {
        assert(s@.skip(p8 as int).skip((p9 - p8) as int) =~= s@.skip(p9 as int));
    }
    let p10 = match eat_lit(s, p9, "\",\"version\":\"1.0\"}") {
        Some(p) => p,
        None => {
            return None;
        },
    };
    if p10 != s.len() {
        proof {
            assert(s@.skip(p9 as int).len() > "\",\"version\":\"1.0\"}"@.len());
        }
        return None;
    }
    proof {
        assert(s@.skip(p9 as int).len() == "\",\"version\":\"1.0\"}"@.len());
    }
    let rec = LogRecord {
        seq: seqno,
        timestamp: chars_to_string(&ts),
        node_id: chars_to_string(&nid),
        operation: op,
        checksum: chars_to_string(&ck),
    };
    Some(rec)
}

/// Parses the operation object at `pos`.
#[verifier::rlimit(50)]
fn parse_op_exec(s: &Vec<char>, pos: usize) -> (r: Option<(WalOp, usize)>)
    requires
        pos <= s@.len(),
    ensures
        match r {
            Some(p) => pos <= p.1 <= s@.len() && parse_op(s@.skip(pos as int)) == Some(
                (p.0@, p.1 - pos as int),
            ),
            None => parse_op(s@.skip(pos as int)) is None,
        },
{
    let ghost s0 = s@.skip(pos as int);
    proof {
        reveal_strlit("}");
    }
    if let Some(q0) = eat_lit(s, pos, "{\"op\":\"SET\",\"key\":\"") {
        proof {
            assert(s0.skip("{\"op\":\"SET\",\"key\":\""@.len() as int) =~= s@.skip(q0 as int));
        }
        let (key, q1) = match scan_jstr_exec(s, q0) {
            Some(p) => p,
            None => {
                return None;
            },
        };
        proof {
            assert(s@.skip(q0 as int).skip((q1 - q0) as int) =~= s@.skip(q1 as int));
        }
        let q2 = match eat_lit(s, q1, "\",\"value\":\"") {
            Some(p) => p,
            None => {
                return None;
            },
        };
        proof {
            assert(s@.skip(q1 as int).skip("\",\"value\":\""@.len() as int) =~= s@.skip(q2 as int));
        }
        let (value, q3) = match scan_jstr_exec(s, q2) {
            Some(p) => p,
            None => {
                return None;
            },
        };
        proof {
            assert(s@.skip(q2 as int).skip((q3 - q2) as int) =~= s@.skip(q3 as int));
        }
        let q4 = match eat_lit(s, q3, "\",\"key_size\":") {
            Some(p) => p,
            None => {
                return None;
            },
        };
        proof {
            assert(s@.skip(q3 as int).skip("\",\"key_size\":"@.len() as int) =~= s@.skip(q4 as int));
        }
        let (_ks, q5) = match scan_u64_exec(s, q4) {
            Some(p) => p,
            None => {
                return None;
            },
        };
        proof {
            assert(s@.skip(q4 as int).skip((q5 - q4) as int) =~= s@.skip(q5 as int));
        }
        let q6 = match eat_lit(s, q5, ",\"value_size\":") {
            Some(p) => p,
            None => {
                return None;
            },
        };
        proof {
            assert(s@.skip(q5 as int).skip(",\"value_size\":"@.len() as int) =~= s@.skip(q6 as int));
        }
        let (_vs, q7) = match scan_u64_exec(s, q6) {
            Some(p) => p,
            None => {
                return None;
            },
        };
        proof {
            assert(s@.skip(q6 as int).skip((q7 - q6) as int) =~= s@.skip(q7 as int));
        }
        let q8 = match eat_lit(s, q7, "}") {
            Some(p) => p,
            None => {
                return None;
            },
        };
        proof {
            assert(s0.len() - s@.skip(q7 as int).len() + 1 == q8 - pos);
        }
        let ks = chars_to_string(&key);
        let vs = chars_to_string(&value);
        Some((WalOp::Put { key: ks, value: vs }, q8))
    } else if let Some(q0) = eat_lit(s, pos, "{\"op\":\"DELETE\",\"key\":\"") {
        proof {
            assert(s0.skip("{\"op\":\"DELETE\",\"key\":\""@.len() as int) =~= s@.skip(q0 as int));
        }
        let (key, q1) = match scan_jstr_exec(s, q0) {
            Some(p) => p,
            None => {
                return None;
            },
        };
        proof {
            assert(s@.skip(q0 as int).skip((q1 - q0) as int) =~= s@.skip(q1 as int));
        }
        let q2 = match eat_lit(s, q1, "\",\"key_size\":") {
            Some(p) => p,
            None => {
                return None;
            },
        };
        proof {
            assert(s@.skip(q1 as int).skip("\",\"key_size\":"@.len() as int) =~= s@.skip(q2 as int));
        }
        let (_ks, q3) = match scan_u64_exec(s, q2) {
            Some(p) => p,
            None => {
                return None;
            },
        };
        proof {
            assert(s@.skip(q2 as int).skip((q3 - q2) as int) =~= s@.skip(q3 as int));
        }
        let q4 = match eat_lit(s, q3, "}") {
            Some(p) => p,
            None => {
                return None;
            },
        };
        proof {
            assert(s0.len() - s@.skip(q3 as int).len() + 1 == q4 - pos);
        }
        let kstr = chars_to_string(&key);
        Some((WalOp::Delete { key: kstr }, q4))
    } else {
        None
    }
}

// --- recovery ---

/// The index of the first newline, or -1.
pub open spec fn find_nl(s: Seq<char>) -> int
    decreases s.len(),
{
    if s.len() == 0 {
        -1
    } else if s[0] == '\n' {
        0
    } else {
        let r = find_nl(s.drop_first());
        if r < 0 {
            -1
        } else {
            1 + r
        }
    }
}

/// A file's content split at newlines; a trailing newline adds no line.
pub open spec fn spec_lines(s: Seq<char>) -> Seq<Seq<char>>
    decreases s.len(),
{
    if s.len() == 0 {
        Seq::empty()
    } else {
        let i = find_nl(s);
        if 0 <= i < s.len() {
            seq![s.take(i)] + spec_lines(s.skip(i + 1))
        } else {
            seq![s]
        }
    }
}

/// What recovery yields: each line's parse, unparseable lines dropped.
pub open spec fn spec_replay(lines: Seq<Seq<char>>) -> Seq<LogRecordView>
    decreases lines.len(),
{
    if lines.len() == 0 {
        Seq::empty()
    } else {
        match parse_wal_line(lines[0]) {
            Some(rec) => seq![rec] + spec_replay(lines.drop_first()),
            None => spec_replay(lines.drop_first()),
        }
    }
}

/// Finds the first newline at or after `from`, or the content's end.
fn find_nl_exec(s: &Vec<char>, from: usize) -> (r: (usize, bool))
    requires
        from <= s@.len(),
    ensures
        from <= r.0 <= s@.len(),
        r.1 ==> r.0 < s@.len() && find_nl(s@.skip(from as int)) == r.0 - from,
        !r.1 ==> r.0 == s@.len() && find_nl(s@.skip(from as int)) == -1,
{
    let mut i: usize = from;
    let _n: usize = s.len();
    proof {
        assert(s@.len() <= usize::MAX);
    }
    loop
        invariant
            from <= i <= s@.len(),
            s@.len() <= usize::MAX,
            (if find_nl(s@.skip(i as int)) < 0 {
                find_nl(s@.skip(from as int)) == -1
            } else {
                find_nl(s@.skip(from as int)) == (i - from) + find_nl(s@.skip(i as int))
            }),
        decreases s@.len() - i,
    {
        let ghost cur = s@.skip(i as int);
        if i >= s.len() {
            proof {
                assert(cur.len() == 0);
            }
            return (i, false);
        }
        proof {
            assert(cur[0] == s@[i as int]);
        }
        if s[i] == '\n' {
            return (i, true);
        }
        proof {
            assert(cur.drop_first() =~= s@.skip(i + 1));
        }
        i = i + 1;
    }
}

/// Replays a log's content: every line that parses as a record, in order;
/// blank and corrupt lines (such as one cut short by a crash) are skipped.
pub fn recover_from_wal(content: &str) -> (r: Vec<LogRecord>)
    ensures
        r.deep_view() == spec_replay(spec_lines(content@)),
{
    let cs = str_chars(content);
    let mut r: Vec<LogRecord> = Vec::new();
    let mut start: usize = 0;
    proof {
        assert(cs@.skip(0) =~= cs@);
        assert(r.deep_view() =~= Seq::<LogRecordView>::empty());
    }
    loop
        invariant
            start <= cs@.len(),
            cs@ == content@,
            spec_replay(spec_lines(content@)) == r.deep_view() + spec_replay(
                spec_lines(cs@.skip(start as int)),
            ),
        decreases cs@.len() - start,
    {
        let ghost rem = cs@.skip(start as int);
        if start >= cs.len() {
            proof {
                assert(rem.len() == 0);
                assert(r.deep_view() + Seq::<LogRecordView>::empty() =~= r.deep_view());
            }
            return r;
        }
        let (end, found) = find_nl_exec(&cs, start);
        let line = slice_chars(&cs, start, end);
        proof {
            assert(line@ =~= rem.take(end - start as int));
        }
        let parsed = parse_line_chars(&line);
        let ghost r0 = r.deep_view();
        match parsed {
            Some(rec) => {
                let ghost recv = rec@;
                r.push(rec);
                proof {
                    assert(r.deep_view() =~= r0.push(recv));
                }
            },
            None => {},
        }
        if !found {
            proof {
                assert(rem.take(rem.len() as int) =~= rem);
                assert(line@ == rem);
                assert(spec_lines(rem) == seq![rem]);
                assert(seq![rem][0] == rem);
                assert(seq![rem].drop_first() =~= Seq::<Seq<char>>::empty());
                assert(spec_replay(seq![rem].drop_first()) == Seq::<LogRecordView>::empty());
                match parse_wal_line(rem) {
                    Some(recv2) => {
                        assert(spec_replay(seq![rem]) == seq![recv2] + spec_replay(
                            seq![rem].drop_first(),
                        ));
                        assert(seq![recv2] + Seq::<LogRecordView>::empty() =~= seq![recv2]);
                        assert(spec_replay(spec_lines(rem)) =~= seq![recv2]);
                        assert(r.deep_view() =~= r0.push(recv2));
                        assert(r0.push(recv2) =~= r0 + seq![recv2]);
                    },
                    None => {
                        assert(spec_replay(seq![rem]) == spec_replay(seq![rem].drop_first()));
                        assert(spec_replay(spec_lines(rem)) =~= Seq::<LogRecordView>::empty());
                    },
                }
                assert(spec_replay(spec_lines(content@)) == r.deep_view());
            }
            return r;
        }
        proof {
            assert(find_nl(rem) == end - start);
            assert(spec_lines(rem) == seq![rem.take(end - start as int)] + spec_lines(
                rem.skip(end - start + 1),
            ));
            assert(seq![rem.take(end - start as int)][0] == line@);
            assert((seq![rem.take(end - start as int)] + spec_lines(rem.skip(end - start + 1)))[0]
                == line@);
            assert((seq![rem.take(end - start as int)] + spec_lines(
                rem.skip(end - start + 1),
            )).drop_first() =~= spec_lines(rem.skip(end - start + 1)));
            assert(rem.skip(end - start + 1) =~= cs@.skip(end + 1));
            match parse_wal_line(line@) {
                Some(recv3) => {
                    assert(r.deep_view() =~= r0 + seq![recv3]);
                    assert(spec_replay(spec_lines(rem)) == seq![recv3] + spec_replay(
                        spec_lines(cs@.skip(end + 1)),
                    ));
                    assert(r0 + (seq![recv3] + spec_replay(spec_lines(cs@.skip(end + 1)))) =~= (r0
                        + seq![recv3]) + spec_replay(spec_lines(cs@.skip(end + 1))));
                },
                None => {
                    assert(spec_replay(spec_lines(rem)) == spec_replay(
                        spec_lines(cs@.skip(end + 1)),
                    ));
                },
            }
        }
        start = end + 1;
    }
}

/// Summary statistics over a log's content.
pub struct WalStats {
    pub total_entries: usize,
    pub file_size_bytes: u64,
    pub last_sequence: u64,
}

/// Derives a log's statistics from its content and its size on disk: how many
/// records replay yields, and the sequence number of the last of them (0 on an
/// empty log).
pub fn get_wal_stats(content: &str, file_size_bytes: u64) -> (r: WalStats)
    ensures
        ({
            let recs = spec_replay(spec_lines(content@));
            &&& r.total_entries == recs.len()
            &&& r.file_size_bytes == file_size_bytes
            &&& r.last_sequence == (if recs.len() == 0 {
                0u64
            } else {
                recs.last().seq
            })
        }),
{
    let entries = recover_from_wal(content);
    proof {
        assert(entries.deep_view().len() == entries@.len());
    }
    let last_sequence = if entries.len() == 0 {
        0
    } else {
        proof {
            assert(entries.deep_view().last() == entries@[entries@.len() - 1]@);
        }
        entries[entries.len() - 1].seq
    };
    WalStats { total_entries: entries.len(), file_size_bytes, last_sequence }
}

} // verus!

verus! {

proof fn lemma_find_nl_concat(body: Seq<char>, tail: Seq<char>)
    requires
        no_nl(body),
        tail.len() > 0,
        tail[0] == '\n',
    ensures
        find_nl(body + tail) == body.len(),
    decreases body.len(),
{
    if body.len() == 0 {
        assert(body + tail =~= tail);
    } else {
        assert((body + tail)[0] == body[0]);
        assert((body + tail).drop_first() =~= body.drop_first() + tail);
        assert(forall|k: int|
            0 <= k < body.drop_first().len() ==> #[trigger] body.drop_first()[k] == body[k + 1]);
        lemma_find_nl_concat(body.drop_first(), tail);
    }
}

/// Splitting at newlines takes one whole newline-free line off the front.
proof fn lemma_lines_prepend(body: Seq<char>, rest: Seq<char>)
    requires
        no_nl(body),
    ensures
        spec_lines(body + seq!['\n'] + rest) == seq![body] + spec_lines(rest),
{
    let s = body + seq!['\n'] + rest;
    assert(s =~= body + (seq!['\n'] + rest));
    assert((seq!['\n'] + rest)[0] == '\n');
    lemma_find_nl_concat(body, seq!['\n'] + rest);
    assert(find_nl(s) == body.len());
    assert(s.take(body.len() as int) =~= body);
    assert(s.skip(body.len() as int + 1) =~= rest);
}

proof fn lemma_find_nl_none(s: Seq<char>)
    requires
        no_nl(s),
    ensures
        find_nl(s) == -1,
    decreases s.len(),
{
    if s.len() > 0 {
        assert(forall|k: int|
            0 <= k < s.drop_first().len() ==> #[trigger] s.drop_first()[k] == s[k + 1]);
        lemma_find_nl_none(s.drop_first());
    }
}

/// Crash-truncation tolerance: a trailing fragment with no newline that does
/// not parse as a record (such as a line cut mid-write) adds nothing to the
/// replay, so every prior well-formed line is still recovered.
pub proof fn lemma_truncated_tail_ignored(tail: Seq<char>)
    requires
        no_nl(tail),
        parse_wal_line(tail) is None,
    ensures
        spec_replay(spec_lines(tail)) == Seq::<LogRecordView>::empty(),
{
    if tail.len() > 0 {
        lemma_find_nl_none(tail);
        assert(spec_lines(tail) == seq![tail]);
        assert(seq![tail][0] == tail);
        assert(seq![tail].drop_first() =~= Seq::<Seq<char>>::empty());
        assert(spec_replay(seq![tail]) == spec_replay(seq![tail].drop_first()));
    }
}

/// WAL round trip: one appended log line replays as exactly the record that
/// was written — same operation, key, value and sequence number — with its
/// stored checksum equal to the checksum of the recovered operation; the rest
/// of the file replays unchanged after it.
pub proof fn lemma_wal_replay_round_trip(
    seqno: u64,
    timestamp: Seq<char>,
    node_id: Seq<char>,
    op: WalOpView,
    rest: Seq<char>,
)
    ensures
        (spec_replay(spec_lines(wal_line(seqno, timestamp, node_id, op) + rest)) == seq![
            LogRecordView {
                seq: seqno,
                timestamp: timestamp,
                node_id: node_id,
                operation: op,
                checksum: checksum_chars(op),
            },
        ] + spec_replay(spec_lines(rest))),
{
    let body = wal_line_body(seqno, timestamp, node_id, op);
    let rec = LogRecordView {
        seq: seqno,
        timestamp: timestamp,
        node_id: node_id,
        operation: op,
        checksum: checksum_chars(op),
    };
    lemma_wal_line_body_no_nl(seqno, timestamp, node_id, op);
    assert(wal_line(seqno, timestamp, node_id, op) + rest =~= body + seq!['\n'] + rest);
    lemma_lines_prepend(body, rest);
    lemma_parse_wal_line_round_trip(seqno, timestamp, node_id, op);
    let lines = seq![body] + spec_lines(rest);
    assert(lines.len() > 0);
    assert(lines[0] == body);
    assert(lines.drop_first() =~= spec_lines(rest));
    assert(spec_replay(lines) == seq![rec] + spec_replay(spec_lines(rest)));
}

} // verus!
