//! The write-ahead-log line format: one JSON object per line, newline
//! terminated, with the operation checksummed. The serializer and the parser
//! are both specified here, against one mathematical description of the
//! format, and recovery is proved to invert serialization.

use vstd::prelude::*;
use crate::text::{dec_chars, dec_digit, hex_chars, hex_byte, hex_digit, push_dec_u64,
    push_hex_prefix, str_chars, append_chars};
use crate::ring::sha256_chars;
use crate::routes_resp::{WalOp, WalOpView};

verus! {

// --- escaping ---

/// How one character appears inside a JSON string: quotes and backslashes are
/// escaped, control characters become `\u00XX`, everything else is itself.
pub open spec fn esc_char(c: char) -> Seq<char> {
    if c == '"' {
        seq!['\\', '"']
    } else if c == '\\' {
        seq!['\\', '\\']
    } else if (c as u32) < 32 {
        seq!['\\', 'u', '0', '0', hex_digit(((c as u32) / 16) as nat), hex_digit(
            ((c as u32) % 16) as nat,
        )]
    } else {
        seq![c]
    }
}

/// The escaped form of a string's characters.
pub open spec fn esc(s: Seq<char>) -> Seq<char>
    decreases s.len(),
{
    if s.len() == 0 {
        Seq::empty()
    } else {
        esc_char(s[0]) + esc(s.drop_first())
    }
}

pub proof fn lemma_esc_push(s: Seq<char>, c: char)
    ensures
        esc(s.push(c)) == esc(s) + esc_char(c),
    decreases s.len(),
{
    if s.len() == 0 {
        assert(s.push(c)[0] == c);
        assert(s.push(c).drop_first() =~= Seq::<char>::empty());
        assert(esc(s.push(c)) == esc_char(s.push(c)[0]) + esc(s.push(c).drop_first()));
        assert(esc(s.push(c)) =~= esc(s) + esc_char(c));
    } else {
        assert(s.push(c)[0] == s[0]);
        assert(s.push(c).drop_first() =~= s.drop_first().push(c));
        lemma_esc_push(s.drop_first(), c);
        assert(esc(s.push(c)) =~= esc(s) + esc_char(c));
    }
}

/// Appends the escaped form of `s` to `out`.
pub fn push_escaped(out: &mut Vec<char>, s: &Vec<char>)
    ensures
        final(out)@ == old(out)@ + esc(s@),
{
    let mut i: usize = 0;
    proof {
        assert(esc(s@.take(0)) =~= Seq::<char>::empty());
        assert(out@ =~= old(out)@ + esc(s@.take(0)));
    }
    while i < s.len()
        invariant
            i <= s@.len(),
            out@ == old(out)@ + esc(s@.take(i as int)),
        decreases s@.len() - i,
    {
        let c = s[i];
        if c == '"' {
            out.push('\\');
            out.push('"');
        } else if c == '\\' {
            out.push('\\');
            out.push('\\');
        } else if (c as u32) < 32 {
            let v = c as u32;
            out.push('\\');
            out.push('u');
            out.push('0');
            out.push('0');
            out.push(crate::text::hex_digit_char((v / 16) as u8));
            out.push(crate::text::hex_digit_char((v % 16) as u8));
        } else {
            out.push(c);
        }
        proof {
            lemma_esc_push(s@.take(i as int), s@[i as int]);
            assert(s@.take(i as int).push(s@[i as int]) =~= s@.take(i + 1));
            assert(out@ =~= old(out)@ + esc(s@.take(i + 1)));
        }
        i = i + 1;
    }
    proof {
        assert(s@.take(s@.len() as int) =~= s@);
    }
}

/// Appends the characters of a literal to `out`.
pub fn push_str(out: &mut Vec<char>, s: &str)
    ensures
        final(out)@ == old(out)@ + s@,
{
    let cs = str_chars(s);
    append_chars(out, &cs);
}

// --- the line format ---

/// The decimal rendering of a string's UTF-8 byte length.
pub open spec fn size_chars(s: Seq<char>) -> Seq<char> {
    dec_chars((((vstd::utf8::encode_utf8(s).len() as usize) as u64) as nat))
}

/// The JSON object recording one operation, exactly as serialized (this is
/// the string the checksum is computed over).
pub open spec fn op_json(op: WalOpView) -> Seq<char> {
    match op {
        WalOpView::Put { key, value } => "{\"op\":\"SET\",\"key\":\""@ + esc(key)
            + "\",\"value\":\""@ + esc(value) + "\",\"key_size\":"@ + size_chars(key)
            + ",\"value_size\":"@ + size_chars(value) + "}"@,
        WalOpView::Delete { key } => "{\"op\":\"DELETE\",\"key\":\""@ + esc(key)
            + "\",\"key_size\":"@ + size_chars(key) + "}"@,
    }
}

/// The stored checksum: the first 16 lowercase hex characters of the SHA-256
/// digest of the serialized operation object.
pub open spec fn checksum_chars(op: WalOpView) -> Seq<char> {
    hex_chars(sha256_chars(op_json(op)).take(8))
}

/// One log line, without its terminating newline.
pub open spec fn wal_line_body(
    seqno: u64,
    timestamp: Seq<char>,
    node_id: Seq<char>,
    op: WalOpView,
) -> Seq<char> {
    "{\"seq\":"@ + dec_chars(seqno as nat) + ",\"timestamp\":\""@ + esc(timestamp)
        + "\",\"node_id\":\""@ + esc(node_id) + "\",\"operation\":"@ + op_json(op)
        + ",\"checksum\":\""@ + checksum_chars(op) + "\",\"version\":\"1.0\"}"@
}

/// One log line as appended to the file: the body, newline terminated.
pub open spec fn wal_line(seqno: u64, timestamp: Seq<char>, node_id: Seq<char>, op: WalOpView) -> Seq<
    char,
> {
    wal_line_body(seqno, timestamp, node_id, op) + seq!['\n']
}

// --- scanning ---

pub open spec fn is_digit(c: char) -> bool {
    48 <= (c as u32) && (c as u32) <= 57
}

pub open spec fn digit_val(c: char) -> nat {
    ((c as u32) - 48) as nat
}

pub open spec fn is_hex_lc(c: char) -> bool {
    is_digit(c) || (97 <= (c as u32) && (c as u32) <= 102)
}

pub open spec fn hex_val(c: char) -> nat {
    if is_digit(c) {
        digit_val(c)
    } else {
        ((c as u32) - 87) as nat
    }
}

pub open spec fn scan_cons(c: char, rest: Option<(Seq<char>, int)>, k: int) -> Option<
    (Seq<char>, int),
> {
    match rest {
        Some(p) => Some((seq![c] + p.0, k + p.1)),
        None => None,
    }
}

/// Scans the escaped content of a JSON string up to, but not including, the
/// closing quote: the unescaped characters and the count of characters read.
pub open spec fn scan_jstr(s: Seq<char>) -> Option<(Seq<char>, int)>
    decreases s.len(),
{
    if s.len() == 0 {
        None
    } else if s[0] == '"' {
        Some((Seq::empty(), 0))
    } else if s[0] == '\\' {
        if s.len() >= 2 && s[1] == '"' {
            scan_cons('"', scan_jstr(s.skip(2)), 2)
        } else if s.len() >= 2 && s[1] == '\\' {
            scan_cons('\\', scan_jstr(s.skip(2)), 2)
        } else if s.len() >= 6 && s[1] == 'u' && s[2] == '0' && s[3] == '0' && is_hex_lc(s[4])
            && is_hex_lc(s[5]) && hex_val(s[4]) * 16 + hex_val(s[5]) < 32 {
            scan_cons((((hex_val(s[4]) * 16 + hex_val(s[5])) as u8) as char), scan_jstr(s.skip(6)), 6)
        } else {
            None
        }
    } else if (s[0] as u32) < 32 {
        None
    } else {
        scan_cons(s[0], scan_jstr(s.skip(1)), 1)
    }
}

/// The length of the leading run of decimal digits.
pub open spec fn digit_run(s: Seq<char>) -> int
    decreases s.len(),
{
    if s.len() == 0 || !is_digit(s[0]) {
        0
    } else {
        1 + digit_run(s.skip(1))
    }
}

/// The value of a digit string, most significant digit first.
pub open spec fn digits_val(d: Seq<char>) -> nat
    decreases d.len(),
{
    if d.len() == 0 {
        0
    } else {
        digits_val(d.drop_last()) * 10 + digit_val(d.last())
    }
}

/// Scans an unsigned decimal number: the leading digit run, rejected when
/// empty or when its value does not fit.
pub open spec fn scan_u64(s: Seq<char>) -> Option<(u64, int)> {
    let n = digit_run(s);
    if n == 0 {
        None
    } else if digits_val(s.take(n)) > u64::MAX {
        None
    } else {
        Some((digits_val(s.take(n)) as u64, n))
    }
}

/// Whether `s` starts with `lit`.
pub open spec fn at_lit(s: Seq<char>, lit: Seq<char>) -> bool {
    lit.len() <= s.len() && s.take(lit.len() as int) == lit
}

/// A parsed log record, in mathematical shape.
pub struct LogRecordView {
    pub seq: u64,
    pub timestamp: Seq<char>,
    pub node_id: Seq<char>,
    pub operation: WalOpView,
    pub checksum: Seq<char>,
}

/// Parses the serialized operation object: the operation and the count of
/// characters read.
pub open spec fn parse_op(s: Seq<char>) -> Option<(WalOpView, int)> {
    if at_lit(s, "{\"op\":\"SET\",\"key\":\""@) {
        let s1 = s.skip("{\"op\":\"SET\",\"key\":\""@.len() as int);
        match scan_jstr(s1) {
            None => None,
            Some((key, k1)) => {
                let s2 = s1.skip(k1);
                if at_lit(s2, "\",\"value\":\""@) {
                    let s3 = s2.skip("\",\"value\":\""@.len() as int);
                    match scan_jstr(s3) {
                        None => None,
                        Some((value, k2)) => {
                            let s4 = s3.skip(k2);
                            if at_lit(s4, "\",\"key_size\":"@) {
                                let s5 = s4.skip("\",\"key_size\":"@.len() as int);
                                match scan_u64(s5) {
                                    None => None,
                                    Some((ks, k3)) => {
                                        let s6 = s5.skip(k3);
                                        if at_lit(s6, ",\"value_size\":"@) {
                                            let s7 = s6.skip(",\"value_size\":"@.len() as int);
                                            match scan_u64(s7) {
                                                None => None,
                                                Some((vs, k4)) => {
                                                    let s8 = s7.skip(k4);
                                                    if at_lit(s8, "}"@) {
                                                        Some(
                                                            (
                                                                WalOpView::Put { key, value },
                                                                s.len() - s8.len() + 1,
                                                            ),
                                                        )
                                                    } else {
                                                        None
                                                    }
                                                },
                                            }
                                        } else {
                                            None
                                        }
                                    },
                                }
                            } else {
                                None
                            }
                        },
                    }
                } else {
                    None
                }
            },
        }
    } else if at_lit(s, "{\"op\":\"DELETE\",\"key\":\""@) {
        let s1 = s.skip("{\"op\":\"DELETE\",\"key\":\""@.len() as int);
        match scan_jstr(s1) {
            None => None,
            Some((key, k1)) => {
                let s2 = s1.skip(k1);
                if at_lit(s2, "\",\"key_size\":"@) {
                    let s3 = s2.skip("\",\"key_size\":"@.len() as int);
                    match scan_u64(s3) {
                        None => None,
                        Some((ks, k2)) => {
                            let s4 = s3.skip(k2);
                            if at_lit(s4, "}"@) {
                                Some((WalOpView::Delete { key }, s.len() - s4.len() + 1))
                            } else {
                                None
                            }
                        },
                    }
                } else {
                    None
                }
            },
        }
    } else {
        None
    }
}

/// Parses one log line body (no trailing newline): `Some` exactly on lines of
/// the format above, consuming the whole line.
pub open spec fn parse_wal_line(s: Seq<char>) -> Option<LogRecordView> {
    if !at_lit(s, "{\"seq\":"@) {
        None
    } else {
        let s1 = s.skip("{\"seq\":"@.len() as int);
        match scan_u64(s1) {
            None => None,
            Some((seqno, k1)) => {
                let s2 = s1.skip(k1);
                if !at_lit(s2, ",\"timestamp\":\""@) {
                    None
                } else {
                    let s3 = s2.skip(",\"timestamp\":\""@.len() as int);
                    match scan_jstr(s3) {
                        None => None,
                        Some((ts, k2)) => {
                            let s4 = s3.skip(k2);
                            if !at_lit(s4, "\",\"node_id\":\""@) {
                                None
                            } else {
                                let s5 = s4.skip("\",\"node_id\":\""@.len() as int);
                                match scan_jstr(s5) {
                                    None => None,
                                    Some((nid, k3)) => {
                                        let s6 = s5.skip(k3);
                                        if !at_lit(s6, "\",\"operation\":"@) {
                                            None
                                        } else {
                                            let s7 = s6.skip("\",\"operation\":"@.len() as int);
                                            match parse_op(s7) {
                                                None => None,
                                                Some((op, k4)) => {
                                                    let s8 = s7.skip(k4);
                                                    if !at_lit(s8, ",\"checksum\":\""@) {
                                                        None
                                                    } else {
                                                        let s9 = s8.skip(
                                                            ",\"checksum\":\""@.len() as int,
                                                        );
                                                        match scan_jstr(s9) {
                                                            None => None,
                                                            Some((ck, k5)) => {
                                                                let s10 = s9.skip(k5);
                                                                if at_lit(
                                                                    s10,
                                                                    "\",\"version\":\"1.0\"}"@,
                                                                ) && s10.len()
                                                                    == "\",\"version\":\"1.0\"}"@.len() {
                                                                    Some(
                                                                        LogRecordView {
                                                                            seq: seqno,
                                                                            timestamp: ts,
                                                                            node_id: nid,
                                                                            operation: op,
                                                                            checksum: ck,
                                                                        },
                                                                    )
                                                                } else {
                                                                    None
                                                                }
                                                            },
                                                        }
                                                    }
                                                },
                                            }
                                        }
                                    },
                                }
                            }
                        },
                    }
                }
            },
        }
    }
}

// --- executable scanners ---

/// Consumes a literal: the position after it, or `None` where `s` does not
/// hold it at `pos`.
pub(crate) fn eat_lit(s: &Vec<char>, pos: usize, lit: &str) -> (r: Option<usize>)
    requires
        pos <= s@.len(),
    ensures
        match r {
            Some(p2) => at_lit(s@.skip(pos as int), lit@) && pos <= p2 <= s@.len() && p2 - pos
                == lit@.len(),
            None => !at_lit(s@.skip(pos as int), lit@),
        },
{
    let lc = str_chars(lit);
    let ghost tail = s@.skip(pos as int);
    let n: usize = s.len();
    if n - pos < lc.len() {
        return None;
    }
    let mut i: usize = 0;
    while i < lc.len()
        invariant
            lc@ == lit@,
            tail == s@.skip(pos as int),
            pos <= s@.len(),
            s@.len() <= usize::MAX,
            lc@.len() <= s@.len() - pos,
            i <= lc@.len(),
            forall|k: int| 0 <= k < i ==> tail[k] == lc@[k],
        decreases lc@.len() - i,
    {
        if s[pos + i] != lc[i] {
            proof {
                assert(tail[i as int] == s@[pos + i]);
                if at_lit(tail, lit@) {
                    assert(tail.take(lit@.len() as int)[i as int] == tail[i as int]);
                }
            }
            return None;
        }
        proof {
            assert(tail[i as int] == s@[pos + i]);
        }
        i = i + 1;
    }
    proof {
        assert(tail.take(lit@.len() as int) =~= lit@);
    }
    Some(pos + lc.len())
}

/// Scans the escaped content of a JSON string, stopping before the closing
/// quote: the unescaped characters and the position of that quote.
pub(crate) fn scan_jstr_exec(s: &Vec<char>, pos: usize) -> (r: Option<(Vec<char>, usize)>)
    requires
        pos <= s@.len(),
    ensures
        match r {
            Some(p) => pos <= p.1 <= s@.len() && scan_jstr(s@.skip(pos as int)) == Some(
                (p.0@, p.1 - pos as int),
            ),
            None => scan_jstr(s@.skip(pos as int)) is None,
        },
{
    let mut i: usize = pos;
    let mut out: Vec<char> = Vec::new();
    let _n: usize = s.len();
    proof {
        assert(s@.len() <= usize::MAX);
    }
    loop
        invariant
            pos <= i <= s@.len(),
            s@.len() <= usize::MAX,
            (match scan_jstr(s@.skip(i as int)) {
                Some(p) => scan_jstr(s@.skip(pos as int)) == Some(
                    (out@ + p.0, (i - pos) + p.1),
                ),
                None => scan_jstr(s@.skip(pos as int)) is None,
            }),
        decreases s@.len() - i,
    {
        let ghost cur = s@.skip(i as int);
        if i >= s.len() {
            proof {
                assert(cur.len() == 0);
            }
            return None;
        }
        let c = s[i];
        proof {
            assert(cur[0] == s@[i as int]);
        }
        if c == '"' {
            proof {
                assert(scan_jstr(cur) == Some((Seq::<char>::empty(), 0int)));
                assert(out@ + Seq::<char>::empty() =~= out@);
            }
            return Some((out, i));
        } else if c == '\\' {
            let rem = s.len() - i;
            if rem > 1 && (s[i + 1] == '"' || s[i + 1] == '\\') {
                proof {
                    assert(cur[1] == s@[i + 1]);
                    assert(cur.skip(2) =~= s@.skip(i + 2));
                }
                let u = if s[i + 1] == '"' {
                    '"'
                } else {
                    '\\'
                };
                let ghost out0 = out@;
                out.push(u);
                proof {
                    assert(out@.drop_last() =~= out0);
                    lemma_scan_step(s@, pos as int, i as int, out@, u, 2);
                }
                i = i + 2;
            } else if rem > 5 && s[i + 1] == 'u' && s[i + 2] == '0' && s[i + 3] == '0'
                && is_hex_lc_exec(s[i + 4]) && is_hex_lc_exec(s[i + 5]) && hex_val_exec(s[i + 4])
                * 16 + hex_val_exec(s[i + 5]) < 32 {
                let v: u8 = hex_val_exec(s[i + 4]) * 16 + hex_val_exec(s[i + 5]);
                let u = v as char;
                proof {
                    assert(cur[1] == s@[i + 1] && cur[2] == s@[i + 2] && cur[3] == s@[i + 3]
                        && cur[4] == s@[i + 4] && cur[5] == s@[i + 5]);
                    assert(cur.skip(6) =~= s@.skip(i + 6));
                    assert(u == (((hex_val(cur[4]) * 16 + hex_val(cur[5])) as u8) as char));
                }
                let ghost out0 = out@;
                out.push(u);
                proof {
                    assert(out@.drop_last() =~= out0);
                    lemma_scan_step(s@, pos as int, i as int, out@, u, 6);
                }
                i = i + 6;
            } else {
                proof {
                    if cur.len() >= 2 {
                        assert(cur[1] == s@[i + 1]);
                    }
                    assert(scan_jstr(cur) is None);
                }
                return None;
            }
        } else if (c as u32) < 32 {
            return None;
        } else {
            proof {
                assert(cur.skip(1) =~= s@.skip(i + 1));
            }
            let ghost out0 = out@;
            out.push(c);
            proof {
                assert(out@.drop_last() =~= out0);
                lemma_scan_step(s@, pos as int, i as int, out@, c, 1);
            }
            i = i + 1;
        }
    }
}

/// The continuation step of the string scanner: consuming one source token
/// that unescapes to `u` keeps the relation to the scan from `pos`.
proof fn lemma_scan_step(s: Seq<char>, pos: int, i: int, outv: Seq<char>, u: char, k: int)
    requires
        0 <= pos <= i,
        i + k <= s.len(),
        scan_jstr(s.skip(i)) == scan_cons(u, scan_jstr(s.skip(i + k)), k),
        outv.len() > 0 && outv.last() == u,
        (match scan_jstr(s.skip(i)) {
            Some(p) => scan_jstr(s.skip(pos)) == Some((outv.drop_last() + p.0, (i - pos) + p.1)),
            None => scan_jstr(s.skip(pos)) is None,
        }),
    ensures
        (match scan_jstr(s.skip(i + k)) {
            Some(p) => scan_jstr(s.skip(pos)) == Some((outv + p.0, (i + k - pos) + p.1)),
            None => scan_jstr(s.skip(pos)) is None,
        }),
{
    match scan_jstr(s.skip(i + k)) {
        Some(p) => {
            assert(scan_jstr(s.skip(i)) == Some((seq![u] + p.0, k + p.1)));
            assert(outv.drop_last() + (seq![u] + p.0) =~= outv + p.0);
        },
        None => {},
    }
}

fn is_hex_lc_exec(c: char) -> (r: bool)
    ensures
        r == is_hex_lc(c),
{
    let v = c as u32;
    (48 <= v && v <= 57) || (97 <= v && v <= 102)
}

fn hex_val_exec(c: char) -> (r: u8)
    requires
        is_hex_lc(c),
    ensures
        r as nat == hex_val(c),
        r < 16,
{
    let v = c as u32;
    if v <= 57 {
        (v - 48) as u8
    } else {
        (v - 87) as u8
    }
}

/// Scans an unsigned decimal number: its value and the position after its
/// digits, or `None` when there is no digit or the value does not fit.
pub(crate) fn scan_u64_exec(s: &Vec<char>, pos: usize) -> (r: Option<(u64, usize)>)
    requires
        pos <= s@.len(),
    ensures
        match r {
            Some(p) => pos <= p.1 <= s@.len() && scan_u64(s@.skip(pos as int)) == Some(
                (p.0, p.1 - pos as int),
            ),
            None => scan_u64(s@.skip(pos as int)) is None,
        },
{
    let end = digit_end(s, pos);
    proof {
        lemma_digit_run_split(s@, pos as int, end as int);
    }
    if end == pos {
        return None;
    }
    let ghost run = s@.skip(pos as int).take(digit_run(s@.skip(pos as int)));
    proof {
        assert(run =~= s@.subrange(pos as int, end as int));
    }
    let mut acc: u64 = 0;
    let mut i: usize = pos;
    while i < end
        invariant
            pos < end,
            pos <= i <= end <= s@.len(),
            forall|k: int| pos <= k < end ==> is_digit(#[trigger] s@[k]),
            digit_run(s@.skip(pos as int)) == end - pos,
            run == s@.skip(pos as int).take(digit_run(s@.skip(pos as int))),
            run == s@.subrange(pos as int, end as int),
            acc as nat == digits_val(s@.subrange(pos as int, i as int)),
        decreases end - i,
    {
        let v = s[i] as u32;
        proof {
            assert(is_digit(s@[i as int]));
        }
        let d = (v - 48) as u64;
        if acc > u64::MAX / 10 || (acc == u64::MAX / 10 && d > u64::MAX % 10) {
            proof {
                let part = s@.subrange(pos as int, i + 1);
                assert(part.drop_last() =~= s@.subrange(pos as int, i as int));
                assert(part.last() == s@[i as int]);
                assert(digits_val(part) > u64::MAX);
                lemma_digits_val_prefix(run, i + 1 - pos);
                assert(run.take(i + 1 - pos) =~= part);
            }
            return None;
        }
        acc = acc * 10 + d;
        proof {
            let part = s@.subrange(pos as int, i + 1);
            assert(part.drop_last() =~= s@.subrange(pos as int, i as int));
            assert(part.last() == s@[i as int]);
            assert(digit_val(s@[i as int]) == (v - 48) as nat);
        }
        i = i + 1;
    }
    proof {
        assert(s@.subrange(pos as int, end as int) == run);
    }
    Some((acc, end))
}

/// The end of the leading digit run at `pos`.
fn digit_end(s: &Vec<char>, pos: usize) -> (end: usize)
    requires
        pos <= s@.len(),
    ensures
        pos <= end <= s@.len(),
        digit_run(s@.skip(pos as int)) == end - pos,
        forall|k: int| pos <= k < end ==> is_digit(#[trigger] s@[k]),
{
    let mut i: usize = pos;
    let _n: usize = s.len();
    proof {
        assert(s@.len() <= usize::MAX);
    }
    loop
        invariant
            pos <= i <= s@.len(),
            s@.len() <= usize::MAX,
            digit_run(s@.skip(pos as int)) == (i - pos) + digit_run(s@.skip(i as int)),
            forall|k: int| pos <= k < i ==> is_digit(#[trigger] s@[k]),
        decreases s@.len() - i,
    {
        let ghost cur = s@.skip(i as int);
        if i >= s.len() {
            proof {
                assert(cur.len() == 0);
            }
            return i;
        }
        let v = s[i] as u32;
        proof {
            assert(cur[0] == s@[i as int]);
        }
        if 48 <= v && v <= 57 {
            proof {
                assert(cur.skip(1) =~= s@.skip(i + 1));
            }
            i = i + 1;
        } else {
            proof {
                assert(digit_run(cur) == 0);
            }
            return i;
        }
    }
}

/// A digit run splits at any boundary of all-digit prefixes.
proof fn lemma_digit_run_split(s: Seq<char>, pos: int, end: int)
    requires
        0 <= pos <= end <= s.len(),
        digit_run(s.skip(pos)) == end - pos,
    ensures
        s.skip(pos).take(digit_run(s.skip(pos))) =~= s.subrange(pos, end),
{
}

/// A prefix of a digit string never exceeds the whole string's value.
proof fn lemma_digits_val_prefix(d: Seq<char>, k: int)
    requires
        0 <= k <= d.len(),
    ensures
        digits_val(d.take(k)) <= digits_val(d),
    decreases d.len(),
{
    if k < d.len() {
        assert(d.drop_last().take(k) =~= d.take(k));
        lemma_digits_val_prefix(d.drop_last(), k);
    } else {
        assert(d.take(k) =~= d);
    }
}

/// Builds the serialized operation object.
pub fn build_op_json(op: &WalOp) -> (r: Vec<char>)
    ensures
        r@ == op_json(op@),
{
    let mut out: Vec<char> = Vec::new();
    match op {
        WalOp::Put { key, value } => {
            push_str(&mut out, "{\"op\":\"SET\",\"key\":\"");
            let kc = str_chars(key.as_str());
            push_escaped(&mut out, &kc);
            push_str(&mut out, "\",\"value\":\"");
            let vc = str_chars(value.as_str());
            push_escaped(&mut out, &vc);
            push_str(&mut out, "\",\"key_size\":");
            push_dec_u64(&mut out, key.as_str().len() as u64);
            push_str(&mut out, ",\"value_size\":");
            push_dec_u64(&mut out, value.as_str().len() as u64);
            push_str(&mut out, "}");
            proof {
                assert(out@ =~= op_json(op@));
            }
        },
        WalOp::Delete { key } => {
            push_str(&mut out, "{\"op\":\"DELETE\",\"key\":\"");
            let kc = str_chars(key.as_str());
            push_escaped(&mut out, &kc);
            push_str(&mut out, "\",\"key_size\":");
            push_dec_u64(&mut out, key.as_str().len() as u64);
            push_str(&mut out, "}");
            proof {
                assert(out@ =~= op_json(op@));
            }
        },
    }
    out
}

/// Builds one full log line, newline included.
pub fn build_wal_line(seqno: u64, timestamp: &str, node_id: &str, op: &WalOp) -> (r: Vec<char>)
    ensures
        r@ == wal_line(seqno, timestamp@, node_id@, op@),
{
    let mut out: Vec<char> = Vec::new();
    push_str(&mut out, "{\"seq\":");
    push_dec_u64(&mut out, seqno);
    push_str(&mut out, ",\"timestamp\":\"");
    let tc = str_chars(timestamp);
    push_escaped(&mut out, &tc);
    push_str(&mut out, "\",\"node_id\":\"");
    let nc = str_chars(node_id);
    push_escaped(&mut out, &nc);
    push_str(&mut out, "\",\"operation\":");
    let oj = build_op_json(op);
    append_chars(&mut out, &oj);
    push_str(&mut out, ",\"checksum\":\"");
    let digest = crate::ring::sha256_of_chars(&oj);
    push_hex_prefix(&mut out, &digest, 8);
    push_str(&mut out, "\",\"version\":\"1.0\"}");
    out.push('\n');
    proof {
        assert(out@ =~= wal_line(seqno, timestamp@, node_id@, op@));
    }
    out
}

} // verus!
// --- recovery inverts serialization ---

verus! {

/// No newline anywhere in `s`.
pub open spec fn no_nl(s: Seq<char>) -> bool {
    forall|k: int| 0 <= k < s.len() ==> s[k] != '\n'
}

proof fn lemma_no_nl_concat(a: Seq<char>, b: Seq<char>)
    requires
        no_nl(a),
        no_nl(b),
    ensures
        no_nl(a + b),
{
    assert forall|k: int| 0 <= k < (a + b).len() implies (a + b)[k] != '\n' by {
        if k < a.len() {
            assert((a + b)[k] == a[k]);
        } else {
            assert((a + b)[k] == b[k - a.len()]);
        }
    }
}

/// Every character of a decimal rendering is a digit.
proof fn lemma_dec_digits(n: nat)
    ensures
        forall|k: int| 0 <= k < dec_chars(n).len() ==> is_digit(#[trigger] dec_chars(n)[k]),
    decreases n,
{
    if n < 10 {
        assert(is_digit(dec_digit(n)));
    } else {
        lemma_dec_digits(n / 10);
        assert forall|k: int|
            0 <= k < dec_chars(n).len() implies is_digit(#[trigger] dec_chars(n)[k]) by {
            if k < dec_chars(n / 10).len() {
                assert(dec_chars(n)[k] == dec_chars(n / 10)[k]);
            } else {
                assert(dec_chars(n)[k] == dec_digit(n % 10));
            }
        }
    }
}

/// The digit run of digits followed by a non-digit is exactly the digits.
proof fn lemma_digit_run_concat(a: Seq<char>, b: Seq<char>)
    requires
        forall|k: int| 0 <= k < a.len() ==> is_digit(#[trigger] a[k]),
        b.len() > 0 ==> !is_digit(b[0]),
    ensures
        digit_run(a + b) == a.len(),
    decreases a.len(),
{
    if a.len() == 0 {
        assert(a + b =~= b);
    } else {
        assert((a + b)[0] == a[0]);
        assert((a + b).skip(1) =~= a.drop_first() + b);
        assert(forall|k: int|
            0 <= k < a.drop_first().len() ==> is_digit(#[trigger] a.drop_first()[k]));
        lemma_digit_run_concat(a.drop_first(), b);
    }
}

/// Reading back a decimal rendering gives the number.
proof fn lemma_digits_val_dec(n: nat)
    ensures
        digits_val(dec_chars(n)) == n,
    decreases n,
{
    if n < 10 {
        assert(dec_chars(n).drop_last() =~= Seq::<char>::empty());
        assert(dec_chars(n).last() == dec_digit(n));
        assert(digit_val(dec_digit(n)) == n);
        assert(digits_val(dec_chars(n)) == digits_val(dec_chars(n).drop_last()) * 10 + digit_val(
            dec_chars(n).last(),
        ));
        assert(digits_val(Seq::<char>::empty()) == 0);
    } else {
        lemma_digits_val_dec(n / 10);
        assert(dec_chars(n).drop_last() =~= dec_chars(n / 10));
        assert(dec_chars(n).last() == dec_digit(n % 10));
        assert(digit_val(dec_digit(n % 10)) == n % 10);
        assert(digits_val(dec_chars(n)) == digits_val(dec_chars(n).drop_last()) * 10 + digit_val(
            dec_chars(n).last(),
        ));
        assert(digits_val(dec_chars(n).drop_last()) == n / 10);
        assert((n / 10) * 10 + n % 10 == n) by {
            vstd::arithmetic::div_mod::lemma_fundamental_div_mod(n as int, 10);
        }
    }
}

/// Scanning a decimal rendering followed by a non-digit yields the number.
pub proof fn lemma_scan_dec(n: nat, rest: Seq<char>)
    requires
        n <= u64::MAX,
        rest.len() > 0,
        !is_digit(rest[0]),
    ensures
        scan_u64(dec_chars(n) + rest) == Some((n as u64, dec_chars(n).len() as int)),
{
    lemma_dec_digits(n);
    lemma_digit_run_concat(dec_chars(n), rest);
    lemma_digits_val_dec(n);
    assert((dec_chars(n) + rest).take(dec_chars(n).len() as int) =~= dec_chars(n));
}

/// A character the escaper leaves alone.
pub open spec fn plain_char(c: char) -> bool {
    c != '"' && c != '\\' && (c as u32) >= 32
}

proof fn lemma_esc_plain(s: Seq<char>)
    requires
        forall|k: int| 0 <= k < s.len() ==> plain_char(#[trigger] s[k]),
    ensures
        esc(s) == s,
    decreases s.len(),
{
    if s.len() == 0 {
        assert(esc(s) =~= s);
    } else {
        assert(plain_char(s[0]));
        assert(esc_char(s[0]) == seq![s[0]]);
        assert(forall|k: int|
            0 <= k < s.drop_first().len() ==> plain_char(#[trigger] s.drop_first()[k]));
        lemma_esc_plain(s.drop_first());
        assert(esc(s) =~= s);
    }
}

/// Hex digits are plain characters.
proof fn lemma_hex_digit_plain(d: nat)
    ensures
        plain_char(hex_digit(d)),
        is_hex_lc(hex_digit(d)),
        d < 16 ==> hex_val(hex_digit(d)) == d,
{
}

proof fn lemma_hex_chars_plain(s: Seq<u8>)
    ensures
        forall|k: int| 0 <= k < hex_chars(s).len() ==> plain_char(#[trigger] hex_chars(s)[k]),
    decreases s.len(),
{
    if s.len() > 0 {
        lemma_hex_digit_plain((s[0] / 16) as nat);
        lemma_hex_digit_plain((s[0] % 16) as nat);
        lemma_hex_chars_plain(s.drop_first());
        assert forall|k: int|
            0 <= k < hex_chars(s).len() implies plain_char(#[trigger] hex_chars(s)[k]) by {
            if k < 2 {
                assert(hex_chars(s)[k] == hex_byte(s[0])[k]);
            } else {
                assert(hex_chars(s)[k] == hex_chars(s.drop_first())[k - 2]);
            }
        }
    }
}

/// Scanning an escaped string stops exactly at the closing quote and yields
/// the original characters.
pub proof fn lemma_scan_esc(t: Seq<char>, rest: Seq<char>)
    requires
        rest.len() > 0,
        rest[0] == '"',
    ensures
        scan_jstr(esc(t) + rest) == Some((t, esc(t).len() as int)),
    decreases t.len(),
{
    broadcast use vstd::utf8::char_u32_cast;

    let s = esc(t) + rest;
    if t.len() == 0 {
        assert(esc(t) =~= Seq::<char>::empty());
        assert(s =~= rest);
        assert(scan_jstr(s) == Some((Seq::<char>::empty(), 0int)));
        assert(t =~= Seq::<char>::empty());
    } else {
        let c = t[0];
        let t1 = t.drop_first();
        lemma_scan_esc(t1, rest);
        assert(esc(t) == esc_char(c) + esc(t1));
        let s1 = esc(t1) + rest;
        if c == '"' {
            assert(s[0] == '\\' && s[1] == '"');
            assert(s.len() >= 2);
            assert(s.skip(2) =~= s1);
            assert(scan_jstr(s) == scan_cons('"', scan_jstr(s1), 2));
            assert(seq!['"'] + t1 =~= t);
        } else if c == '\\' {
            assert(s[0] == '\\' && s[1] == '\\');
            assert(s.skip(2) =~= s1);
            assert(scan_jstr(s) == scan_cons('\\', scan_jstr(s1), 2));
            assert(seq!['\\'] + t1 =~= t);
        } else if (c as u32) < 32 {
            let v = c as u32;
            lemma_hex_digit_plain((v / 16) as nat);
            lemma_hex_digit_plain((v % 16) as nat);
            assert(s[0] == '\\' && s[1] == 'u' && s[2] == '0' && s[3] == '0');
            assert(s[4] == hex_digit((v / 16) as nat) && s[5] == hex_digit((v % 16) as nat));
            assert(s.len() >= 6);
            assert(is_hex_lc(s[4]) && is_hex_lc(s[5]));
            assert(hex_val(s[4]) == v / 16 && hex_val(s[5]) == v % 16);
            assert(hex_val(s[4]) * 16 + hex_val(s[5]) == v);
            assert(s[1] != '"' && s[1] != '\\');
            assert(s.skip(6) =~= s1);
            assert(((v as u8) as u32) == v);
            assert((((v as u8) as char) as u32) == ((v as u8) as u32));
            vstd::utf8::char_u32_cast((v as u8) as char, v);
            vstd::utf8::char_u32_cast(c, v);
            assert(((v as u8) as char) == c);
            assert(scan_jstr(s) == scan_cons(c, scan_jstr(s1), 6));
            assert(seq![c] + t1 =~= t);
        } else {
            assert(esc_char(c) == seq![c]);
            assert(s[0] == c);
            assert(s.skip(1) =~= s1);
            assert(scan_jstr(s) == scan_cons(c, scan_jstr(s1), 1));
            assert(seq![c] + t1 =~= t);
        }
    }
}

/// A sequence that starts with a literal: the literal is read and the rest
/// remains.
pub proof fn lemma_eat(pre: Seq<char>, post: Seq<char>)
    ensures
        at_lit(pre + post, pre),
        (pre + post).skip(pre.len() as int) == post,
{
    assert((pre + post).take(pre.len() as int) =~= pre);
    assert((pre + post).skip(pre.len() as int) =~= post);
}

} // verus!
verus! {

/// Parsing inverts serialization for the operation object: the parser reads
/// back exactly the operation and consumes exactly its serialization.
pub proof fn lemma_parse_op_round_trip(op: WalOpView, rest: Seq<char>)
    ensures
        parse_op(op_json(op) + rest) == Some((op, op_json(op).len() as int)),
{
    match op {
        WalOpView::Put { key, value } => lemma_parse_op_set(key, value, rest),
        WalOpView::Delete { key } => lemma_parse_op_delete(key, rest),
    }
}

#[verifier::rlimit(100)]
#[verifier::spinoff_prover]
proof fn lemma_parse_op_set(key: Seq<char>, value: Seq<char>, rest: Seq<char>)
    ensures
        parse_op(op_json(WalOpView::Put { key, value }) + rest) == Some(
            (WalOpView::Put { key, value }, op_json(WalOpView::Put { key, value }).len() as int),
        ),
{
    reveal_strlit("}");
    reveal_strlit("\",\"value\":\"");
    reveal_strlit("\",\"key_size\":");
    reveal_strlit(",\"value_size\":");
    let op = WalOpView::Put { key, value };
    let s = op_json(op) + rest;
    let sizek = size_chars(key);
    let sizev = size_chars(value);
    let a1 = "{\"op\":\"SET\",\"key\":\""@ + esc(key);
    let a2 = a1 + "\",\"value\":\""@;
    let a3 = a2 + esc(value);
    let a4 = a3 + "\",\"key_size\":"@;
    let a5 = a4 + sizek;
    let a6 = a5 + ",\"value_size\":"@;
    let a7 = a6 + sizev;
    assert(op_json(op) == a7 + "}"@);
    let t7 = "}"@ + rest;
    let t6 = sizev + t7;
    let t5 = ",\"value_size\":"@ + t6;
    let t4 = sizek + t5;
    let t3 = "\",\"key_size\":"@ + t4;
    let t2 = esc(value) + t3;
    let t1 = "\",\"value\":\""@ + t2;
    let t0 = esc(key) + t1;
    assert(s =~= a7 + t7);
    assert(a7 + t7 =~= a6 + t6);
    assert(a6 + t6 =~= a5 + t5);
    assert(a5 + t5 =~= a4 + t4);
    assert(a4 + t4 =~= a3 + t3);
    assert(a3 + t3 =~= a2 + t2);
    assert(a2 + t2 =~= a1 + t1);
    assert(a1 + t1 =~= "{\"op\":\"SET\",\"key\":\""@ + t0);
    assert(s == "{\"op\":\"SET\",\"key\":\""@ + t0);
    lemma_eat("{\"op\":\"SET\",\"key\":\""@, t0);
    assert(s.skip("{\"op\":\"SET\",\"key\":\""@.len() as int) == t0);
    assert(t1[0] == '"');
    lemma_scan_esc(key, t1);
    assert(scan_jstr(t0) == Some((key, esc(key).len() as int)));
    assert(t0.skip(esc(key).len() as int) =~= t1);
    lemma_eat("\",\"value\":\""@, t2);
    assert(t1.skip("\",\"value\":\""@.len() as int) == t2);
    assert(t3[0] == '"');
    lemma_scan_esc(value, t3);
    assert(scan_jstr(t2) == Some((value, esc(value).len() as int)));
    assert(t2.skip(esc(value).len() as int) =~= t3);
    lemma_eat("\",\"key_size\":"@, t4);
    assert(t3.skip("\",\"key_size\":"@.len() as int) == t4);
    assert(t5[0] == ',');
    assert(!is_digit(','));
    lemma_scan_dec((((vstd::utf8::encode_utf8(key).len() as usize) as u64) as nat), t5);
    assert(scan_u64(t4) == Some(
        (((vstd::utf8::encode_utf8(key).len() as usize) as u64), sizek.len() as int),
    ));
    assert(t4.skip(sizek.len() as int) =~= t5);
    lemma_eat(",\"value_size\":"@, t6);
    assert(t5.skip(",\"value_size\":"@.len() as int) == t6);
    assert(t7[0] == '}');
    assert(!is_digit('}'));
    lemma_scan_dec((((vstd::utf8::encode_utf8(value).len() as usize) as u64) as nat), t7);
    assert(scan_u64(t6) == Some(
        (((vstd::utf8::encode_utf8(value).len() as usize) as u64), sizev.len() as int),
    ));
    assert(t6.skip(sizev.len() as int) =~= t7);
    lemma_eat("}"@, rest);
    assert(at_lit(t7, "}"@));
    assert(t7.len() == 1 + rest.len());
    assert(s.len() - t7.len() + 1 == op_json(op).len());
}

#[verifier::rlimit(100)]
#[verifier::spinoff_prover]
proof fn lemma_parse_op_delete(key: Seq<char>, rest: Seq<char>)
    ensures
        parse_op(op_json(WalOpView::Delete { key }) + rest) == Some(
            (WalOpView::Delete { key }, op_json(WalOpView::Delete { key }).len() as int),
        ),
{
    reveal_strlit("}");
    reveal_strlit("{\"op\":\"SET\",\"key\":\"");
    reveal_strlit("{\"op\":\"DELETE\",\"key\":\"");
    reveal_strlit("\",\"key_size\":");
    let op = WalOpView::Delete { key };
    let s = op_json(op) + rest;
    let sizek = size_chars(key);
    let t3 = "}"@ + rest;
    let t2 = sizek + t3;
    let t1 = "\",\"key_size\":"@ + t2;
    let t0 = esc(key) + t1;
    assert(s =~= "{\"op\":\"DELETE\",\"key\":\""@ + t0);
    assert(!at_lit(s, "{\"op\":\"SET\",\"key\":\""@)) by {
        if at_lit(s, "{\"op\":\"SET\",\"key\":\""@) {
            assert(s.take("{\"op\":\"SET\",\"key\":\""@.len() as int)[7] == s[7]);
            assert(s[7] == "{\"op\":\"DELETE\",\"key\":\""@[7]);
        }
    }
    lemma_eat("{\"op\":\"DELETE\",\"key\":\""@, t0);
    assert(s.skip("{\"op\":\"DELETE\",\"key\":\""@.len() as int) == t0);
    assert(t1[0] == '"');
    lemma_scan_esc(key, t1);
    assert(scan_jstr(t0) == Some((key, esc(key).len() as int)));
    assert(t0.skip(esc(key).len() as int) =~= t1);
    lemma_eat("\",\"key_size\":"@, t2);
    assert(t1.skip("\",\"key_size\":"@.len() as int) == t2);
    assert(t3[0] == '}');
    assert(!is_digit('}'));
    lemma_scan_dec((((vstd::utf8::encode_utf8(key).len() as usize) as u64) as nat), t3);
    assert(scan_u64(t2) == Some(
        (((vstd::utf8::encode_utf8(key).len() as usize) as u64), sizek.len() as int),
    ));
    assert(t2.skip(sizek.len() as int) =~= t3);
    lemma_eat("}"@, rest);
    assert(at_lit(t3, "}"@));
    assert(t3.len() == 1 + rest.len());
    assert(s.len() - t3.len() + 1 == op_json(op).len());
}

/// Parsing inverts serialization for a whole line body: the record read back
/// carries exactly what was written, and its stored checksum is the checksum
/// of its own operation.
#[verifier::rlimit(100)]
#[verifier::spinoff_prover]
pub proof fn lemma_parse_wal_line_round_trip(
    seqno: u64,
    timestamp: Seq<char>,
    node_id: Seq<char>,
    op: WalOpView,
)
    ensures
        parse_wal_line(wal_line_body(seqno, timestamp, node_id, op)) == Some(
            LogRecordView {
                seq: seqno,
                timestamp: timestamp,
                node_id: node_id,
                operation: op,
                checksum: checksum_chars(op),
            },
        ),
{
    reveal_strlit(",\"timestamp\":\"");
    reveal_strlit("\",\"node_id\":\"");
    reveal_strlit("\",\"operation\":");
    reveal_strlit(",\"checksum\":\"");
    reveal_strlit("\",\"version\":\"1.0\"}");
    let s = wal_line_body(seqno, timestamp, node_id, op);
    let ck = checksum_chars(op);
    let t8 = "\",\"version\":\"1.0\"}"@;
    let t7 = ck + t8;
    let t6 = ",\"checksum\":\""@ + t7;
    let t5 = op_json(op) + t6;
    let t4 = "\",\"operation\":"@ + t5;
    let t3 = esc(node_id) + t4;
    let t2 = "\",\"node_id\":\""@ + t3;
    let t1 = esc(timestamp) + t2;
    let t0 = ",\"timestamp\":\""@ + t1;
    let td = dec_chars(seqno as nat) + t0;
    assert(s =~= "{\"seq\":"@ + td);
    lemma_eat("{\"seq\":"@, td);
    assert(s.skip("{\"seq\":"@.len() as int) == td);
    assert(t0[0] == ',');
    assert(!is_digit(','));
    lemma_scan_dec(seqno as nat, t0);
    assert(scan_u64(td) == Some((seqno, dec_chars(seqno as nat).len() as int)));
    assert(td.skip(dec_chars(seqno as nat).len() as int) =~= t0);
    lemma_eat(",\"timestamp\":\""@, t1);
    assert(t0.skip(",\"timestamp\":\""@.len() as int) == t1);
    assert(t2[0] == '"');
    lemma_scan_esc(timestamp, t2);
    assert(scan_jstr(t1) == Some((timestamp, esc(timestamp).len() as int)));
    assert(t1.skip(esc(timestamp).len() as int) =~= t2);
    lemma_eat("\",\"node_id\":\""@, t3);
    assert(t2.skip("\",\"node_id\":\""@.len() as int) == t3);
    assert(t4[0] == '"');
    lemma_scan_esc(node_id, t4);
    assert(scan_jstr(t3) == Some((node_id, esc(node_id).len() as int)));
    assert(t3.skip(esc(node_id).len() as int) =~= t4);
    lemma_eat("\",\"operation\":"@, t5);
    assert(t4.skip("\",\"operation\":"@.len() as int) == t5);
    lemma_parse_op_round_trip(op, t6);
    assert(parse_op(t5) == Some((op, op_json(op).len() as int)));
    assert(t5.skip(op_json(op).len() as int) =~= t6);
    lemma_eat(",\"checksum\":\""@, t7);
    assert(t6.skip(",\"checksum\":\""@.len() as int) == t7);
    assert(t8[0] == '"');
    lemma_hex_chars_plain(sha256_chars(op_json(op)).take(8));
    lemma_esc_plain(ck);
    lemma_scan_esc(ck, t8);
    assert(esc(ck) + t8 == t7);
    assert(scan_jstr(t7) == Some((ck, esc(ck).len() as int)));
    assert(t7.skip(ck.len() as int) =~= t8);
    lemma_eat("\",\"version\":\"1.0\"}"@, Seq::<char>::empty());
    assert(t8 + Seq::<char>::empty() =~= t8);
    assert(at_lit(t8, "\",\"version\":\"1.0\"}"@));
    assert(t8.len() == "\",\"version\":\"1.0\"}"@.len());
}

/// Neither the escaper nor the rest of the line format ever emits a newline.
proof fn lemma_esc_no_nl(s: Seq<char>)
    ensures
        no_nl(esc(s)),
    decreases s.len(),
{
    if s.len() > 0 {
        lemma_esc_no_nl(s.drop_first());
        let c = s[0];
        assert(no_nl(esc_char(c))) by {
            if c != '"' && c != '\\' && (c as u32) < 32 {
                lemma_hex_digit_plain(((c as u32) / 16) as nat);
                lemma_hex_digit_plain(((c as u32) % 16) as nat);
            }
        }
        lemma_no_nl_concat(esc_char(c), esc(s.drop_first()));
    }
}

proof fn lemma_dec_no_nl(n: nat)
    ensures
        no_nl(dec_chars(n)),
{
    lemma_dec_digits(n);
    assert forall|k: int| 0 <= k < dec_chars(n).len() implies dec_chars(n)[k] != '\n' by {
        assert(is_digit(dec_chars(n)[k]));
    }
}

proof fn lemma_hex_no_nl(s: Seq<u8>)
    ensures
        no_nl(hex_chars(s)),
{
    lemma_hex_chars_plain(s);
    assert forall|k: int| 0 <= k < hex_chars(s).len() implies hex_chars(s)[k] != '\n' by {
        assert(plain_char(hex_chars(s)[k]));
    }
}

/// A line body holds no newline, so splitting on newlines keeps it whole.
pub(crate) proof fn lemma_wal_line_body_no_nl(seqno: u64, timestamp: Seq<char>, node_id: Seq<char>, op: WalOpView)
    ensures
        no_nl(wal_line_body(seqno, timestamp, node_id, op)),
{
    reveal_strlit("{\"seq\":");
    reveal_strlit(",\"timestamp\":\"");
    reveal_strlit("\",\"node_id\":\"");
    reveal_strlit("\",\"operation\":");
    reveal_strlit(",\"checksum\":\"");
    reveal_strlit("\",\"version\":\"1.0\"}");
    reveal_strlit("{\"op\":\"SET\",\"key\":\"");
    reveal_strlit("{\"op\":\"DELETE\",\"key\":\"");
    reveal_strlit("\",\"value\":\"");
    reveal_strlit("\",\"key_size\":");
    reveal_strlit(",\"value_size\":");
    reveal_strlit("}");
    assert(no_nl(op_json(op))) by {
        match op {
            WalOpView::Put { key, value } => {
                lemma_esc_no_nl(key);
                lemma_esc_no_nl(value);
                lemma_dec_no_nl((((vstd::utf8::encode_utf8(key).len() as usize) as u64) as nat));
                lemma_dec_no_nl((((vstd::utf8::encode_utf8(value).len() as usize) as u64) as nat));
                lemma_no_nl_concat("{\"op\":\"SET\",\"key\":\""@, esc(key));
                lemma_no_nl_concat("{\"op\":\"SET\",\"key\":\""@ + esc(key), "\",\"value\":\""@);
                lemma_no_nl_concat(
                    "{\"op\":\"SET\",\"key\":\""@ + esc(key) + "\",\"value\":\""@,
                    esc(value),
                );
                lemma_no_nl_concat(
                    "{\"op\":\"SET\",\"key\":\""@ + esc(key) + "\",\"value\":\""@ + esc(value),
                    "\",\"key_size\":"@,
                );
                lemma_no_nl_concat(
                    "{\"op\":\"SET\",\"key\":\""@ + esc(key) + "\",\"value\":\""@ + esc(value)
                        + "\",\"key_size\":"@,
                    size_chars(key),
                );
                lemma_no_nl_concat(
                    "{\"op\":\"SET\",\"key\":\""@ + esc(key) + "\",\"value\":\""@ + esc(value)
                        + "\",\"key_size\":"@ + size_chars(key),
                    ",\"value_size\":"@,
                );
                lemma_no_nl_concat(
                    "{\"op\":\"SET\",\"key\":\""@ + esc(key) + "\",\"value\":\""@ + esc(value)
                        + "\",\"key_size\":"@ + size_chars(key) + ",\"value_size\":"@,
                    size_chars(value),
                );
                lemma_no_nl_concat(
                    "{\"op\":\"SET\",\"key\":\""@ + esc(key) + "\",\"value\":\""@ + esc(value)
                        + "\",\"key_size\":"@ + size_chars(key) + ",\"value_size\":"@ + size_chars(
                        value,
                    ),
                    "}"@,
                );
            },
            WalOpView::Delete { key } => {
                lemma_esc_no_nl(key);
                lemma_dec_no_nl((((vstd::utf8::encode_utf8(key).len() as usize) as u64) as nat));
                lemma_no_nl_concat("{\"op\":\"DELETE\",\"key\":\""@, esc(key));
                lemma_no_nl_concat(
                    "{\"op\":\"DELETE\",\"key\":\""@ + esc(key),
                    "\",\"key_size\":"@,
                );
                lemma_no_nl_concat(
                    "{\"op\":\"DELETE\",\"key\":\""@ + esc(key) + "\",\"key_size\":"@,
                    size_chars(key),
                );
                lemma_no_nl_concat(
                    "{\"op\":\"DELETE\",\"key\":\""@ + esc(key) + "\",\"key_size\":"@ + size_chars(
                        key,
                    ),
                    "}"@,
                );
            },
        }
    }
    lemma_esc_no_nl(timestamp);
    lemma_esc_no_nl(node_id);
    lemma_dec_no_nl(seqno as nat);
    lemma_hex_no_nl(sha256_chars(op_json(op)).take(8));
    lemma_no_nl_concat("{\"seq\":"@, dec_chars(seqno as nat));
    lemma_no_nl_concat("{\"seq\":"@ + dec_chars(seqno as nat), ",\"timestamp\":\""@);
    lemma_no_nl_concat(
        "{\"seq\":"@ + dec_chars(seqno as nat) + ",\"timestamp\":\""@,
        esc(timestamp),
    );
    lemma_no_nl_concat(
        "{\"seq\":"@ + dec_chars(seqno as nat) + ",\"timestamp\":\""@ + esc(timestamp),
        "\",\"node_id\":\""@,
    );
    lemma_no_nl_concat(
        "{\"seq\":"@ + dec_chars(seqno as nat) + ",\"timestamp\":\""@ + esc(timestamp)
            + "\",\"node_id\":\""@,
        esc(node_id),
    );
    lemma_no_nl_concat(
        "{\"seq\":"@ + dec_chars(seqno as nat) + ",\"timestamp\":\""@ + esc(timestamp)
            + "\",\"node_id\":\""@ + esc(node_id),
        "\",\"operation\":"@,
    );
    lemma_no_nl_concat(
        "{\"seq\":"@ + dec_chars(seqno as nat) + ",\"timestamp\":\""@ + esc(timestamp)
            + "\",\"node_id\":\""@ + esc(node_id) + "\",\"operation\":"@,
        op_json(op),
    );
    lemma_no_nl_concat(
        "{\"seq\":"@ + dec_chars(seqno as nat) + ",\"timestamp\":\""@ + esc(timestamp)
            + "\",\"node_id\":\""@ + esc(node_id) + "\",\"operation\":"@ + op_json(op),
        ",\"checksum\":\""@,
    );
    lemma_no_nl_concat(
        "{\"seq\":"@ + dec_chars(seqno as nat) + ",\"timestamp\":\""@ + esc(timestamp)
            + "\",\"node_id\":\""@ + esc(node_id) + "\",\"operation\":"@ + op_json(op)
            + ",\"checksum\":\""@,
        checksum_chars(op),
    );
    lemma_no_nl_concat(
        "{\"seq\":"@ + dec_chars(seqno as nat) + ",\"timestamp\":\""@ + esc(timestamp)
            + "\",\"node_id\":\""@ + esc(node_id) + "\",\"operation\":"@ + op_json(op)
            + ",\"checksum\":\""@ + checksum_chars(op),
        "\",\"version\":\"1.0\"}"@,
    );
}

} // verus!
