use vstd::prelude::*;
use crate::bytes::{find_in, lemma_find_in_props, lemma_find_in_some, lemma_find_in_restrict};

verus! {

/// Field delimiter between the key and the numeric value of a record.
pub const SEMI: u8 = 59;

/// Record terminator: a single linefeed byte.
pub const NL: u8 = 10;

/// Leading minus sign of a value.
pub const MINUS: u8 = 45;

/// Leading plus sign of a value.
pub const PLUS: u8 = 43;

/// Decimal point between the integer part and the single fractional digit.
pub const DOT: u8 = 46;

/// Largest magnitude, in tenths, that a parsed value may have. A record whose
/// value would exceed it is treated as malformed and skipped.
pub const MAX_TENTHS: i64 = 2147483647;

pub open spec fn is_digit(b: u8) -> bool {
    48 <= b <= 57
}

pub open spec fn digit_val(b: u8) -> int {
    b - 48
}

/// Numeric value of a run of decimal digit bytes, most significant first.
pub open spec fn digits_value(s: Seq<u8>) -> int
    decreases s.len(),
{
    if s.len() == 0 {
        0
    } else {
        digits_value(s.drop_last()) * 10 + digit_val(s.last())
    }
}

/// First position at or after `i` (and not past `hi`) that does not hold a
/// decimal digit.
pub open spec fn digit_run_end(buf: Seq<u8>, i: int, hi: int) -> int
    decreases hi - i,
{
    if i >= hi || !is_digit(buf[i]) {
        i
    } else {
        digit_run_end(buf, i + 1, hi)
    }
}

pub proof fn lemma_digit_run_end_bounds(buf: Seq<u8>, i: int, hi: int)
    requires
        i <= hi,
    ensures
        i <= digit_run_end(buf, i, hi) <= hi,
        forall|j: int| i <= j < digit_run_end(buf, i, hi) ==> is_digit(buf[j]),
        digit_run_end(buf, i, hi) < hi ==> !is_digit(buf[digit_run_end(buf, i, hi)]),
    decreases hi - i,
{
    if i < hi && is_digit(buf[i]) {
        lemma_digit_run_end_bounds(buf, i + 1, hi);
    }
}

/// A non-digit byte at `z` stops the run at or before `z`.
pub proof fn lemma_digit_run_end_le(buf: Seq<u8>, i: int, hi: int, z: int)
    requires
        i <= z < hi,
        !is_digit(buf[z]),
    ensures
        i <= digit_run_end(buf, i, hi) <= z,
    decreases z - i,
{
    if i < z && is_digit(buf[i]) {
        lemma_digit_run_end_le(buf, i + 1, hi, z);
    }
}

/// A digit run that stops strictly before the window's end stops at the same
/// place in any wider window.
pub proof fn lemma_digit_run_end_window(buf: Seq<u8>, i: int, h1: int, h2: int)
    requires
        i <= h1 <= h2,
        digit_run_end(buf, i, h1) < h1,
    ensures
        digit_run_end(buf, i, h2) == digit_run_end(buf, i, h1),
    decreases h1 - i,
{
    if i < h1 && is_digit(buf[i]) {
        lemma_digit_run_end_window(buf, i + 1, h1, h2);
    }
}

/// Result of parsing the numeric text that follows a delimiter: the value in
/// tenths if the text is well formed and in range, and the position right
/// after the consumed text.
#[verifier::ext_equal]
pub struct ParsedNum {
    pub value: Option<int>,
    pub next: int,
}

/// Parse the value text at `p` in the window `[p, hi)`: an optional sign, a
/// run of decimal digits, then an optional dot followed by at most one
/// fractional digit. The value, in tenths, is defined only when at least one
/// integer digit is present and the magnitude is at most `MAX_TENTHS`.
pub open spec fn parse_num(buf: Seq<u8>, p: int, hi: int) -> ParsedNum {
    let neg = p < hi && buf[p] == MINUS;
    let q = if p < hi && (buf[p] == MINUS || buf[p] == PLUS) {
        p + 1
    } else {
        p
    };
    let e = digit_run_end(buf, q, hi);
    let iv = digits_value(buf.subrange(q, e));
    let dec = if e < hi && buf[e] == DOT && e + 1 < hi && is_digit(buf[e + 1]) {
        digit_val(buf[e + 1])
    } else {
        0
    };
    let f = if e < hi && buf[e] == DOT {
        if e + 1 < hi && is_digit(buf[e + 1]) {
            e + 2
        } else {
            e + 1
        }
    } else {
        e
    };
    let total = iv * 10 + dec;
    ParsedNum {
        value: if e > q && total <= MAX_TENTHS {
            Some(
                if neg {
                    -total
                } else {
                    total
                },
            )
        } else {
            None
        },
        next: f,
    }
}

pub proof fn lemma_parse_num_bounds(buf: Seq<u8>, p: int, hi: int)
    requires
        0 <= p <= hi <= buf.len(),
    ensures
        p <= parse_num(buf, p, hi).next <= hi,
{
    let q = if p < hi && (buf[p] == MINUS || buf[p] == PLUS) {
        p + 1
    } else {
        p
    };
    lemma_digit_run_end_bounds(buf, q, hi);
}

/// One observation: the key bytes of a record and its value in tenths.
#[verifier::ext_equal]
pub struct Obs {
    pub key: Seq<u8>,
    pub tenths: int,
}

/// The observations that a scan of the window `[i, hi)` yields, in order.
/// Each step finds the next delimiter (stopping if there is none), takes the
/// bytes before it as the key, parses the value text after it, and resumes
/// right after the next terminator. Records whose value text is malformed or
/// out of range contribute nothing.
pub open spec fn scan_obs(buf: Seq<u8>, i: int, hi: int) -> Seq<Obs>
    decreases hi - i,
    when 0 <= i <= hi <= buf.len()
    via scan_obs_dec
{
    if i >= hi {
        Seq::empty()
    } else {
        match find_in(buf, SEMI, i, hi) {
            None => Seq::empty(),
            Some(s) => {
                let pn = parse_num(buf, s + 1, hi);
                let next = match find_in(buf, NL, pn.next, hi) {
                    Some(nl) => nl + 1,
                    None => hi,
                };
                let rest = scan_obs(buf, next, hi);
                match pn.value {
                    Some(v) => seq![Obs { key: buf.subrange(i, s), tenths: v }] + rest,
                    None => rest,
                }
            },
        }
    }
}

#[via_fn]
proof fn scan_obs_dec(buf: Seq<u8>, i: int, hi: int) {
    if i < hi {
        lemma_find_in_props(buf, SEMI, i, hi);
        match find_in(buf, SEMI, i, hi) {
            None => {},
            Some(s) => {
                lemma_parse_num_bounds(buf, s + 1, hi);
                let pn = parse_num(buf, s + 1, hi);
                lemma_find_in_props(buf, NL, pn.next, hi);
            },
        }
    }
}

/// Position right after the record scanned at `i`; mirrors one step of
/// `scan_obs`.
pub open spec fn scan_next(buf: Seq<u8>, i: int, hi: int) -> int {
    match find_in(buf, SEMI, i, hi) {
        None => hi,
        Some(s) => {
            let pn = parse_num(buf, s + 1, hi);
            match find_in(buf, NL, pn.next, hi) {
                Some(nl) => nl + 1,
                None => hi,
            }
        },
    }
}

/// Each scanned record advances the position by at least one byte, and by at
/// least two when it yields an observation.
pub proof fn lemma_scan_step(buf: Seq<u8>, i: int, hi: int)
    requires
        0 <= i < hi <= buf.len(),
        find_in(buf, SEMI, i, hi) is Some,
    ensures
        i < scan_next(buf, i, hi) <= hi,
        (match find_in(buf, SEMI, i, hi) {
            Some(s) => parse_num(buf, s + 1, hi).value is Some ==> i + 2 <= scan_next(buf, i, hi),
            None => true,
        }),
        (match find_in(buf, SEMI, i, hi) {
            Some(s) => scan_obs(buf, i, hi) == (match parse_num(buf, s + 1, hi).value {
                Some(v) => seq![Obs { key: buf.subrange(i, s), tenths: v }] + scan_obs(
                    buf,
                    scan_next(buf, i, hi),
                    hi,
                ),
                None => scan_obs(buf, scan_next(buf, i, hi), hi),
            }),
            None => true,
        }),
{
    let s = find_in(buf, SEMI, i, hi)->Some_0;
    lemma_find_in_props(buf, SEMI, i, hi);
    lemma_parse_num_bounds(buf, s + 1, hi);
    let pn = parse_num(buf, s + 1, hi);
    lemma_find_in_props(buf, NL, pn.next, hi);
    if pn.value is Some {
        let q = if s + 1 < hi && (buf[s + 1] == MINUS || buf[s + 1] == PLUS) {
            s + 2
        } else {
            s + 1
        };
        lemma_digit_run_end_bounds(buf, q, hi);
        assert(pn.next > s + 1);
    }
}

/// Twice the number of observations never exceeds the width of the window:
/// every observed record spends at least one byte on its delimiter and one on
/// its first value digit.
pub proof fn lemma_scan_obs_len(buf: Seq<u8>, i: int, hi: int)
    requires
        0 <= i <= hi <= buf.len(),
    ensures
        2 * scan_obs(buf, i, hi).len() <= hi - i,
    decreases hi - i,
{
    if i < hi {
        match find_in(buf, SEMI, i, hi) {
            None => {},
            Some(s) => {
                lemma_scan_step(buf, i, hi);
                lemma_scan_obs_len(buf, scan_next(buf, i, hi), hi);
            },
        }
    }
}

/// Value text never runs past a terminator, so parsing it inside any window
/// that still holds that terminator gives the same result.
pub proof fn lemma_parse_num_window(buf: Seq<u8>, p: int, nl: int, m: int, h: int)
    requires
        0 <= p <= nl < m <= h <= buf.len(),
        buf[nl] == NL,
    ensures
        parse_num(buf, p, m) == parse_num(buf, p, h),
        parse_num(buf, p, m).next <= nl,
{
    let q = if p < m && (buf[p] == MINUS || buf[p] == PLUS) {
        p + 1
    } else {
        p
    };
    assert(q <= nl);
    lemma_digit_run_end_le(buf, q, m, nl);
    lemma_digit_run_end_window(buf, q, m, h);
    let e = digit_run_end(buf, q, m);
    assert(e <= nl);
    assert(parse_num(buf, p, m) =~= parse_num(buf, p, h));
}

/// `i` begins a record: it is the start of the buffer or sits right after a
/// terminator.
pub open spec fn line_start(buf: Seq<u8>, i: int) -> bool {
    i == 0 || buf[i - 1] == NL
}

/// The line that starts at `i` holds a delimiter before its terminator (or
/// before the end of the buffer if it is unterminated).
pub open spec fn has_delim_in_line(buf: Seq<u8>, i: int) -> bool {
    match (find_in(buf, SEMI, i, buf.len() as int), find_in(buf, NL, i, buf.len() as int)) {
        (Some(s), Some(nl)) => s < nl,
        (Some(s), None) => true,
        _ => false,
    }
}

/// Every line of the buffer holds a delimiter. On such buffers a scan never
/// reads across a record boundary, so record-aligned windows can be scanned
/// independently.
pub open spec fn chunkable(buf: Seq<u8>) -> bool {
    forall|i: int| 0 <= i < buf.len() && #[trigger] line_start(buf, i) ==> has_delim_in_line(buf, i)
}

/// Scanning a window equals scanning its two halves when the cut sits on a
/// record boundary: no observation is lost, duplicated or changed by the
/// split.
pub proof fn lemma_scan_split(buf: Seq<u8>, lo: int, mid: int, hi: int)
    requires
        0 <= lo <= mid <= hi <= buf.len(),
        line_start(buf, lo),
        mid == hi || (0 < mid && buf[mid - 1] == NL),
        chunkable(buf),
    ensures
        scan_obs(buf, lo, hi) == scan_obs(buf, lo, mid) + scan_obs(buf, mid, hi),
    decreases mid - lo,
{
    let n = buf.len() as int;
    if mid == hi {
        assert(scan_obs(buf, lo, hi) =~= scan_obs(buf, lo, mid) + scan_obs(buf, mid, hi));
    } else if lo == mid {
        assert(scan_obs(buf, lo, hi) =~= scan_obs(buf, lo, mid) + scan_obs(buf, mid, hi));
    } else {
        assert(buf[mid - 1] == NL);
        assert(has_delim_in_line(buf, lo));
        lemma_find_in_props(buf, NL, lo, n);
        let nlg = find_in(buf, NL, lo, n)->Some_0;
        assert(find_in(buf, NL, lo, n) is Some && nlg <= mid - 1) by {
            match find_in(buf, NL, lo, n) {
                Some(p) => {
                    if p > mid - 1 {
                        assert(buf[mid - 1] != NL);
                    }
                },
                None => {
                    assert(buf[mid - 1] != NL);
                },
            }
        }
        let sg = find_in(buf, SEMI, lo, n)->Some_0;
        lemma_find_in_props(buf, SEMI, lo, n);
        assert(sg < nlg);
        lemma_find_in_restrict(buf, SEMI, lo, mid, n);
        lemma_find_in_restrict(buf, SEMI, lo, hi, n);
        assert(find_in(buf, SEMI, lo, mid) == Some(sg));
        assert(find_in(buf, SEMI, lo, hi) == Some(sg));
        lemma_parse_num_window(buf, sg + 1, nlg, mid, hi);
        lemma_parse_num_bounds(buf, sg + 1, mid);
        let pn = parse_num(buf, sg + 1, mid);
        assert(forall|j: int| pn.next <= j < nlg ==> buf[j] != NL);
        lemma_find_in_some(buf, NL, pn.next, mid, nlg);
        lemma_find_in_some(buf, NL, pn.next, hi, nlg);
        let next = nlg + 1;
        lemma_scan_step(buf, lo, mid);
        lemma_scan_step(buf, lo, hi);
        assert(scan_next(buf, lo, mid) == next);
        assert(scan_next(buf, lo, hi) == next);
        assert(line_start(buf, next));
        lemma_scan_split(buf, next, mid, hi);
        match pn.value {
            Some(v) => {
                let head = seq![Obs { key: buf.subrange(lo, sg), tenths: v }];
                assert(scan_obs(buf, lo, hi) == head + (scan_obs(buf, next, mid) + scan_obs(
                    buf,
                    mid,
                    hi,
                )));
                assert(head + (scan_obs(buf, next, mid) + scan_obs(buf, mid, hi)) =~= (head
                    + scan_obs(buf, next, mid)) + scan_obs(buf, mid, hi));
            },
            None => {},
        }
    }
}

} // verus!
