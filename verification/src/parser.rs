use vstd::prelude::*;
use crate::scan::{
    parse_num, digit_run_end, digits_value, digit_val, is_digit, lemma_digit_run_end_bounds, MINUS,
    PLUS, DOT, MAX_TENTHS,
};

verus! {

/// Appending one digit multiplies the run's value by ten and adds the digit.
proof fn lemma_digits_value_snoc(buf: Seq<u8>, q: int, i: int)
    requires
        0 <= q <= i < buf.len(),
    ensures
        digits_value(buf.subrange(q, i + 1)) == digits_value(buf.subrange(q, i)) * 10 + digit_val(
            buf[i],
        ),
{
    let s = buf.subrange(q, i + 1);
    assert(s.drop_last() =~= buf.subrange(q, i));
    assert(s.last() == buf[i]);
}

/// A digit run's value never shrinks as the run grows.
proof fn lemma_digits_value_grow(buf: Seq<u8>, q: int, i: int)
    requires
        0 <= q <= i < buf.len(),
        digit_val(buf[i]) >= 0,
        digits_value(buf.subrange(q, i)) >= 0,
    ensures
        digits_value(buf.subrange(q, i + 1)) >= digits_value(buf.subrange(q, i)),
{
    lemma_digits_value_snoc(buf, q, i);
    let v = digits_value(buf.subrange(q, i));
    assert(v * 10 + digit_val(buf[i]) >= v);
}

/// Parse the value text in `buf[p..hi]`: the value in tenths if it is well
/// formed and within range, and the position right after the consumed text.
/// Mirrors `parse_num` exactly, so malformed or oversized values are rejected
/// deterministically and never panic.
pub fn parse_number(buf: &[u8], p: usize, hi: usize) -> (r: (Option<i32>, usize))
    requires
        p <= hi <= buf@.len(),
    ensures
        ({
            let pn = parse_num(buf@, p as int, hi as int);
            &&& r.1 == pn.next
            &&& (match r.0 {
                Some(v) => pn.value == Some(v as int),
                None => pn.value is None,
            })
        }),
{
    let ghost pn = parse_num(buf@, p as int, hi as int);
    let mut i = p;
    let mut neg = false;
    if i < hi {
        let c = buf[i];
        if c == MINUS {
            neg = true;
            i = i + 1;
        } else if c == PLUS {
            i = i + 1;
        }
    }
    let digits_start = i;
    let ghost q = i as int;
    proof {
        lemma_digit_run_end_bounds(buf@, q, hi as int);
    }
    let ghost e = digit_run_end(buf@, q, hi as int);
    let mut iv: i64 = 0;
    let mut over = false;
    while i < hi && buf[i] >= 48 && buf[i] <= 57
        invariant
            p <= q <= i <= hi <= buf@.len(),
            e == digit_run_end(buf@, q, hi as int),
            digit_run_end(buf@, i as int, hi as int) == e,
            forall|j: int| q <= j < i ==> is_digit(buf@[j]),
            !over ==> 0 <= iv <= MAX_TENTHS && iv == digits_value(buf@.subrange(q, i as int)),
            over ==> digits_value(buf@.subrange(q, i as int)) > MAX_TENTHS,
        decreases hi - i,
    {
        let d = (buf[i] - 48) as i64;
        proof {
            lemma_digits_value_snoc(buf@, q, i as int);
        }
        if !over {
            let next_iv = iv * 10 + d;
            if next_iv > MAX_TENTHS {
                over = true;
            } else {
                iv = next_iv;
            }
        } else {
            proof {
                let v = digits_value(buf@.subrange(q, i as int));
                assert(v * 10 + digit_val(buf@[i as int]) > MAX_TENTHS) by (nonlinear_arith)
                    requires
                        v > MAX_TENTHS,
                        digit_val(buf@[i as int]) >= 0,
                ;
            }
        }
        i = i + 1;
    }
    proof {
        assert(i == e);
    }
    let digits_end = i;
    let mut dec: i64 = 0;
    if i < hi && buf[i] == DOT {
        i = i + 1;
        if i < hi && buf[i] >= 48 && buf[i] <= 57 {
            dec = (buf[i] - 48) as i64;
            i = i + 1;
        }
    }
    proof {
        assert(i as int == pn.next);
    }
    if over {
        proof {
            let v = digits_value(buf@.subrange(q, e));
            assert(v * 10 + dec > MAX_TENTHS) by (nonlinear_arith)
                requires
                    v > MAX_TENTHS,
                    dec >= 0,
            ;
        }
        return (None, i);
    }
    let total = iv * 10 + dec;
    if digits_end == digits_start || total > MAX_TENTHS {
        return (None, i);
    }
    let v32 = if neg {
        (-total) as i32
    } else {
        total as i32
    };
    (Some(v32), i)
}

} // verus!
