use vstd::prelude::*;
use crate::bytes::{find_byte, lemma_find_in_props};
use crate::scan::{line_start, NL};

verus! {

/// Partition `data` into `workers` consecutive ranges, every boundary moved
/// forward to the position right after the next record terminator, so that no
/// range ever begins or ends inside a record. The last range absorbs any
/// remainder; ranges may be empty when the buffer is short or a record is
/// long.
pub fn split(data: &[u8], workers: usize) -> (r: Vec<(usize, usize)>)
    requires
        1 <= workers,
    ensures
        r@.len() == workers as int,
        (forall|k: int| 0 <= k < workers ==> (#[trigger] r@[k]).0 <= r@[k].1 <= data@.len()),
        r@[0].0 == 0,
        r@[workers as int - 1].1 == data@.len(),
        (forall|k: int| 0 <= k < workers - 1 ==> (#[trigger] r@[k]).1 == r@[k + 1].0),
        (forall|k: int|
            0 <= k < workers ==> (#[trigger] r@[k]).0 == data@.len() || line_start(
                data@,
                r@[k].0 as int,
            )),
        (forall|k: int|
            0 <= k < workers ==> (#[trigger] r@[k]).1 == data@.len() || line_start(
                data@,
                r@[k].1 as int,
            )),
{
    let n = data.len();
    let chunk: usize = if n / workers >= 1 {
        n / workers
    } else {
        1
    };
    proof {
        assert(workers * chunk <= n || chunk == 1) by (nonlinear_arith)
            requires
                workers >= 1,
                chunk == if n / workers >= 1 {
                    n / workers
                } else {
                    1
                },
        ;
    }
    let mut r: Vec<(usize, usize)> = Vec::new();
    let mut start: usize = 0;
    let mut i: usize = 0;
    while i < workers
        invariant
            i <= workers,
            r@.len() == i as int,
            start <= n == data@.len(),
            start == n || line_start(data@, start as int),
            i == 0 ==> start == 0,
            workers * chunk <= n || chunk == 1,
            i > 0 ==> r@[i as int - 1].1 == start,
            i == workers ==> start == n,
            (forall|k: int| 0 <= k < i ==> (#[trigger] r@[k]).0 <= r@[k].1 <= n),
            i > 0 ==> r@[0].0 == 0,
            (forall|k: int| 0 <= k < i as int - 1 ==> (#[trigger] r@[k]).1 == r@[k + 1].0),
            (forall|k: int|
                0 <= k < i ==> (#[trigger] r@[k]).0 == n || line_start(data@, r@[k].0 as int)),
            (forall|k: int|
                0 <= k < i ==> (#[trigger] r@[k]).1 == n || line_start(data@, r@[k].1 as int)),
        decreases workers - i,
    {
        let end: usize = if i == workers - 1 {
            n
        } else {
            proof {
                assert((i + 1) * chunk <= workers * chunk) by (nonlinear_arith)
                    requires
                        0 <= i as int + 1 <= workers,
                        chunk >= 0,
                ;
            }
            let naive = if (i + 1) * chunk >= n {
                n
            } else {
                (i + 1) * chunk
            };
            if naive >= n {
                n
            } else {
                match find_byte(data, NL, naive, n) {
                    Some(nl) => {
                        proof {
                            lemma_find_in_props(data@, NL, naive as int, n as int);
                        }
                        nl + 1
                    },
                    None => n,
                }
            }
        };
        let bounded: usize = if end < start {
            start
        } else {
            end
        };
        r.push((start, bounded));
        start = bounded;
        i = i + 1;
    }
    r
}

} // verus!
