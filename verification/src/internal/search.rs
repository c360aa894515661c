//! Averaging without overflow, and binary search over a monotone function.

use vstd::prelude::*;

verus! {

/// Averages two integers without overflowing: their mean, rounded down.
pub fn average(x: u64, y: u64) -> (r: u64)
    ensures
        r == (x + y) / 2,
{
    proof {
        assert(x >> 1 == x / 2 && y >> 1 == y / 2 && x & 1 == x % 2 && y & 1 == y % 2)
            by (bit_vector);
    }
    let almost_average = (x >> 1) + (y >> 1);
    let low_bits: u64 = (x & 1) + (y & 1);
    let extra_bit = low_bits >> 1;
    proof {
        assert(low_bits >> 1 == low_bits / 2) by (bit_vector);
        assert(x / 2 + y / 2 + (x % 2 + y % 2) / 2 == (x + y) / 2) by (nonlinear_arith);
    }
    almost_average + extra_bit
}

/// Finds the smallest `d` in `start .. limit` such that `f(d) >= value`, where `f` is
/// monotonically non-decreasing over that interval; `None` where there is none.
///
/// Calls `f` only inside the interval. What it reports rests on the values that it saw: at
/// the answer `d`, `f(d) >= value`, and below it (where `d > start`) `f(d - 1) < value`; with
/// no answer, `f(limit - 1) < value`.
pub fn binary_search_function<F: Fn(u64) -> u64>(start: u64, limit: u64, value: u64, f: F) -> (r:
    Option<u64>)
    requires
        forall|d: u64| start <= d < limit ==> call_requires(f, (d,)),
        forall|d1: u64, d2: u64, r1: u64, r2: u64|
            #![trigger call_ensures(f, (d1,), r1), call_ensures(f, (d2,), r2)]
            start <= d1 <= d2 < limit && call_ensures(f, (d1,), r1) && call_ensures(f, (d2,), r2)
                ==> r1 <= r2,
    ensures
        match r {
            Some(d) => {
                &&& start <= d < limit
                &&& exists|x: u64| #[trigger] call_ensures(f, (d,), x) && value <= x
                &&& start < d ==> exists|x: u64|
                    #[trigger] call_ensures(f, ((d - 1) as u64,), x) && x < value
            },
            None => start < limit ==> exists|x: u64|
                #[trigger] call_ensures(f, ((limit - 1) as u64,), x) && x < value,
        },
{
    if start >= limit {
        return None;
    }
    let first = f(start);
    if first >= value {
        return Some(start);
    }
    // The answer is not `start`, so for every candidate `mid`, `mid - 1` is in the domain.
    let mut lo = start + 1;
    let mut hi = limit;
    let ghost mut lo_val: u64 = first;
    let ghost mut hi_val: u64 = 0;
    while lo < hi
        invariant
            start < lo <= hi <= limit,
            forall|d: u64| start <= d < limit ==> call_requires(f, (d,)),
            forall|d1: u64, d2: u64, r1: u64, r2: u64|
                #![trigger call_ensures(f, (d1,), r1), call_ensures(f, (d2,), r2)]
                start <= d1 <= d2 < limit && call_ensures(f, (d1,), r1) && call_ensures(
                    f,
                    (d2,),
                    r2,
                ) ==> r1 <= r2,
            call_ensures(f, ((lo - 1) as u64,), lo_val),
            lo_val < value,
            hi < limit ==> lo < hi && call_ensures(f, ((hi - 1) as u64,), hi_val) && value
                <= hi_val,
        decreases hi - lo,
    {
        let mid = average(lo, hi);
        let fm = f(mid);
        if fm >= value {
            let fp = f(mid - 1);
            if fp < value {
                proof {
                    assert(call_ensures(f, (mid,), fm));
                    assert(call_ensures(f, ((mid - 1) as u64,), fp));
                    assert(start <= mid < limit);
                    assert(exists|x: u64| #[trigger] call_ensures(f, (mid,), x) && value <= x);
                    assert(start < mid ==> exists|x: u64|
                        #[trigger] call_ensures(f, ((mid - 1) as u64,), x) && x < value);
                }
                return Some(mid);
            } else {
                proof {
                    if mid == lo {
                        assert(fp <= lo_val);
                    }
                    hi_val = fp;
                }
                hi = mid;
            }
        } else {
            proof {
                lo_val = fm;
            }
            lo = mid + 1;
        }
    }
    proof {
        assert(call_ensures(f, ((limit - 1) as u64,), lo_val));
    }
    None
}

} // verus!
