//! Choosing the time slices of a contact sheet: for each multiple of the sampling interval, the
//! slice nearest to it.
use vstd::prelude::*;

verus! {

/// `t / e` rounded to the nearest integer, halves away from zero (`e > 0`).
pub open spec fn round_div(t: int, e: int) -> int {
    if t >= 0 {
        (2 * t + e) / (2 * e)
    } else {
        -((-2 * t + e) / (2 * e))
    }
}

/// The multiple of the interval nearest to time `t` (halves away from zero). A zero interval
/// has only the mark 0.
pub open spec fn mark(t: int, every: int) -> int {
    if every == 0 {
        0
    } else {
        let e = if every < 0 {
            -every
        } else {
            every
        };
        round_div(t, e) * e
    }
}

pub open spec fn abs(x: int) -> int {
    if x < 0 {
        -x
    } else {
        x
    }
}

/// How far a slice may lie from its mark: a quarter interval, at least one.
pub open spec fn tolerance(every: int) -> int {
    let q = if every >= 0 {
        every / 4
    } else {
        -((-every) / 4)
    };
    if q < 1 {
        1
    } else {
        q
    }
}

/// Slice `i` lies within the tolerance of its mark.
pub open spec fn eligible(times: Seq<i64>, every: int, i: int) -> bool {
    abs(times[i] - mark(times[i] as int, every)) <= tolerance(every)
}

/// Slice `i` is kept: it is eligible, and no eligible slice of the same mark is nearer to it,
/// nor equally near and earlier.
pub open spec fn kept(times: Seq<i64>, every: int, i: int) -> bool {
    &&& eligible(times, every, i)
    &&& forall|j: int|
        0 <= j < times.len() && #[trigger] eligible(times, every, j) && mark(times[j] as int, every)
            == mark(times[i] as int, every) ==> {
            let di = abs(times[i] - mark(times[i] as int, every));
            let dj = abs(times[j] - mark(times[j] as int, every));
            di < dj || (di == dj && i <= j)
        }
}

/// Times small enough that the rounding of `t / every` is exact in double precision.
pub open spec fn times_ok(times: Seq<i64>, every: int) -> bool {
    &&& -0x10_0000_0000_0000 < every < 0x10_0000_0000_0000
    &&& forall|i: int| 0 <= i < times.len() ==> -0x10_0000_0000_0000 < #[trigger] times[i] < 0x10_0000_0000_0000
}

proof fn lemma_round_div(t: int, e: int)
    requires
        e > 0,
    ensures
        -e <= 2 * (t - round_div(t, e) * e) <= e,
{
    if t >= 0 {
        let q = (2 * t + e) / (2 * e);
        vstd::arithmetic::div_mod::lemma_fundamental_div_mod(2 * t + e, 2 * e);
        let r = (2 * t + e) % (2 * e);
        assert(2 * t + e == 2 * e * q + r);
        assert(0 <= r < 2 * e);
        assert(2 * e * q == 2 * (q * e)) by (nonlinear_arith);
    } else {
        let q = (-2 * t + e) / (2 * e);
        vstd::arithmetic::div_mod::lemma_fundamental_div_mod(-2 * t + e, 2 * e);
        let r = (-2 * t + e) % (2 * e);
        assert(-2 * t + e == 2 * e * q + r);
        assert(0 <= r < 2 * e);
        assert(2 * e * q == 2 * (q * e)) by (nonlinear_arith);
        assert(round_div(t, e) * e == -(q * e)) by (nonlinear_arith)
            requires
                round_div(t, e) == -q,
        ;
    }
}

/// The mark of a time is the multiple of the interval nearest to it: it is a whole number of
/// intervals, and no multiple of the interval lies closer to the time.
pub proof fn lemma_mark_is_nearest_multiple(t: int, every: int, k: int)
    requires
        every != 0,
    ensures
        mark(t, every) % abs(every) == 0,
        abs(t - mark(t, every)) <= abs(t - k * every),
        2 * abs(t - mark(t, every)) <= abs(every),
{
    let e = abs(every);
    let q = round_div(t, e);
    lemma_round_div(t, e);
    assert(mark(t, every) == q * e);
    vstd::arithmetic::div_mod::lemma_mod_multiples_basic(q, e);
    let d = t - q * e;
    // k * every is a multiple of e as well: j * e
    let j = if every < 0 { -k } else { k };
    assert(k * every == j * e) by (nonlinear_arith)
        requires
            e == abs(every),
            j == (if every < 0 { -k } else { k }),
    ;
    let diff = (q - j) * e;
    assert(t - j * e == d + diff) by (nonlinear_arith)
        requires
            d == t - q * e,
            diff == (q - j) * e,
    ;
    if q != j {
        assert(abs(diff) >= e) by (nonlinear_arith)
            requires
                diff == (q - j) * e,
                q != j,
                e > 0,
        ;
    } else {
        assert(diff == 0) by (nonlinear_arith)
            requires
                diff == (q - j) * e,
                q == j,
        ;
    }
}

/// Mark of one time.
pub fn mark_of(t: i64, every: i64) -> (m: i64)
    requires
        -0x10_0000_0000_0000 < every < 0x10_0000_0000_0000,
        -0x10_0000_0000_0000 < t < 0x10_0000_0000_0000,
    ensures
        m == mark(t as int, every as int),
        abs(m as int) <= abs(t as int) + abs(every as int),
{
    if every == 0 {
        return 0;
    }
    let e: i64 = if every < 0 {
        -every
    } else {
        every
    };
    if t >= 0 {
        let k = (2 * t + e) / (2 * e);
        proof {
            let q = (2 * t + e) / (2 * e);
            let r = (2 * t + e) % (2 * e);
            vstd::arithmetic::div_mod::lemma_fundamental_div_mod(2 * t + e, 2 * e);
            assert(0 <= k * e <= t + e) by (nonlinear_arith)
                requires
                    2 * t + e == (2 * e) * k + r,
                    0 <= r < 2 * e,
                    e > 0,
                    t >= 0,
            ;
            assert(t - e <= k * e) by (nonlinear_arith)
                requires
                    2 * t + e == (2 * e) * k + r,
                    0 <= r < 2 * e,
                    e > 0,
            ;
            assert(k == round_div(t as int, e as int));
        }
        k * e
    } else {
        let k = (-2 * t + e) / (2 * e);
        proof {
            let r = (-2 * t + e) % (2 * e);
            vstd::arithmetic::div_mod::lemma_fundamental_div_mod(-2 * t + e, 2 * e);
            assert(0 <= k * e <= -t + e) by (nonlinear_arith)
                requires
                    -2 * t + e == (2 * e) * k + r,
                    0 <= r < 2 * e,
                    e > 0,
                    t < 0,
            ;
            assert(-t - e <= k * e) by (nonlinear_arith)
                requires
                    -2 * t + e == (2 * e) * k + r,
                    0 <= r < 2 * e,
                    e > 0,
            ;
            assert(-k == round_div(t as int, e as int));
            assert(-(k * e) == (-k) * e) by (nonlinear_arith);
        }
        -(k * e)
    }
}

/// Indices of the slices to lay out, in increasing order; `times` are the slice times in the
/// order the slices are listed (sorted, so that marks come in increasing order).
pub fn pick_slices(times: &Vec<i64>, every: i64) -> (picked: Vec<usize>)
    requires
        times_ok(times@, every as int),
    ensures
        forall|a: int, b: int| 0 <= a < b < picked@.len() ==> picked@[a] < picked@[b],
        forall|i: int| 0 <= i < picked@.len() ==> #[trigger] picked@[i] < times@.len(),
        forall|i: usize| #[trigger] picked@.contains(i) <==> (i < times@.len() && kept(times@, every as int, i as int)),
{
    let n = times.len();
    let tol: i64 = if every >= 0 {
        if every / 4 < 1 {
            1
        } else {
            every / 4
        }
    } else {
        1
    };
    proof {
        assert(tol == tolerance(every as int));
    }
    let mut marks: Vec<i64> = Vec::with_capacity(n);
    let mut dists: Vec<i64> = Vec::with_capacity(n);
    let mut k: usize = 0;
    while k < n
        invariant
            n == times@.len(),
            times_ok(times@, every as int),
            k <= n,
            marks@.len() == k,
            dists@.len() == k,
            forall|j: int| 0 <= j < k ==> #[trigger] marks@[j] == mark(times@[j] as int, every as int),
            forall|j: int| 0 <= j < k ==> #[trigger] dists@[j] == abs(times@[j] - mark(times@[j] as int, every as int)),
        decreases n - k,
    {
        let t = times[k];
        let m = mark_of(t, every);
        let d = if t >= m {
            t - m
        } else {
            m - t
        };
        marks.push(m);
        dists.push(d);
        k = k + 1;
    }
    let mut picked: Vec<usize> = Vec::new();
    let mut i: usize = 0;
    while i < n
        invariant
            n == times@.len(),
            i <= n,
            tol == tolerance(every as int),
            marks@.len() == n,
            dists@.len() == n,
            forall|j: int| 0 <= j < n ==> #[trigger] marks@[j] == mark(times@[j] as int, every as int),
            forall|j: int| 0 <= j < n ==> #[trigger] dists@[j] == abs(times@[j] - mark(times@[j] as int, every as int)),
            forall|a: int, b: int| 0 <= a < b < picked@.len() ==> picked@[a] < picked@[b],
            forall|a: int| 0 <= a < picked@.len() ==> #[trigger] picked@[a] < i,
            forall|c: usize| #[trigger] picked@.contains(c) <==> (c < i && kept(times@, every as int, c as int)),
        decreases n - i,
    {
        let mut keep = dists[i] <= tol;
        let mut j: usize = 0;
        while j < n && keep
            invariant
                n == times@.len(),
                i < n,
                j <= n,
                tol == tolerance(every as int),
                marks@.len() == n,
                dists@.len() == n,
                forall|q: int| 0 <= q < n ==> #[trigger] marks@[q] == mark(times@[q] as int, every as int),
                forall|q: int| 0 <= q < n ==> #[trigger] dists@[q] == abs(times@[q] - mark(times@[q] as int, every as int)),
                keep ==> eligible(times@, every as int, i as int),
                keep ==> forall|q: int|
                    0 <= q < j && #[trigger] eligible(times@, every as int, q) && mark(times@[q] as int, every as int)
                        == mark(times@[i as int] as int, every as int) ==> {
                        let di = abs(times@[i as int] - mark(times@[i as int] as int, every as int));
                        let dq = abs(times@[q] - mark(times@[q] as int, every as int));
                        di < dq || (di == dq && i <= q)
                    },
                !keep ==> !kept(times@, every as int, i as int),
            decreases n - j,
        {
            if dists[j] <= tol && marks[j] == marks[i] {
                if dists[j] < dists[i] || (dists[j] == dists[i] && j < i) {
                    keep = false;
                    proof {
                        assert(eligible(times@, every as int, j as int));
                    }
                }
            }
            j = j + 1;
        }
        if keep {
            let ghost before = picked@;
            picked.push(i);
            proof {
                assert forall|c: usize| #[trigger] picked@.contains(c) <==> (c < i + 1 && kept(times@, every as int, c as int)) by {
                    if c == i {
                        assert(picked@[picked@.len() - 1] == c);
                    } else if picked@.contains(c) {
                        let p = choose|p: int| 0 <= p < picked@.len() && picked@[p] == c;
                        assert(before[p] == c);
                        assert(before.contains(c));
                    } else if before.contains(c) {
                        let p = choose|p: int| 0 <= p < before.len() && before[p] == c;
                        assert(picked@[p] == c);
                    }
                }
            }
        } else {
            proof {
                assert forall|c: usize| #[trigger] picked@.contains(c) <==> (c < i + 1 && kept(times@, every as int, c as int)) by {
                    if picked@.contains(c) {
                        let p = choose|p: int| 0 <= p < picked@.len() && picked@[p] == c;
                        assert(picked@[p] < i);
                    }
                }
            }
        }
        i = i + 1;
    }
    picked
}

} // verus!
