//! What a lossy ring remembers: the newest values, oldest first.

use vstd::arithmetic::div_mod::lemma_fundamental_div_mod;
use vstd::arithmetic::div_mod::lemma_fundamental_div_mod_converse;
use vstd::arithmetic::div_mod::lemma_mod_bound;
use vstd::prelude::*;

verus! {

/// The last `n` items of `s`, or all of `s` where it has no more than `n`.
pub open spec fn keep_last<T>(s: Seq<T>, n: nat) -> Seq<T> {
    if s.len() <= n {
        s
    } else {
        s.subrange(s.len() - n, s.len() as int)
    }
}

/// Trimming before a write changes nothing that trimming after it would keep.
pub proof fn lemma_keep_last_push<T>(s: Seq<T>, v: T, n: nat)
    ensures
        keep_last(keep_last(s, n).push(v), n) == keep_last(s.push(v), n),
{
    assert(keep_last(keep_last(s, n).push(v), n) =~= keep_last(s.push(v), n));
}

/// Writes in a row. Where each of `windows` follows from the one before by
/// one write of the matching item of `values` (append, and evict the oldest
/// where more than `n` would be held), the last of them holds at most `n`
/// items: the newest of what the first held and what was written, in the order
/// of writing. Once at least `n` values were written, these are exactly the
/// last `n` written, and nothing of what the first held is left.
pub proof fn lemma_writes_keep_newest<T>(windows: Seq<Seq<T>>, values: Seq<T>, n: nat)
    requires
        windows.len() == values.len() + 1,
        windows[0].len() <= n,
        forall|k: int|
            0 <= k < values.len() ==> #[trigger] windows[k + 1] == keep_last(
                windows[k].push(values[k]),
                n,
            ),
    ensures
        windows.last() == keep_last(windows[0] + values, n),
        windows.last().len() <= n,
        values.len() >= n ==> windows.last() == values.subrange(
            values.len() - n,
            values.len() as int,
        ),
    decreases values.len(),
{
    if values.len() == 0 {
        assert(windows[0] + values =~= windows[0]);
        if values.len() >= n {
            assert(values.subrange(values.len() - n, values.len() as int) =~= windows[0]);
        }
    } else {
        let k = values.len() - 1;
        let front = values.drop_last();
        let earlier = windows.drop_last();
        assert forall|i: int| 0 <= i < front.len() implies #[trigger] earlier[i + 1] == keep_last(
            earlier[i].push(front[i]),
            n,
        ) by {
            assert(earlier[i + 1] == windows[i + 1]);
        }
        lemma_writes_keep_newest(earlier, front, n);
        assert(windows[k + 1] == keep_last(windows[k].push(values[k]), n));
        assert(earlier.last() == windows[k]);
        lemma_keep_last_push(windows[0] + front, values.last(), n);
        assert((windows[0] + front).push(values.last()) =~= windows[0] + values);
        if values.len() >= n {
            assert(keep_last(windows[0] + values, n) =~= values.subrange(
                values.len() - n,
                values.len() as int,
            ));
        }
    }
}

/// The residue of a successor: one more, or back to zero at the end of the ring.
pub proof fn lemma_mod_succ(k: int, n: int)
    requires
        k >= 0,
        n >= 1,
    ensures
        0 <= k % n < n,
        (k + 1) % n == (if k % n + 1 == n {
            0
        } else {
            k % n + 1
        }),
{
    lemma_fundamental_div_mod(k, n);
    lemma_mod_bound(k, n);
    let q = k / n;
    let r = k % n;
    if r + 1 == n {
        assert(k + 1 == (q + 1) * n + 0) by (nonlinear_arith)
            requires
                k == n * q + r,
                r + 1 == n,
        ;
        lemma_fundamental_div_mod_converse(k + 1, n, q + 1, 0);
    } else {
        assert(k + 1 == q * n + (r + 1)) by (nonlinear_arith)
            requires
                k == n * q + r,
        ;
        lemma_fundamental_div_mod_converse(k + 1, n, q, r + 1);
    }
}

/// Two integers less than `n` apart fall on different positions of a ring of
/// `n` slots.
pub proof fn lemma_mod_distinct(a: int, b: int, n: int)
    requires
        n >= 1,
        0 < b - a < n,
    ensures
        a % n != b % n,
{
    lemma_fundamental_div_mod(a, n);
    lemma_fundamental_div_mod(b, n);
    let d = b / n - a / n;
    if a % n == b % n {
        assert(false) by (nonlinear_arith)
            requires
                n >= 1,
                0 < b - a < n,
                a == n * (a / n) + (a % n),
                b == n * (b / n) + (b % n),
                a % n == b % n,
        ;
    }
}

/// Counting back from `x` by the residue of `x - y` lands on `y`'s position:
/// on a ring, "how far back" and "which position" undo each other.
pub proof fn lemma_mod_mirror(x: int, y: int, n: int)
    requires
        n >= 1,
        0 <= y < n,
    ensures
        0 <= (x - y) % n < n,
        (x - ((x - y) % n)) % n == y,
{
    lemma_fundamental_div_mod(x - y, n);
    lemma_mod_bound(x - y, n);
    let q = (x - y) / n;
    let r = (x - y) % n;
    assert(x - r == q * n + y) by (nonlinear_arith)
        requires
            x - y == n * q + r,
    ;
    lemma_fundamental_div_mod_converse(x - r, n, q, y);
}

/// Going once round a ring of `n` slots comes back to the same position.
pub proof fn lemma_mod_round(k: int, n: int)
    requires
        n >= 1,
        k >= n,
    ensures
        (k - n) % n == k % n,
{
    lemma_fundamental_div_mod(k, n);
    lemma_mod_bound(k, n);
    let q = k / n;
    let r = k % n;
    assert(k - n == (q - 1) * n + r) by (nonlinear_arith)
        requires
            k == n * q + r,
    ;
    lemma_fundamental_div_mod_converse(k - n, n, q - 1, r);
}

} // verus!
