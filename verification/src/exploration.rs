//! What an exploration yields, as mathematics: the test vectors that the
//! replays of a body give rise to, in the order in which the assignments are
//! tried, and what holds of them.
//!
//! A run that completes is told from another by its path. A run that ends in
//! a fault is told from another by the site of the fault alone, so that a
//! fault is reported once for each site, by the first run that reaches it;
//! later runs that reach the same site by other paths add no vector.

use vstd::prelude::*;
use crate::body::{lemma_replayed_frame, replayed, same_locks, Outcome, Stmt};
use crate::model::State;

verus! {

/// A test vector as a mathematical value: the values of the resources
/// before the run, the way the run takes at each branch, and how it ends.
pub struct Vector {
    pub path: Seq<bool>,
    pub values: Seq<u64>,
    pub outcome: Outcome,
}

/// The test vector of the replay with `values`.
pub open spec fn vector_of(s: State, task: usize, block: Seq<Stmt>, values: Seq<u64>) -> Vector {
    Vector {
        path: replayed(s, task, block, values).path,
        values,
        outcome: replayed(s, task, block, values).outcome(),
    }
}

/// Whether the vector is true of the body: its values are admissible, and
/// the replay with them takes the vector's path to the vector's outcome.
pub open spec fn reproduces(s: State, task: usize, block: Seq<Stmt>, v: Vector) -> bool {
    s.admits(v.values) && v == vector_of(s, task, block, v.values)
}

/// Whether the vector stands for a run of the given path and outcome.
pub open spec fn reports(v: Vector, path: Seq<bool>, outcome: Outcome) -> bool {
    match outcome {
        Outcome::Completed => v.outcome == Outcome::Completed && v.path == path,
        Outcome::Fault { site } => v.outcome == (Outcome::Fault { site }),
    }
}

/// Whether one of the first `n` vectors stands for the run.
pub open spec fn covered(vs: Seq<Vector>, n: int, path: Seq<bool>, outcome: Outcome) -> bool {
    exists|i: int| 0 <= i < n && i < vs.len() && reports(#[trigger] vs[i], path, outcome)
}

/// Whether one of the vectors stands for the replay with `values`.
pub open spec fn explored(s: State, task: usize, block: Seq<Stmt>, vs: Seq<Vector>, values: Seq<u64>) -> bool {
    covered(
        vs,
        vs.len() as int,
        replayed(s, task, block, values).path,
        replayed(s, task, block, values).outcome(),
    )
}

/// Whether every vector is true of the body and none stands for a run that
/// an earlier one stands for.
pub open spec fn exact(s: State, task: usize, block: Seq<Stmt>, vs: Seq<Vector>) -> bool {
    &&& forall|i: int| 0 <= i < vs.len() ==> reproduces(s, task, block, #[trigger] vs[i])
    &&& forall|i: int| 0 <= i < vs.len() ==> !covered(vs, i, (#[trigger] vs[i]).path, vs[i].outcome)
}

/// Whether `ws` is `vs` with vectors added at its end.
pub open spec fn extends(vs: Seq<Vector>, ws: Seq<Vector>) -> bool {
    &&& vs.len() <= ws.len()
    &&& forall|i: int| 0 <= i < vs.len() ==> #[trigger] ws[i] == vs[i]
}

/// The vectors after the replay with `values` has been taken note of: a
/// vector for it is added unless one of them stands for it already.
pub open spec fn noted(s: State, task: usize, block: Seq<Stmt>, vs: Seq<Vector>, values: Seq<u64>) -> Seq<
    Vector,
> {
    if explored(s, task, block, vs, values) {
        vs
    } else {
        vs.push(vector_of(s, task, block, values))
    }
}

/// The vectors that the first `n` candidates give rise to, taken in turn.
/// Candidates that are not admissible are passed over.
pub open spec fn gathered(s: State, task: usize, block: Seq<Stmt>, candidates: Seq<Vec<u64>>, n: int) -> Seq<
    Vector,
>
    decreases n,
{
    if n <= 0 {
        Seq::empty()
    } else {
        let vs = gathered(s, task, block, candidates, n - 1);
        if s.admits(candidates[n - 1]@) {
            noted(s, task, block, vs, candidates[n - 1]@)
        } else {
            vs
        }
    }
}

/// Whether the values of the vector are those of one of the first `n`
/// candidates.
pub open spec fn drawn(candidates: Seq<Vec<u64>>, n: int, v: Vector) -> bool {
    exists|c: int| 0 <= c < n && c < candidates.len() && (#[trigger] candidates[c])@ == v.values
}

/// The largest value of the resource that `list` names at position `k`.
pub open spec fn limit_at(s: State, list: Seq<usize>, k: int) -> int {
    s.resources[list[k] as int].width.limit()
}

/// The vectors after a sweep over the domains of the resources that `list`
/// names at position `k` and after it, the other resources keeping the values
/// in `current`. The resource named first varies slowest, and each resource
/// goes through its values from zero up.
pub open spec fn swept(
    s: State,
    task: usize,
    block: Seq<Stmt>,
    list: Seq<usize>,
    k: int,
    current: Seq<u64>,
    vs: Seq<Vector>,
) -> Seq<Vector>
    decreases list.len() - k, 0x1_0000_0000_0000_0001int,
{
    if 0 <= k < list.len() {
        swept_from(s, task, block, list, k, current, 0, vs)
    } else {
        noted(s, task, block, vs, current)
    }
}

/// The vectors after the part of a sweep in which the resource that `list`
/// names at position `k` takes the values from `v` up.
pub open spec fn swept_from(
    s: State,
    task: usize,
    block: Seq<Stmt>,
    list: Seq<usize>,
    k: int,
    current: Seq<u64>,
    v: int,
    vs: Seq<Vector>,
) -> Seq<Vector>
    decreases list.len() - k, limit_at(s, list, k) - v + 1,
{
    if 0 <= k < list.len() && 0 <= v <= limit_at(s, list, k) {
        swept_from(
            s,
            task,
            block,
            list,
            k,
            current,
            v + 1,
            swept(s, task, block, list, k + 1, current.update(list[k] as int, v as u64), vs),
        )
    } else {
        vs
    }
}

/// Whether `r` is named by `list` at position `k` or after it.
pub open spec fn listed_from(list: Seq<usize>, k: int, r: int) -> bool {
    exists|j: int| k <= j < list.len() && #[trigger] list[j] == r
}

/// Whether `a` and `b` differ at most in the resources that `list` names at
/// position `k` or after it.
pub open spec fn agree_outside(a: Seq<u64>, b: Seq<u64>, list: Seq<usize>, k: int) -> bool {
    &&& a.len() == b.len()
    &&& forall|r: int| 0 <= r < a.len() && !listed_from(list, k, r) ==> #[trigger] a[r] == b[r]
}

/// What is explored stays explored as vectors are added.
pub proof fn lemma_explored_grows(
    s: State,
    task: usize,
    block: Seq<Stmt>,
    vs: Seq<Vector>,
    ws: Seq<Vector>,
    values: Seq<u64>,
)
    requires
        extends(vs, ws),
        explored(s, task, block, vs, values),
    ensures
        explored(s, task, block, ws, values),
{
    let t = replayed(s, task, block, values);
    let i = choose|i: int| 0 <= i < vs.len() && i < vs.len() && reports(#[trigger] vs[i], t.path, t.outcome());
    assert(ws[i] == vs[i]);
}

/// What a replay is taken note of as does not depend on the values that the
/// resources had before it.
pub proof fn lemma_noted_frame(
    a: State,
    b: State,
    task: usize,
    block: Seq<Stmt>,
    vs: Seq<Vector>,
    values: Seq<u64>,
)
    requires
        same_locks(a, b),
    ensures
        noted(a, task, block, vs, values) == noted(b, task, block, vs, values),
{
    lemma_replayed_frame(a, b, task, block, values);
}

/// Taking note of a replay keeps the vectors exact, adds at the end only, and
/// leaves the replay explored.
pub proof fn law_noted_exact(s: State, task: usize, block: Seq<Stmt>, vs: Seq<Vector>, values: Seq<u64>)
    requires
        exact(s, task, block, vs),
        s.admits(values),
    ensures
        exact(s, task, block, noted(s, task, block, vs, values)),
        extends(vs, noted(s, task, block, vs, values)),
        explored(s, task, block, noted(s, task, block, vs, values), values),
{
    let ws = noted(s, task, block, vs, values);
    let n = vs.len() as int;
    let v = vector_of(s, task, block, values);
    if !explored(s, task, block, vs, values) {
        assert(ws[n] == v);
        assert(reports(ws[n], v.path, v.outcome));
        assert forall|j: int| 0 <= j < ws.len() implies !covered(ws, j, (#[trigger] ws[j]).path, ws[j].outcome) by {
            if covered(ws, j, ws[j].path, ws[j].outcome) {
                let i = choose|i: int|
                    0 <= i < j && i < ws.len() && reports(#[trigger] ws[i], ws[j].path, ws[j].outcome);
                assert(ws[i] == vs[i]);
                if j < n {
                    assert(ws[j] == vs[j]);
                    assert(reports(vs[i], vs[j].path, vs[j].outcome));
                    assert(covered(vs, j, vs[j].path, vs[j].outcome));
                } else {
                    assert(reports(vs[i], v.path, v.outcome));
                    assert(covered(vs, n, v.path, v.outcome));
                }
            }
        }
        assert forall|j: int| 0 <= j < ws.len() implies reproduces(s, task, block, #[trigger] ws[j]) by {
            if j < n {
                assert(ws[j] == vs[j]);
            }
        }
    }
}

/// The vectors that candidates give rise to are exact; each is drawn from
/// the candidates; and the replay with every admissible candidate is
/// explored.
pub proof fn law_gathered_exact(s: State, task: usize, block: Seq<Stmt>, candidates: Seq<Vec<u64>>, n: int)
    requires
        0 <= n <= candidates.len(),
    ensures
        exact(s, task, block, gathered(s, task, block, candidates, n)),
        forall|c: int|
            0 <= c < n && s.admits(candidates[c]@) ==> explored(
                s,
                task,
                block,
                gathered(s, task, block, candidates, n),
                #[trigger] candidates[c]@,
            ),
        forall|i: int|
            0 <= i < gathered(s, task, block, candidates, n).len() ==> drawn(
                candidates,
                n,
                #[trigger] gathered(s, task, block, candidates, n)[i],
            ),
    decreases n,
{
    if n > 0 {
        let vs = gathered(s, task, block, candidates, n - 1);
        let ws = gathered(s, task, block, candidates, n);
        let last = candidates[n - 1]@;
        law_gathered_exact(s, task, block, candidates, n - 1);
        if s.admits(last) {
            law_noted_exact(s, task, block, vs, last);
        }
        assert(extends(vs, ws));
        assert forall|c: int| 0 <= c < n && s.admits(candidates[c]@) implies explored(
            s,
            task,
            block,
            ws,
            #[trigger] candidates[c]@,
        ) by {
            if c < n - 1 {
                lemma_explored_grows(s, task, block, vs, ws, candidates[c]@);
            }
        }
        assert forall|i: int| 0 <= i < ws.len() implies drawn(candidates, n, #[trigger] ws[i]) by {
            if i < vs.len() {
                assert(ws[i] == vs[i]);
                assert(drawn(candidates, n - 1, vs[i]));
                let c = choose|c: int|
                    0 <= c < n - 1 && c < candidates.len() && (#[trigger] candidates[c])@ == vs[i].values;
                assert(candidates[c]@ == ws[i].values);
            } else {
                assert(candidates[n - 1]@ == ws[i].values);
            }
        }
    }
}

/// A sweep does not depend on the values that `current` gives the resources
/// that it sweeps over.
pub proof fn lemma_swept_frame(
    s: State,
    task: usize,
    block: Seq<Stmt>,
    list: Seq<usize>,
    k: int,
    a: Seq<u64>,
    b: Seq<u64>,
    vs: Seq<Vector>,
)
    requires
        0 <= k,
        agree_outside(a, b, list, k),
        forall|j: int| 0 <= j < list.len() ==> #[trigger] list[j] < a.len(),
    ensures
        swept(s, task, block, list, k, a, vs) == swept(s, task, block, list, k, b, vs),
    decreases list.len() - k, 0x1_0000_0000_0000_0001int,
{
    if k < list.len() {
        lemma_swept_from_frame(s, task, block, list, k, a, b, 0, vs);
    } else {
        assert forall|r: int| 0 <= r < a.len() implies a[r] == b[r] by {
            assert(!listed_from(list, k, r));
        }
        assert(a =~= b);
    }
}

/// The same, for a part of a sweep.
pub proof fn lemma_swept_from_frame(
    s: State,
    task: usize,
    block: Seq<Stmt>,
    list: Seq<usize>,
    k: int,
    a: Seq<u64>,
    b: Seq<u64>,
    v: int,
    vs: Seq<Vector>,
)
    requires
        0 <= k < list.len(),
        agree_outside(a, b, list, k),
        forall|j: int| 0 <= j < list.len() ==> #[trigger] list[j] < a.len(),
    ensures
        swept_from(s, task, block, list, k, a, v, vs) == swept_from(s, task, block, list, k, b, v, vs),
    decreases list.len() - k, limit_at(s, list, k) - v + 1,
{
    if 0 <= v <= limit_at(s, list, k) {
        let r = list[k] as int;
        let a1 = a.update(r, v as u64);
        let b1 = b.update(r, v as u64);
        lemma_agree_after_update(a, b, list, k, v as u64);
        lemma_swept_frame(s, task, block, list, k + 1, a1, b1, vs);
        lemma_swept_from_frame(s, task, block, list, k, a, b, v + 1, swept(s, task, block, list, k + 1, a1, vs));
    }
}

/// Assignments that agree outside the resources named from position `k` on
/// agree outside those named after it, once the resource named at `k` has
/// the same value in both.
pub proof fn lemma_agree_after_update(a: Seq<u64>, b: Seq<u64>, list: Seq<usize>, k: int, v: u64)
    requires
        0 <= k < list.len(),
        agree_outside(a, b, list, k),
        list[k] < a.len(),
    ensures
        agree_outside(a.update(list[k] as int, v), b.update(list[k] as int, v), list, k + 1),
{
    let r = list[k] as int;
    let a1 = a.update(r, v);
    let b1 = b.update(r, v);
    assert forall|x: int| 0 <= x < a1.len() && !listed_from(list, k + 1, x) implies #[trigger] a1[x] == b1[x] by {
        if x != r {
            lemma_listed_step(list, k, x);
        }
    }
}

/// A resource named from position `k` on is the one named at `k` or is named
/// after it.
pub proof fn lemma_listed_step(list: Seq<usize>, k: int, x: int)
    requires
        0 <= k < list.len(),
    ensures
        listed_from(list, k, x) <==> (list[k] == x || listed_from(list, k + 1, x)),
{
    if listed_from(list, k, x) {
        let j = choose|j: int| k <= j < list.len() && #[trigger] list[j] == x;
        if j > k {
            assert(list[j] == x);
        }
    }
    if listed_from(list, k + 1, x) {
        let j = choose|j: int| k + 1 <= j < list.len() && #[trigger] list[j] == x;
        assert(list[j] == x);
    }
    if list[k] == x {
        assert(list[k] == x);
    }
}

/// The vectors of a sweep are exact, the sweep adds at the end only, and it
/// leaves explored the replay with every admissible assignment that differs
/// from `current` at most in the resources swept over.
pub proof fn law_swept_exact(
    s: State,
    task: usize,
    block: Seq<Stmt>,
    list: Seq<usize>,
    k: int,
    current: Seq<u64>,
    vs: Seq<Vector>,
)
    requires
        0 <= k,
        exact(s, task, block, vs),
        s.admits(current),
        forall|j: int| 0 <= j < list.len() ==> #[trigger] list[j] < s.resources.len(),
    ensures
        exact(s, task, block, swept(s, task, block, list, k, current, vs)),
        extends(vs, swept(s, task, block, list, k, current, vs)),
        forall|values: Seq<u64>|
            s.admits(values) && agree_outside(values, current, list, k) ==> #[trigger] explored(
                s,
                task,
                block,
                swept(s, task, block, list, k, current, vs),
                values,
            ),
    decreases list.len() - k, 0x1_0000_0000_0000_0001int,
{
    let ws = swept(s, task, block, list, k, current, vs);
    if k < list.len() {
        law_swept_from_exact(s, task, block, list, k, current, 0, vs);
        assert forall|values: Seq<u64>| s.admits(values) && agree_outside(values, current, list, k) implies
            #[trigger] explored(s, task, block, ws, values) by {
            assert(values[list[k] as int] >= 0);
        }
    } else {
        law_noted_exact(s, task, block, vs, current);
        assert forall|values: Seq<u64>| s.admits(values) && agree_outside(values, current, list, k) implies
            #[trigger] explored(s, task, block, ws, values) by {
            assert forall|r: int| 0 <= r < values.len() implies values[r] == current[r] by {
                assert(!listed_from(list, k, r));
            }
            assert(values =~= current);
        }
    }
}

/// The same, for a part of a sweep: it leaves explored the replays in which
/// the resource named at position `k` has a value from `v` up.
pub proof fn law_swept_from_exact(
    s: State,
    task: usize,
    block: Seq<Stmt>,
    list: Seq<usize>,
    k: int,
    current: Seq<u64>,
    v: int,
    vs: Seq<Vector>,
)
    requires
        0 <= k < list.len(),
        0 <= v,
        exact(s, task, block, vs),
        s.admits(current),
        forall|j: int| 0 <= j < list.len() ==> #[trigger] list[j] < s.resources.len(),
    ensures
        exact(s, task, block, swept_from(s, task, block, list, k, current, v, vs)),
        extends(vs, swept_from(s, task, block, list, k, current, v, vs)),
        forall|values: Seq<u64>|
            s.admits(values) && agree_outside(values, current, list, k) && values[list[k] as int] >= v
                ==> #[trigger] explored(
                s,
                task,
                block,
                swept_from(s, task, block, list, k, current, v, vs),
                values,
            ),
    decreases list.len() - k, limit_at(s, list, k) - v + 1,
{
    let r = list[k] as int;
    let ws = swept_from(s, task, block, list, k, current, v, vs);
    if v <= limit_at(s, list, k) {
        let c1 = current.update(r, v as u64);
        assert(s.admits(c1)) by {
            assert forall|x: int| 0 <= x < c1.len() implies s.resources[x].width.holds(#[trigger] c1[x]) by {
                if x != r {
                    assert(c1[x] == current[x]);
                }
            }
        }
        let mid = swept(s, task, block, list, k + 1, c1, vs);
        law_swept_exact(s, task, block, list, k + 1, c1, vs);
        law_swept_from_exact(s, task, block, list, k, current, v + 1, mid);
        assert forall|values: Seq<u64>|
            s.admits(values) && agree_outside(values, current, list, k) && values[r] >= v implies
            #[trigger] explored(s, task, block, ws, values) by {
            if values[r] == v {
                assert(values =~= values.update(r, v as u64));
                lemma_agree_after_update(values, current, list, k, v as u64);
                assert(explored(s, task, block, mid, values));
                lemma_explored_grows(s, task, block, mid, ws, values);
            }
        }
    } else {
        assert forall|values: Seq<u64>|
            s.admits(values) && agree_outside(values, current, list, k) && values[r] >= v implies
            #[trigger] explored(s, task, block, ws, values) by {
            assert(s.resources[r].width.holds(values[r]));
        }
    }
}

/// Round trip: a test vector that is true of a body replays to its own path
/// and outcome on every system of the same declarations, whatever values the
/// resources had before the replay.
pub proof fn law_vector_replays(s: State, other: State, task: usize, block: Seq<Stmt>, vs: Seq<Vector>, i: int)
    requires
        exact(s, task, block, vs),
        same_locks(s, other),
        0 <= i < vs.len(),
    ensures
        other.admits(vs[i].values),
        replayed(other, task, block, vs[i].values).path == vs[i].path,
        replayed(other, task, block, vs[i].values).outcome() == vs[i].outcome,
{
    lemma_replayed_frame(s, other, task, block, vs[i].values);
}

} // verus!
