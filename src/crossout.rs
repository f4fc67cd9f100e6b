//! Crossing out: which goal hints of a line the player's current runs already reproduce.
//!
//! A goal hint is crossed out by storing it negated. Goal slots are walked left to
//! right; each nonzero one looks for an equal current run from the first current slot
//! that no earlier goal slot has taken, and takes the first one it finds; a hint that
//! finds none is not crossed out. A line whose current runs outnumber its goal runs
//! gets no crossouts at all.

use vstd::prelude::*;
use crate::hints::ints;

verus! {

/// The absolute value of an integer.
pub open spec fn abs(x: int) -> int {
    if x < 0 {
        -x
    } else {
        x
    }
}

/// How many entries of `s` are not zero.
pub open spec fn count_nonzero(s: Seq<int>) -> nat
    decreases s.len(),
{
    if s.len() == 0 {
        0
    } else {
        count_nonzero(s.drop_last()) + if s.last() != 0 {
            1nat
        } else {
            0nat
        }
    }
}

/// Whether any crossout is given on a line: only while the current runs are no more
/// than the goal runs.
pub open spec fn may_match(goal: Seq<int>, cur: Seq<int>) -> bool {
    count_nonzero(cur) <= count_nonzero(goal)
}

/// The first slot of `cur`, at `from` or after it, that holds `v`; `cur.len()` if none does.
pub open spec fn first_match(cur: Seq<int>, v: int, from: int) -> int
    decreases cur.len() - from,
{
    if from < 0 || from >= cur.len() {
        cur.len() as int
    } else if cur[from] == v {
        from
    } else {
        first_match(cur, v, from + 1)
    }
}

/// Whether goal slot `g` finds an equal current run at `from` or after it.
pub open spec fn found(goal: Seq<int>, cur: Seq<int>, allowed: bool, g: int, from: int) -> bool {
    &&& goal[g] != 0
    &&& allowed
    &&& first_match(cur, abs(goal[g]), from) < cur.len()
}

/// The first current slot that is still free when goal slot `g` is reached.
pub open spec fn consumed(goal: Seq<int>, cur: Seq<int>, allowed: bool, g: nat) -> int
    decreases g,
{
    if g == 0 {
        0
    } else {
        let p = consumed(goal, cur, allowed, (g - 1) as nat);
        if found(goal, cur, allowed, g - 1, p) {
            first_match(cur, abs(goal[g - 1]), p) + 1
        } else {
            p
        }
    }
}

/// The new value of goal slot `g`: crossed out (negative) when it finds its run,
/// not crossed out otherwise.
pub open spec fn crossed_slot(goal: Seq<int>, cur: Seq<int>, allowed: bool, g: int) -> int {
    let p = consumed(goal, cur, allowed, g as nat);
    if goal[g] == 0 {
        0
    } else if found(goal, cur, allowed, g, p) {
        -abs(goal[g])
    } else {
        abs(goal[g])
    }
}

/// The goal line after its crossouts are brought up to date with the current line.
pub open spec fn crossout_line(goal: Seq<int>, cur: Seq<int>) -> Seq<int> {
    Seq::new(goal.len(), |g: int| crossed_slot(goal, cur, may_match(goal, cur), g))
}

/// Skipping slots that do not hold `v` does not change where `v` is first found.
proof fn lemma_first_match_skip(cur: Seq<int>, v: int, from: int, j: int)
    requires
        0 <= from <= j <= cur.len(),
        forall|k: int| from <= k < j ==> cur[k] != v,
    ensures
        first_match(cur, v, from) == first_match(cur, v, j),
    decreases j - from,
{
    if from < j {
        lemma_first_match_skip(cur, v, from + 1, j);
    }
}

/// The first match lies in `[from, cur.len()]`.
proof fn lemma_first_match_range(cur: Seq<int>, v: int, from: int)
    requires
        0 <= from <= cur.len(),
    ensures
        from <= first_match(cur, v, from) <= cur.len(),
    decreases cur.len() - from,
{
    if from < cur.len() {
        lemma_first_match_range(cur, v, from + 1);
    }
}

/// The number of nonzero entries of a line of hints.
pub fn count_nonzero_hints(v: &Vec<i8>) -> (r: usize)
    ensures
        r == count_nonzero(ints(v@)),
{
    let mut count: usize = 0;
    let mut i: usize = 0;
    while i < v.len()
        invariant
            0 <= i <= v.len(),
            count == count_nonzero(ints(v@).subrange(0, i as int)),
            count <= i,
        decreases v.len() - i,
    {
        proof {
            assert(ints(v@).subrange(0, i + 1).drop_last() =~= ints(v@).subrange(0, i as int));
        }
        if v[i] != 0 {
            count += 1;
        }
        i += 1;
    }
    assert(ints(v@).subrange(0, v.len() as int) =~= ints(v@));
    count
}

/// The goal line `goal` with its crossouts brought up to date with the current line `cur`.
pub fn crossout_hints(goal: &Vec<i8>, cur: &Vec<i8>) -> (r: Vec<i8>)
    requires
        goal.len() == cur.len(),
        forall|i: int| 0 <= i < goal.len() ==> goal@[i] > i8::MIN,
    ensures
        ints(r@) == crossout_line(ints(goal@), ints(cur@)),
{
    let ghost gl = ints(goal@);
    let ghost cl = ints(cur@);
    let n = goal.len();
    let match_count = count_nonzero_hints(cur) <= count_nonzero_hints(goal);
    let ghost mc = may_match(gl, cl);
    let mut out = goal.clone();
    assert(out@ =~= goal@);
    let mut current_it: usize = 0;
    let mut goal_it: usize = 0;
    let mut match_it: usize = 0;
    while goal_it < n
        invariant
            n == goal.len() == cur.len() == out.len(),
            gl == ints(goal@),
            cl == ints(cur@),
            mc == match_count,
            mc == may_match(gl, cl),
            forall|i: int| 0 <= i < n ==> goal@[i] > i8::MIN,
            0 <= goal_it <= n,
            match_it <= n,
            current_it == match_it,
            match_it == consumed(gl, cl, mc, goal_it as nat),
            forall|k: int| 0 <= k < goal_it ==> out@[k] as int == crossed_slot(gl, cl, mc, k),
            forall|k: int| goal_it <= k < n ==> out@[k] == goal@[k],
        decreases n - goal_it,
    {
        let ghost p = match_it as int;
        let ghost g = gl[goal_it as int];
        assert(g == goal@[goal_it as int] as int);
        let ghost before_out = out@;
        if out[goal_it] != 0 {
            // An unmatched hint is never crossed out: start from its magnitude.
            let v = out[goal_it];
            let mag: i8 = if v < 0 {
                -v
            } else {
                v
            };
            out[goal_it] = mag;
            while current_it < n
                invariant_except_break
                    n == goal.len() == cur.len() == out.len(),
                    gl == ints(goal@),
                    cl == ints(cur@),
                    mc == match_count,
                    goal_it < n,
                    g == gl[goal_it as int],
                    g != 0,
                    mag as int == abs(g),
                    p == match_it,
                    p <= current_it <= n,
                    forall|j: int| p <= j < current_it ==> !(mc && cl[j] == abs(g)),
                    out@[goal_it as int] as int == abs(g),
                    forall|k: int| 0 <= k < n && k != goal_it ==> out@[k] == before_out[k],
                ensures
                    n == goal.len() == cur.len() == out.len(),
                    forall|k: int| 0 <= k < n && k != goal_it ==> out@[k] == before_out[k],
                    ({
                        &&& mc
                        &&& p <= match_it - 1 < n
                        &&& cl[match_it - 1] == abs(g)
                        &&& out@[goal_it as int] == -abs(g)
                        &&& forall|j: int| p <= j < match_it - 1 ==> cl[j] != abs(g)
                    }) || ({
                        &&& match_it == p
                        &&& forall|j: int| p <= j < n ==> !(mc && cl[j] == abs(g))
                        &&& out@[goal_it as int] as int == abs(g)
                    }),
                decreases n - current_it,
            {
                assert(cl[current_it as int] == cur@[current_it as int] as int);
                if mag == cur[current_it] && match_count {
                    out[goal_it] = -mag;
                    match_it = current_it + 1;
                    break;
                }
                current_it += 1;
            }
            proof {
                let v = abs(g);
                if match_it as int == p {
                    if mc {
                        lemma_first_match_skip(cl, v, p, n as int);
                        assert(first_match(cl, v, n as int) == n);
                    }
                    assert(!found(gl, cl, mc, goal_it as int, p));
                } else {
                    lemma_first_match_skip(cl, v, p, match_it - 1);
                    assert(first_match(cl, v, match_it - 1) == match_it - 1);
                    assert(found(gl, cl, mc, goal_it as int, p));
                }
            }
        } else {
            assert(g == 0);
        }
        proof {
            lemma_first_match_range(cl, abs(g), p);
            assert(out@[goal_it as int] as int == crossed_slot(gl, cl, mc, goal_it as int));
            assert forall|k: int| 0 <= k < goal_it implies out@[k] as int == crossed_slot(
                gl,
                cl,
                mc,
                k,
            ) by {
                assert(before_out[k] as int == crossed_slot(gl, cl, mc, k));
            }
        }
        current_it = match_it;
        goal_it += 1;
    }
    assert(ints(out@) =~= crossout_line(gl, cl));
    out
}

/// Crossing out never changes a hint's magnitude, only its sign.
pub proof fn lemma_crossout_keeps_magnitudes(goal: Seq<int>, cur: Seq<int>)
    ensures
        crossout_line(goal, cur).len() == goal.len(),
        forall|i: int|
            0 <= i < goal.len() ==> abs(#[trigger] crossout_line(goal, cur)[i]) == abs(goal[i]),
{
}

/// Two lines that are zero in the same slots count the same nonzero entries.
proof fn lemma_count_nonzero_same_zeros(s: Seq<int>, t: Seq<int>)
    requires
        s.len() == t.len(),
        forall|i: int| 0 <= i < s.len() ==> (s[i] == 0 <==> t[i] == 0),
    ensures
        count_nonzero(s) == count_nonzero(t),
    decreases s.len(),
{
    if s.len() > 0 {
        lemma_count_nonzero_same_zeros(s.drop_last(), t.drop_last());
    }
}

/// The matching walks two goal lines of the same magnitudes alike.
proof fn lemma_consumed_same_magnitudes(
    goal: Seq<int>,
    other: Seq<int>,
    cur: Seq<int>,
    allowed: bool,
    g: nat,
)
    requires
        goal.len() == other.len(),
        g <= goal.len(),
        forall|i: int| 0 <= i < goal.len() ==> abs(#[trigger] other[i]) == abs(goal[i]),
    ensures
        consumed(other, cur, allowed, g) == consumed(goal, cur, allowed, g),
    decreases g,
{
    if g > 0 {
        lemma_consumed_same_magnitudes(goal, other, cur, allowed, (g - 1) as nat);
        assert(abs(other[g - 1]) == abs(goal[g - 1]));
    }
}

/// Bringing the crossouts of a line up to date a second time, against the same
/// current line, changes nothing.
pub proof fn lemma_crossout_idempotent(goal: Seq<int>, cur: Seq<int>)
    ensures
        crossout_line(crossout_line(goal, cur), cur) == crossout_line(goal, cur),
{
    let once = crossout_line(goal, cur);
    lemma_crossout_keeps_magnitudes(goal, cur);
    lemma_count_nonzero_same_zeros(goal, once);
    let mc = may_match(goal, cur);
    assert(may_match(once, cur) == mc);
    assert forall|i: int| 0 <= i < goal.len() implies #[trigger] crossout_line(once, cur)[i]
        == once[i] by {
        lemma_consumed_same_magnitudes(goal, once, cur, mc, i as nat);
        assert(abs(once[i]) == abs(goal[i]));
    }
    assert(crossout_line(once, cur) =~= once);
}

} // verus!
