//! Hint numbers: the lengths of the maximal runs of filled cells along one line.

use vstd::prelude::*;

verus! {

/// The longest line a board may have: a run length must fit in an `i8` hint.
pub const MAX_LINE: usize = 127;

/// `ceil(n / 2)` for a non-negative `n`: the most runs a line of `n` cells can hold.
pub open spec fn ceil_half(n: int) -> int {
    (n + 1) / 2
}

/// The lengths of the maximal runs of `true` in `line`, in the order in which they stand.
pub open spec fn runs(line: Seq<bool>) -> Seq<int>
    decreases line.len(),
{
    if line.len() == 0 {
        Seq::empty()
    } else {
        let prev = runs(line.drop_last());
        if !line.last() {
            prev
        } else if line.len() >= 2 && line[line.len() - 2] {
            prev.update(prev.len() - 1, prev.last() + 1)
        } else {
            prev.push(1)
        }
    }
}

/// The sum of a sequence of integers.
pub open spec fn sum(s: Seq<int>) -> int
    decreases s.len(),
{
    if s.len() == 0 {
        0
    } else {
        sum(s.drop_last()) + s.last()
    }
}

/// `s` followed by zeros, cut or filled to exactly `cap` entries.
pub open spec fn padded(s: Seq<int>, cap: int) -> Seq<int> {
    Seq::new(cap as nat, |i: int| if i < s.len() { s[i] } else { 0 })
}

/// The hint numbers of one line: its runs, padded with zeros to `ceil(len / 2)` slots.
pub open spec fn hint_line(line: Seq<bool>) -> Seq<int> {
    padded(runs(line), ceil_half(line.len() as int))
}

/// A line of `i8` hints read as integers.
pub open spec fn ints(s: Seq<i8>) -> Seq<int> {
    s.map_values(|x: i8| x as int)
}

/// The facts about `runs` that the proofs on hint lines rest on.
pub proof fn lemma_runs_shape(line: Seq<bool>)
    ensures
        forall|i: int| 0 <= i < runs(line).len() ==> 1 <= #[trigger] runs(line)[i] <= line.len(),
        sum(runs(line)) + runs(line).len() <= line.len() + 1,
        line.len() >= 1 && !line.last() ==> sum(runs(line)) + runs(line).len() <= line.len(),
        line.len() >= 1 && line.last() ==> runs(line).len() >= 1,
        line.len() == 0 ==> runs(line).len() == 0,
    decreases line.len(),
{
    if line.len() > 0 {
        let prev = line.drop_last();
        lemma_runs_shape(prev);
        let p = runs(prev);
        if line.last() {
            if line.len() >= 2 && line[line.len() - 2] {
                assert(prev.last() == line[line.len() - 2]);
                let q = p.update(p.len() - 1, p.last() + 1);
                assert(q.drop_last() =~= p.drop_last());
                assert(sum(q) == sum(p) + 1);
            } else {
                assert(p.push(1).drop_last() =~= p);
            }
        }
    }
}

/// Each run is at least one cell long, so the runs of a line (`sum` of their
/// lengths) together with the one-cell gap between each two of them never need
/// more cells than the line has.
pub proof fn lemma_runs_fit(line: Seq<bool>)
    ensures
        runs(line).len() > 0 ==> sum(runs(line)) + (runs(line).len() - 1) <= line.len(),
        runs(line).len() <= ceil_half(line.len() as int),
        forall|i: int| 0 <= i < runs(line).len() ==> 1 <= #[trigger] runs(line)[i] <= line.len(),
{
    lemma_runs_shape(line);
    lemma_sum_at_least_len(runs(line));
}

/// A sequence of entries that are each at least one sums to at least its length.
proof fn lemma_sum_at_least_len(s: Seq<int>)
    requires
        forall|i: int| 0 <= i < s.len() ==> 1 <= #[trigger] s[i],
    ensures
        sum(s) >= s.len(),
    decreases s.len(),
{
    if s.len() > 0 {
        lemma_sum_at_least_len(s.drop_last());
    }
}

/// The hint numbers of one line, as the scan from its first cell to its last finds them.
pub fn line_hints(line: &Vec<bool>) -> (r: Vec<i8>)
    requires
        line.len() <= MAX_LINE,
    ensures
        ints(r@) == hint_line(line@),
{
    let n = line.len();
    let cap: usize = (n + 1) / 2;
    let mut nums: Vec<i8> = vec![0i8; cap];
    let mut num_hint: usize = 0;
    let mut filling = false;
    let mut i: usize = 0;
    assert(ints(nums@) =~= padded(runs(line@.subrange(0, 0)), cap as int));
    while i < n
        invariant
            n == line.len() <= MAX_LINE,
            cap == ceil_half(n as int),
            0 <= i <= n,
            nums.len() == cap,
            ints(nums@) == padded(runs(line@.subrange(0, i as int)), cap as int),
            filling == (i > 0 && line@[i - 1]),
            num_hint + (if filling { 1int } else { 0 }) == runs(line@.subrange(0, i as int)).len(),
        decreases n - i,
    {
        let ghost before = line@.subrange(0, i as int);
        let ghost after = line@.subrange(0, i + 1);
        proof {
            assert(after.drop_last() =~= before);
            lemma_runs_shape(before);
            lemma_runs_fit(after);
            lemma_runs_fit(before);
            assert(ceil_half(after.len() as int) <= cap);
            assert(after.last() == line@[i as int]);
            if i > 0 {
                assert(after[after.len() - 2] == line@[i - 1]);
            }
        }
        let ghost rb = runs(before);
        let ghost old_nums = nums@;
        if line[i] {
            if !filling {
                assert(runs(after) == rb.push(1));
                filling = true;
            } else {
                assert(runs(after) == rb.update(rb.len() - 1, rb.last() + 1));
            }
            assert(num_hint < runs(after).len() <= cap);
            assert(ints(nums@)[num_hint as int] == nums@[num_hint as int] as int);
            assert(runs(after)[num_hint as int] <= n);
            nums[num_hint] = nums[num_hint] + 1;
        } else {
            assert(runs(after) == rb);
            if filling {
                filling = false;
                num_hint += 1;
            }
        }
        i += 1;
        assert forall|k: int| 0 <= k < cap implies #[trigger] ints(nums@)[k] == padded(
            runs(after),
            cap as int,
        )[k] by {
            assert(ints(old_nums)[k] == padded(rb, cap as int)[k]);
        }
        assert(ints(nums@) =~= padded(runs(after), cap as int));
    }
    assert(line@.subrange(0, n as int) =~= line@);
    nums
}

} // verus!
