//! How the loops of a program nest.
use vstd::prelude::*;

use crate::op::SpecOp;

verus! {

/// By how much an instruction changes the number of open loops.
pub open spec fn loop_delta(op: SpecOp) -> int {
    match op {
        SpecOp::LoopStart => 1,
        SpecOp::LoopEnd => -1,
        _ => 0,
    }
}

/// The number of loops that are open before instruction `i`: the loop starts
/// less the loop ends among the first `i` instructions.
pub open spec fn nesting(ops: Seq<SpecOp>, i: int) -> int
    decreases i,
{
    if i <= 0 {
        0
    } else {
        nesting(ops, i - 1) + loop_delta(ops[i - 1])
    }
}

/// No loop end among the first `n` instructions comes before its loop start.
pub open spec fn no_stray_end(ops: Seq<SpecOp>, n: int) -> bool {
    forall|i: int| 0 <= i <= n ==> #[trigger] nesting(ops, i) >= 0
}

/// Every loop start has its loop end, and every loop end its loop start.
pub open spec fn balanced(ops: Seq<SpecOp>) -> bool {
    &&& no_stray_end(ops, ops.len() as int)
    &&& nesting(ops, ops.len() as int) == 0
}

/// The loop that starts at `i` ends at `j`.
pub open spec fn is_pair(ops: Seq<SpecOp>, i: int, j: int) -> bool {
    &&& 0 <= i < j < ops.len()
    &&& ops[i] is LoopStart
    &&& ops[j] is LoopEnd
    &&& nesting(ops, j + 1) == nesting(ops, i)
    &&& forall|k: int| i < k <= j ==> #[trigger] nesting(ops, k) > nesting(ops, i)
}

/// Where the loop that starts at `i` ends.
pub open spec fn loop_end(ops: Seq<SpecOp>, i: int) -> int {
    choose|j: int| is_pair(ops, i, j)
}

/// A loop has one end.
pub proof fn lemma_pair_unique(ops: Seq<SpecOp>, i: int, j: int, k: int)
    requires
        is_pair(ops, i, j),
        is_pair(ops, i, k),
    ensures
        j == k,
{
    if j < k {
        assert(nesting(ops, j + 1) > nesting(ops, i));
    } else if k < j {
        assert(nesting(ops, k + 1) > nesting(ops, i));
    }
}

/// `loop_end` is the end of the loop, where there is one.
pub proof fn lemma_loop_end(ops: Seq<SpecOp>, i: int, j: int)
    requires
        is_pair(ops, i, j),
    ensures
        loop_end(ops, i) == j,
{
    lemma_pair_unique(ops, i, j, loop_end(ops, i));
}

/// A loop end has one start.
pub proof fn lemma_pair_start_unique(ops: Seq<SpecOp>, i: int, j: int, k: int)
    requires
        is_pair(ops, i, k),
        is_pair(ops, j, k),
    ensures
        i == j,
{
    if i < j {
        assert(nesting(ops, j) > nesting(ops, i));
    } else if j < i {
        assert(nesting(ops, i) > nesting(ops, j));
    }
}

/// A loop that is closed again before `n` has its end before `n`.
pub proof fn lemma_pair_exists(ops: Seq<SpecOp>, i: int, n: int)
    requires
        0 <= i < n <= ops.len(),
        ops[i] is LoopStart,
        nesting(ops, n) <= nesting(ops, i),
    ensures
        exists|j: int| is_pair(ops, i, j) && j < n,
        is_pair(ops, i, loop_end(ops, i)),
        loop_end(ops, i) < n,
    decreases n,
{
    assert(nesting(ops, i + 1) == nesting(ops, i) + 1);
    if exists|m: int| i < m < n && nesting(ops, m) <= nesting(ops, i) {
        let m = choose|m: int| i < m < n && nesting(ops, m) <= nesting(ops, i);
        lemma_pair_exists(ops, i, m);
        let j = choose|j: int| is_pair(ops, i, j) && j < m;
        assert(is_pair(ops, i, j) && j < n);
        lemma_loop_end(ops, i, j);
    } else {
        let j = n - 1;
        assert(j > i);
        assert(nesting(ops, j) > nesting(ops, i));
        assert(is_pair(ops, i, j));
        lemma_loop_end(ops, i, j);
    }
}

/// A loop end that is not stray has its start. The start is looked for from
/// `j` on.
pub proof fn lemma_pair_start_exists(ops: Seq<SpecOp>, j: int, i: int)
    requires
        0 <= j < i < ops.len(),
        ops[i] is LoopEnd,
        nesting(ops, j) <= nesting(ops, i + 1),
    ensures
        exists|k: int| is_pair(ops, k, i),
    decreases i - j,
{
    let c = nesting(ops, i + 1);
    assert(nesting(ops, i) == c + 1);
    if exists|k: int| j < k < i && nesting(ops, k) <= c {
        let k = choose|k: int| j < k < i && nesting(ops, k) <= c;
        lemma_pair_start_exists(ops, k, i);
    } else {
        assert(nesting(ops, j + 1) == nesting(ops, j) + loop_delta(ops[j]));
        assert(nesting(ops, j + 1) > c);
        assert(is_pair(ops, j, i));
    }
}

/// `nesting` looks only at the instructions before the place asked about.
pub proof fn lemma_nesting_prefix(a: Seq<SpecOp>, b: Seq<SpecOp>, i: int)
    requires
        i <= a.len(),
        i <= b.len(),
        forall|k: int| 0 <= k < i ==> a[k] == b[k],
    ensures
        nesting(a, i) == nesting(b, i),
    decreases i,
{
    if i > 0 {
        lemma_nesting_prefix(a, b, i - 1);
    }
}

/// `nesting` in a part of a program.
pub proof fn lemma_nesting_subrange(ops: Seq<SpecOp>, a: int, b: int, i: int)
    requires
        0 <= a <= b <= ops.len(),
        0 <= i <= b - a,
    ensures
        nesting(ops.subrange(a, b), i) == nesting(ops, a + i) - nesting(ops, a),
    decreases i,
{
    if i > 0 {
        lemma_nesting_subrange(ops, a, b, i - 1);
    }
}

/// The loops of a part of a program are those of the program.
pub proof fn lemma_pair_subrange(ops: Seq<SpecOp>, a: int, b: int, i: int, j: int)
    requires
        0 <= a <= b <= ops.len(),
        0 <= i < b - a,
        0 <= j < b - a,
    ensures
        is_pair(ops.subrange(a, b), i, j) <==> is_pair(ops, a + i, a + j),
{
    let part = ops.subrange(a, b);
    assert forall|k: int| 0 <= k <= b - a implies #[trigger] nesting(part, k) == nesting(
        ops,
        a + k,
    ) - nesting(ops, a) by {
        lemma_nesting_subrange(ops, a, b, k);
    }
    assert forall|k: int| a <= k <= b implies #[trigger] nesting(ops, k) == nesting(part, k - a)
        + nesting(ops, a) by {
        lemma_nesting_subrange(ops, a, b, k - a);
    }
    assert(nesting(part, j + 1) == nesting(ops, a + j + 1) - nesting(ops, a));
    assert(nesting(part, i) == nesting(ops, a + i) - nesting(ops, a));
    if is_pair(part, i, j) {
        assert forall|k: int| a + i < k <= a + j implies #[trigger] nesting(ops, k) > nesting(
            ops,
            a + i,
        ) by {
            assert(nesting(part, k - a) > nesting(part, i));
        }
    }
    if is_pair(ops, a + i, a + j) {
        assert forall|k: int| i < k <= j implies #[trigger] nesting(part, k) > nesting(part, i) by {
            assert(nesting(ops, a + k) > nesting(ops, a + i));
        }
    }
}

/// The part from `a` to `b` opens and closes the same loops.
pub open spec fn balanced_span(ops: Seq<SpecOp>, a: int, b: int) -> bool {
    &&& 0 <= a <= b <= ops.len()
    &&& nesting(ops, b) == nesting(ops, a)
    &&& forall|k: int| a <= k <= b ==> #[trigger] nesting(ops, k) >= nesting(ops, a)
}

/// A balanced part, taken by itself, is balanced.
pub proof fn lemma_balanced_subrange(ops: Seq<SpecOp>, a: int, b: int)
    requires
        0 <= a <= b <= ops.len(),
    ensures
        balanced(ops.subrange(a, b)) <==> balanced_span(ops, a, b),
{
    let part = ops.subrange(a, b);
    assert forall|k: int| 0 <= k <= b - a implies #[trigger] nesting(part, k) == nesting(
        ops,
        a + k,
    ) - nesting(ops, a) by {
        lemma_nesting_subrange(ops, a, b, k);
    }
    if balanced(part) {
        assert forall|k: int| a <= k <= b implies #[trigger] nesting(ops, k) >= nesting(ops, a) by {
            assert(nesting(part, k - a) >= 0);
        }
        assert(nesting(part, b - a) == 0);
    }
    if balanced_span(ops, a, b) {
        assert forall|k: int| 0 <= k <= part.len() implies #[trigger] nesting(part, k) >= 0 by {
            assert(nesting(ops, a + k) >= nesting(ops, a));
        }
        assert(nesting(part, b - a) == 0);
    }
}

/// In a balanced part that begins with a loop, the loop ends in the part, and
/// both its body and what follows it are balanced.
pub proof fn lemma_span_loop(ops: Seq<SpecOp>, a: int, b: int)
    requires
        balanced_span(ops, a, b),
        a < b,
        ops[a] is LoopStart,
    ensures
        is_pair(ops, a, loop_end(ops, a)),
        a < loop_end(ops, a) < b,
        balanced_span(ops, a + 1, loop_end(ops, a)),
        balanced_span(ops, loop_end(ops, a) + 1, b),
{
    lemma_pair_exists(ops, a, b);
    let e = loop_end(ops, a);
    assert(nesting(ops, a + 1) == nesting(ops, a) + 1);
    assert(nesting(ops, e + 1) == nesting(ops, e) - 1);
    assert(nesting(ops, b) == nesting(ops, a));
}

/// A balanced part does not begin with a loop end; after any other
/// instruction what is left of it is balanced.
pub proof fn lemma_span_plain(ops: Seq<SpecOp>, a: int, b: int)
    requires
        balanced_span(ops, a, b),
        a < b,
    ensures
        !(ops[a] is LoopEnd),
        !(ops[a] is LoopStart) ==> balanced_span(ops, a + 1, b),
{
    assert(nesting(ops, a + 1) == nesting(ops, a) + loop_delta(ops[a]));
    assert(nesting(ops, a + 1) >= nesting(ops, a));
}

/// `nesting` in two programs set one behind the other.
pub proof fn lemma_nesting_concat(a: Seq<SpecOp>, b: Seq<SpecOp>, i: int)
    requires
        0 <= i <= a.len() + b.len(),
    ensures
        i <= a.len() ==> nesting(a + b, i) == nesting(a, i),
        i >= a.len() ==> nesting(a + b, i) == nesting(a, a.len() as int) + nesting(b, i - a.len()),
    decreases i,
{
    if i <= a.len() {
        lemma_nesting_prefix(a + b, a, i);
    } else {
        lemma_nesting_concat(a, b, i - 1);
        assert((a + b)[i - 1] == b[i - 1 - a.len()]);
    }
}

/// Two balanced programs one behind the other are balanced.
pub proof fn lemma_balanced_concat(a: Seq<SpecOp>, b: Seq<SpecOp>)
    requires
        balanced(a),
        balanced(b),
    ensures
        balanced(a + b),
{
    assert forall|i: int| 0 <= i <= (a + b).len() implies #[trigger] nesting(a + b, i) >= 0 by {
        lemma_nesting_concat(a, b, i);
        if i <= a.len() {
            assert(nesting(a, i) >= 0);
        } else {
            assert(nesting(b, i - a.len()) >= 0);
        }
    }
    lemma_nesting_concat(a, b, (a + b).len() as int);
}

} // verus!
