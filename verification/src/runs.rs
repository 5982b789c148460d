//! Marked positions of a sequence and the runs they form: the positions
//! marked, in order, and the positions where a run of consecutive marked
//! positions starts. The event scheduler finds a node's immediate events by
//! the runs they form in the immediate event buffer.
use vstd::prelude::*;

verus! {

/// The marked positions below `n`, in increasing order.
pub open spec fn marked_upto(m: Seq<bool>, n: int) -> Seq<int>
    decreases n,
{
    if n <= 0 {
        Seq::empty()
    } else if m[n - 1] {
        marked_upto(m, n - 1).push(n - 1)
    } else {
        marked_upto(m, n - 1)
    }
}

/// Whether a run of marked positions starts at `i`.
pub open spec fn is_run_start(m: Seq<bool>, i: int) -> bool {
    m[i] && (i == 0 || !m[i - 1])
}

/// The positions below `n` where a run starts, in increasing order.
pub open spec fn run_starts_upto(m: Seq<bool>, n: int) -> Seq<int>
    decreases n,
{
    if n <= 0 {
        Seq::empty()
    } else if is_run_start(m, n - 1) {
        run_starts_upto(m, n - 1).push(n - 1)
    } else {
        run_starts_upto(m, n - 1)
    }
}

/// The marked positions are increasing, marked, below `n`, and all there.
pub proof fn lemma_marked_props(m: Seq<bool>, n: int)
    requires
        0 <= n <= m.len(),
    ensures
        forall|j: int| 0 <= j < marked_upto(m, n).len() ==> 0 <= #[trigger] marked_upto(m, n)[j] < n && m[marked_upto(m, n)[j]],
        forall|a: int, b: int| 0 <= a < b < marked_upto(m, n).len() ==> #[trigger] marked_upto(m, n)[a] < #[trigger] marked_upto(m, n)[b],
        forall|i: int| 0 <= i < n && m[i] ==> exists|j: int| 0 <= j < marked_upto(m, n).len() && #[trigger] marked_upto(m, n)[j] == i,
    decreases n,
{
    if n > 0 {
        lemma_marked_props(m, n - 1);
        let p = marked_upto(m, n - 1);
        let r = marked_upto(m, n);
        assert forall|i: int| 0 <= i < n && m[i] implies exists|j: int| 0 <= j < r.len() && #[trigger] r[j] == i by {
            if i < n - 1 {
                let j = choose|j: int| 0 <= j < p.len() && #[trigger] p[j] == i;
                assert(r[j] == p[j]);
            } else {
                assert(r[r.len() - 1] == i);
            }
        }
    }
}

/// The marked positions below `a` begin those below `b`.
pub proof fn lemma_marked_prefix(m: Seq<bool>, a: int, b: int)
    requires
        0 <= a <= b,
    ensures
        marked_upto(m, a).len() <= marked_upto(m, b).len(),
        marked_upto(m, b).take(marked_upto(m, a).len() as int) == marked_upto(m, a),
    decreases b,
{
    if b > a {
        lemma_marked_prefix(m, a, b - 1);
        let pa = marked_upto(m, a);
        let pb = marked_upto(m, b - 1);
        if m[b - 1] {
            assert(marked_upto(m, b).take(pa.len() as int) =~= pb.take(pa.len() as int));
        }
    } else {
        assert(marked_upto(m, b).take(marked_upto(m, a).len() as int) =~= marked_upto(m, a));
    }
}

/// No marked position in `a..b`: the marked positions below `b` are those
/// below `a`.
pub proof fn lemma_marked_gap(m: Seq<bool>, a: int, b: int)
    requires
        0 <= a <= b,
        forall|i: int| a <= i < b ==> !#[trigger] m[i],
    ensures
        marked_upto(m, b) == marked_upto(m, a),
    decreases b,
{
    if b > a {
        lemma_marked_gap(m, a, b - 1);
    }
}

/// The run starts are increasing run starts below `n`, and all there.
pub proof fn lemma_starts_props(m: Seq<bool>, n: int)
    requires
        0 <= n <= m.len(),
    ensures
        forall|j: int| 0 <= j < run_starts_upto(m, n).len() ==> 0 <= #[trigger] run_starts_upto(m, n)[j] < n && is_run_start(
            m,
            run_starts_upto(m, n)[j],
        ),
        forall|a: int, b: int| 0 <= a < b < run_starts_upto(m, n).len() ==> #[trigger] run_starts_upto(m, n)[a]
            < #[trigger] run_starts_upto(m, n)[b],
        forall|i: int| 0 <= i < n && is_run_start(m, i) ==> exists|j: int| 0 <= j < run_starts_upto(m, n).len() && #[trigger] run_starts_upto(m, n)[j] == i,
    decreases n,
{
    if n > 0 {
        lemma_starts_props(m, n - 1);
        let p = run_starts_upto(m, n - 1);
        let r = run_starts_upto(m, n);
        assert forall|i: int| 0 <= i < n && is_run_start(m, i) implies exists|j: int| 0 <= j < r.len() && #[trigger] r[j] == i by {
            if i < n - 1 {
                let j = choose|j: int| 0 <= j < p.len() && #[trigger] p[j] == i;
                assert(r[j] == p[j]);
            } else {
                assert(r[r.len() - 1] == i);
            }
        }
    }
}

/// A marked position lies in a run that starts at or before it.
pub proof fn lemma_run_start_of(m: Seq<bool>, i: int) -> (s: int)
    requires
        0 <= i < m.len(),
        m[i],
    ensures
        0 <= s <= i,
        is_run_start(m, s),
        forall|t: int| s <= t <= i ==> #[trigger] m[t],
    decreases i,
{
    if i == 0 || !m[i - 1] {
        i
    } else {
        let s = lemma_run_start_of(m, i - 1);
        assert forall|t: int| s <= t <= i implies #[trigger] m[t] by {
            if t < i {
                assert(s <= t <= i - 1);
            }
        }
        s
    }
}

/// Before the first run start nothing is marked; with no run start below
/// `n` nothing below `n` is marked.
pub proof fn lemma_nothing_before_first_run(m: Seq<bool>, n: int)
    requires
        0 <= n <= m.len(),
    ensures
        run_starts_upto(m, n).len() == 0 ==> forall|i: int| 0 <= i < n ==> !#[trigger] m[i],
        run_starts_upto(m, n).len() > 0 ==> forall|i: int| 0 <= i < run_starts_upto(m, n)[0] ==> !#[trigger] m[i],
{
    let st = run_starts_upto(m, n);
    lemma_starts_props(m, n);
    assert forall|i: int| 0 <= i < n && (st.len() == 0 || i < st[0]) implies !#[trigger] m[i] by {
        if m[i] {
            let s = lemma_run_start_of(m, i);
            let j = choose|j: int| 0 <= j < st.len() && #[trigger] st[j] == s;
            if j > 0 {
                assert(st[0] < st[j]);
            }
        }
    }
}

/// Between the end `e` of run `c` (the first unmarked position after its
/// start) and the start of run `c + 1`, nothing is marked.
pub proof fn lemma_nothing_between_runs(m: Seq<bool>, n: int, c: int, e: int)
    requires
        0 <= n <= m.len(),
        0 <= c,
        c + 1 < run_starts_upto(m, n).len(),
        run_starts_upto(m, n)[c] < e <= run_starts_upto(m, n)[c + 1],
        e < run_starts_upto(m, n)[c + 1] ==> !m[e],
    ensures
        forall|i: int| e <= i < run_starts_upto(m, n)[c + 1] ==> !#[trigger] m[i],
{
    let st = run_starts_upto(m, n);
    lemma_starts_props(m, n);
    assert forall|i: int| e <= i < st[c + 1] implies !#[trigger] m[i] by {
        if m[i] {
            let s = lemma_run_start_of(m, i);
            assert(s > e) by {
                if s <= e {
                    assert(m[e]);
                }
            }
            let j = choose|j: int| 0 <= j < st.len() && #[trigger] st[j] == s;
            if j <= c {
                assert(st[j] <= st[c]) by {
                    if j < c {
                        assert(st[j] < st[c]);
                    }
                }
            } else if j == c + 1 {
            } else {
                assert(st[c + 1] < st[j]);
            }
        }
    }
}

/// The marks below `n` decide the marked positions and run starts below
/// `n`.
pub proof fn lemma_same_prefix(m1: Seq<bool>, m2: Seq<bool>, n: int)
    requires
        0 <= n <= m1.len(),
        n <= m2.len(),
        forall|i: int| 0 <= i < n ==> m1[i] == m2[i],
    ensures
        marked_upto(m1, n) == marked_upto(m2, n),
        run_starts_upto(m1, n) == run_starts_upto(m2, n),
    decreases n,
{
    if n > 0 {
        lemma_same_prefix(m1, m2, n - 1);
        if n - 1 > 0 {
            assert(m1[n - 2] == m2[n - 2]);
        }
        assert(is_run_start(m1, n - 1) == is_run_start(m2, n - 1));
    }
}

/// Appending a mark: the new position is marked, and starts a run, as the
/// mark and the previous position say.
pub proof fn lemma_push_mark(m: Seq<bool>, b: bool)
    ensures
        marked_upto(m.push(b), (m.len() + 1) as int) == (if b {
            marked_upto(m, m.len() as int).push(m.len() as int)
        } else {
            marked_upto(m, m.len() as int)
        }),
        run_starts_upto(m.push(b), (m.len() + 1) as int) == (if b && (m.len() == 0 || !m[m.len() - 1]) {
            run_starts_upto(m, m.len() as int).push(m.len() as int)
        } else {
            run_starts_upto(m, m.len() as int)
        }),
{
    let m2 = m.push(b);
    lemma_same_prefix(m, m2, m.len() as int);
    if m.len() > 0 {
        assert(m2[m.len() - 1] == m[m.len() - 1]);
    }
}

} // verus!
