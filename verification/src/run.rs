//! The run value type: one horizontal interval of foreground pixels.

use vstd::prelude::*;

use crate::canon::{
    canon_pair, canonical, covers, foreground, lemma_fg_push, lemma_fg_take_succ, run_valid,
};

verus! {

/// A closed horizontal interval of foreground pixels: columns
/// `x_start ..= x_end` on row `y`. A well-formed run has
/// `x_start <= x_end`. The derived order is by row, then by start
/// column, then by end column.
#[derive(Debug, Clone, Copy, PartialEq, Eq, Structural, PartialOrd, Ord)]
pub struct Run {
    /// Row (y coordinate) of the run.
    pub y: i32,
    /// Column of the leftmost (starting) pixel.
    pub x_start: i32,
    /// Column of the rightmost (ending) pixel.
    pub x_end: i32,
}

/// Strict total order on runs: by row, then start column, then end column.
pub open spec fn run_lt(a: Run, b: Run) -> bool {
    ||| a.y < b.y
    ||| (a.y == b.y && a.x_start < b.x_start)
    ||| (a.y == b.y && a.x_start == b.x_start && a.x_end < b.x_end)
}

/// Non-strict version of the total order on runs.
pub open spec fn run_le(a: Run, b: Run) -> bool {
    run_lt(a, b) || a == b
}

/// Two runs overlap: they lie on the same row and their closed column
/// intervals share at least one column.
pub open spec fn runs_overlap(a: Run, b: Run) -> bool {
    a.y == b.y && a.x_start <= b.x_end && b.x_start <= a.x_end
}

/// The merge of two runs: their union interval when they overlap,
/// the first run unchanged when they do not.
pub open spec fn merged(a: Run, b: Run) -> Run {
    if runs_overlap(a, b) {
        Run {
            y: a.y,
            x_start: if a.x_start <= b.x_start {
                a.x_start
            } else {
                b.x_start
            },
            x_end: if a.x_end >= b.x_end {
                a.x_end
            } else {
                b.x_end
            },
        }
    } else {
        a
    }
}

impl Run {
    /// Whether `self` and `other` lie on the same row with intersecting
    /// column intervals.
    pub fn overlaps(self, other: Run) -> (r: bool)
        ensures
            r == runs_overlap(self, other),
    {
        self.y == other.y && self.x_start <= other.x_end && other.x_start <= self.x_end
    }

    /// Merge `self` with `other`: the union interval when they overlap,
    /// `self` unchanged otherwise.
    pub fn merge(self, other: Run) -> (r: Run)
        ensures
            r == merged(self, other),
    {
        if !self.overlaps(other) {
            return self;
        }
        Run {
            y: self.y,
            x_start: if self.x_start <= other.x_start {
                self.x_start
            } else {
                other.x_start
            },
            x_end: if self.x_end >= other.x_end {
                self.x_end
            } else {
                other.x_end
            },
        }
    }

    /// A copy of `self` with the start column replaced.
    pub fn with_x_start(self, x_start: i32) -> (r: Run)
        ensures
            r == (Run { x_start, ..self }),
    {
        Run { x_start, ..self }
    }

    /// A copy of `self` with the end column replaced.
    pub fn with_x_end(self, x_end: i32) -> (r: Run)
        ensures
            r == (Run { x_end, ..self }),
    {
        Run { x_end, ..self }
    }

    /// A copy of `self` with the row replaced.
    pub fn with_y(self, y: i32) -> (r: Run)
        ensures
            r == (Run { y, ..self }),
    {
        Run { y, ..self }
    }

    /// Canonicalize a run list in place: sort by (row, start, end), then
    /// merge every group of runs that overlap or touch on one row into the
    /// smallest enclosing interval. The foreground is unchanged, the result
    /// is canonical, and a list that is already canonical comes back
    /// unchanged, so one pass is always enough.
    pub fn merge_overlapping_runs_mut(runs: &mut Vec<Run>)
        requires
            forall|i: int| 0 <= i < old(runs)@.len() ==> run_valid(#[trigger] old(runs)@[i]),
        ensures
            canonical(final(runs)@),
            forall|x: int, y: int|
                foreground(final(runs)@, x, y) == foreground(old(runs)@, x, y),
            canonical(old(runs)@) ==> final(runs)@ == old(runs)@,
    {
        let s = sort_runs(runs);
        proof {
            assert forall|k: int| 0 <= k < s@.len() implies run_valid(#[trigger] s@[k]) by {
                let j = choose|j: int| 0 <= j < runs@.len() && runs@[j] == s@[k];
            }
        }
        let m = merge_sorted(&s);
        proof {
            lemma_fg_members(s@, runs@);
            lemma_fg_members(runs@, s@);
            if canonical(runs@) {
                lemma_canonical_implies_sorted(runs@);
                assert(s@ == runs@);
            }
        }
        *runs = m;
    }
}

/// The run list is sorted by the non-strict total order.
pub open spec fn sorted_runs(rs: Seq<Run>) -> bool {
    forall|i: int, j: int| 0 <= i < j < rs.len() ==> run_le(#[trigger] rs[i], #[trigger] rs[j])
}

/// A canonical list is sorted.
pub proof fn lemma_canonical_implies_sorted(rs: Seq<Run>)
    requires
        canonical(rs),
    ensures
        sorted_runs(rs),
{
    assert forall|i: int, j: int| 0 <= i < j < rs.len() implies run_le(
        #[trigger] rs[i],
        #[trigger] rs[j],
    ) by {
        crate::canon::lemma_canonical_ordered(rs, i, j);
    }
}

/// Every pixel covered through members of `a` is covered through `b` when
/// every run of `a` is a member of `b`.
proof fn lemma_fg_members(a: Seq<Run>, b: Seq<Run>)
    requires
        forall|k: int| 0 <= k < a.len() ==> b.contains(#[trigger] a[k]),
    ensures
        forall|x: int, y: int| foreground(a, x, y) ==> foreground(b, x, y),
{
    assert forall|x: int, y: int| foreground(a, x, y) implies foreground(b, x, y) by {
        let i = choose|i: int| 0 <= i < a.len() && covers(#[trigger] a[i], x, y);
        assert(b.contains(a[i]));
        let j = choose|j: int| 0 <= j < b.len() && b[j] == a[i];
        assert(covers(b[j], x, y));
    }
}

/// Inserting into a sequence adds exactly the new element to its members.
proof fn lemma_insert_members(s: Seq<Run>, pos: int, r: Run)
    requires
        0 <= pos <= s.len(),
    ensures
        forall|x: Run| #![trigger s.insert(pos, r).contains(x)]
            s.insert(pos, r).contains(x) == (s.contains(x) || x == r),
{
    let t = s.insert(pos, r);
    assert forall|x: Run| #![trigger s.insert(pos, r).contains(x)]
        t.contains(x) == (s.contains(x) || x == r) by {
        if t.contains(x) {
            let i = choose|i: int| 0 <= i < t.len() && t[i] == x;
            if i < pos {
                assert(s[i] == x);
                assert(s.contains(x));
            } else if i > pos {
                assert(s[i - 1] == x);
                assert(s.contains(x));
            }
        }
        if s.contains(x) {
            let i = choose|i: int| 0 <= i < s.len() && s[i] == x;
            if i < pos {
                assert(t[i] == x);
            } else {
                assert(t[i + 1] == x);
            }
            assert(t.contains(x));
        }
        if x == r {
            assert(t[pos] == r);
            assert(t.contains(x));
        }
    }
}

/// Exec comparison by the strict total order on runs.
fn run_before(a: &Run, b: &Run) -> (r: bool)
    ensures
        r == run_lt(*a, *b),
{
    if a.y != b.y {
        a.y < b.y
    } else if a.x_start != b.x_start {
        a.x_start < b.x_start
    } else {
        a.x_end < b.x_end
    }
}

/// Insertion sort by the total order on runs. A sorted input comes back
/// unchanged, and members are preserved in both directions.
#[verifier::loop_isolation(false)]
fn sort_runs(v: &Vec<Run>) -> (s: Vec<Run>)
    ensures
        s@.len() == v@.len(),
        sorted_runs(s@),
        forall|k: int| 0 <= k < s@.len() ==> v@.contains(#[trigger] s@[k]),
        forall|k: int| 0 <= k < v@.len() ==> s@.contains(#[trigger] v@[k]),
        sorted_runs(v@) ==> s@ == v@,
{
    let mut s: Vec<Run> = Vec::new();
    let mut i: usize = 0;
    while i < v.len()
        invariant
            i <= v@.len(),
            s@.len() == i as int,
            sorted_runs(s@),
            forall|k: int| 0 <= k < s@.len() ==> v@.contains(#[trigger] s@[k]),
            forall|k: int| 0 <= k < i as int ==> s@.contains(#[trigger] v@[k]),
            sorted_runs(v@) ==> s@ == v@.take(i as int),
        decreases v@.len() - i,
    {
        let r = v[i];
        let ghost prev = s@;
        let mut pos: usize = s.len();
        while pos > 0 && run_before(&r, &s[pos - 1])
            invariant
                pos <= s@.len(),
                forall|k: int| pos as int <= k < s@.len() ==> run_lt(r, #[trigger] s@[k]),
                sorted_runs(v@) ==> pos as int == s@.len(),
            decreases pos,
        {
            proof {
                if sorted_runs(v@) {
                    assert(s@[pos - 1] == v@[i - 1]);
                    assert(run_le(v@[i - 1], v@[i as int]));
                    assert(false);
                }
            }
            pos = pos - 1;
        }
        s.insert(pos, r);
        proof {
            assert(r == v@[i as int]);
            assert(s@ == prev.insert(pos as int, r));
            lemma_insert_members(prev, pos as int, r);
            assert(prev.insert(pos as int, r).contains(r));
            assert(s@.contains(v@[i as int]));
            assert forall|a: int, b: int| 0 <= a < b < s@.len() implies run_le(
                #[trigger] s@[a],
                #[trigger] s@[b],
            ) by {
                if a < pos as int && b < pos as int {
                    assert(s@[a] == prev[a] && s@[b] == prev[b]);
                } else if a < pos as int && b == pos as int {
                    assert(s@[a] == prev[a]);
                    assert(run_le(prev[a], prev[pos - 1]) || a == pos - 1);
                } else if a < pos as int && b > pos as int {
                    assert(s@[a] == prev[a] && s@[b] == prev[b - 1]);
                } else if a == pos as int {
                    assert(s@[b] == prev[b - 1]);
                } else {
                    assert(s@[a] == prev[a - 1] && s@[b] == prev[b - 1]);
                }
            }
            assert forall|k: int| 0 <= k < s@.len() implies v@.contains(#[trigger] s@[k]) by {
                assert(prev.contains(s@[k]) || s@[k] == r);
            }
            if sorted_runs(v@) {
                assert(s@ =~= v@.take(i + 1));
            }
        }
        i = i + 1;
    }
    proof {
        assert(v@.take(v@.len() as int) =~= v@);
    }
    s
}

/// One left-to-right merge pass over a sorted run list: merge every run
/// that overlaps or touches the most recently emitted run on its row into
/// that run. On sorted input a single pass yields the canonical form; on
/// input that is already canonical it changes nothing.
#[verifier::loop_isolation(false)]
#[verifier::rlimit(60)]
fn merge_sorted(s: &Vec<Run>) -> (m: Vec<Run>)
    requires
        sorted_runs(s@),
        forall|i: int| 0 <= i < s@.len() ==> run_valid(#[trigger] s@[i]),
    ensures
        canonical(m@),
        forall|x: int, y: int| foreground(m@, x, y) == foreground(s@, x, y),
        canonical(s@) ==> m@ == s@,
{
    let mut m: Vec<Run> = Vec::new();
    if s.len() == 0 {
        proof {
            assert(m@ =~= s@);
        }
        return m;
    }
    m.push(s[0]);
    proof {
        lemma_fg_push(Seq::<Run>::empty(), s@[0]);
        lemma_fg_take_succ(s@, 0);
        assert(s@.take(0int) =~= Seq::<Run>::empty());
        assert(m@ =~= s@.take(1int));
        assert(m@[0] == s@[0]);
        assert(run_valid(s@[0]));
        assert(canonical(m@));
    }
    let mut i: usize = 1;
    while i < s.len()
        invariant
            1 <= i <= s@.len(),
            m@.len() >= 1,
            canonical(m@),
            m@.last().y == s@[i - 1].y,
            m@.last().x_start <= s@[i - 1].x_start,
            forall|x: int, y: int| foreground(m@, x, y) == foreground(s@.take(i as int), x, y),
            canonical(s@) ==> m@ == s@.take(i as int),
        decreases s@.len() - i,
    {
        let cur = s[i];
        let top = m[m.len() - 1];
        let ghost prevm = m@;
        proof {
            assert(run_le(s@[i - 1], s@[i as int]));
            lemma_fg_take_succ(s@, i as int);
        }
        if top.y == cur.y && (cur.x_start as i64) <= (top.x_end as i64) + 1 {
            proof {
                if canonical(s@) {
                    assert(canon_pair(s@[i - 1], s@[i as int]));
                    assert(false);
                }
            }
            let nt = Run {
                y: top.y,
                x_start: top.x_start,
                x_end: if top.x_end >= cur.x_end {
                    top.x_end
                } else {
                    cur.x_end
                },
            };
            let last = m.len() - 1;
            proof {
                assert(run_valid(top));
                assert(run_valid(cur));
                assert(top.x_start <= cur.x_start);
                assert(cur.x_start <= top.x_end + 1);
            }
            m[last] = nt;
            proof {
                assert(m@ == prevm.update(last as int, nt));
                assert(prevm =~= prevm.take(last as int).push(top));
                assert(m@ =~= prevm.take(last as int).push(nt));
                lemma_fg_push(prevm.take(last as int), top);
                lemma_fg_push(prevm.take(last as int), nt);
                assert forall|x: int, y: int| foreground(m@, x, y) == foreground(
                    s@.take(i as int + 1),
                    x,
                    y,
                ) by {
                    // The merged interval covers exactly the union of the two.
                    assert(covers(nt, x, y) == (covers(top, x, y) || covers(cur, x, y)));
                    assert(foreground(prevm, x, y) == (foreground(prevm.take(last as int), x, y)
                        || covers(top, x, y)));
                    assert(foreground(m@, x, y) == (foreground(prevm.take(last as int), x, y)
                        || covers(nt, x, y)));
                    assert(foreground(prevm, x, y) == foreground(s@.take(i as int), x, y));
                    assert(foreground(s@.take(i as int + 1), x, y) == (foreground(
                        s@.take(i as int),
                        x,
                        y,
                    ) || covers(s@[i as int], x, y)));
                }
                assert forall|a: int| 0 <= a < m@.len() implies run_valid(#[trigger] m@[a]) by {
                    if a < last as int {
                        assert(m@[a] == prevm[a]);
                    } else {
                        assert(m@[a] == nt);
                    }
                }
                assert forall|a: int| 0 <= a && a + 1 < m@.len() implies canon_pair(
                    #[trigger] m@[a],
                    m@[a + 1],
                ) by {
                    assert(prevm[a] == m@[a]);
                    assert(canon_pair(prevm[a], prevm[a + 1]));
                    if a + 1 == last as int {
                        assert(canon_pair(prevm[a], top));
                    }
                }
                assert(m@.last() == nt);
            }
        } else {
            m.push(cur);
            proof {
                lemma_fg_push(prevm, cur);
                assert forall|x: int, y: int| foreground(m@, x, y) == foreground(
                    s@.take(i as int + 1),
                    x,
                    y,
                ) by {
                    assert(foreground(m@, x, y) == (foreground(prevm, x, y) || covers(
                        cur,
                        x,
                        y,
                    )));
                    assert(foreground(prevm, x, y) == foreground(s@.take(i as int), x, y));
                    assert(foreground(s@.take(i as int + 1), x, y) == (foreground(
                        s@.take(i as int),
                        x,
                        y,
                    ) || covers(s@[i as int], x, y)));
                }
                assert forall|a: int| 0 <= a < m@.len() implies run_valid(#[trigger] m@[a]) by {
                    if a < prevm.len() {
                        assert(m@[a] == prevm[a]);
                    } else {
                        assert(m@[a] == cur);
                    }
                }
                assert forall|a: int| 0 <= a && a + 1 < m@.len() implies canon_pair(
                    #[trigger] m@[a],
                    m@[a + 1],
                ) by {
                    if a + 1 < prevm.len() {
                        assert(m@[a] == prevm[a] && m@[a + 1] == prevm[a + 1]);
                        assert(canon_pair(prevm[a], prevm[a + 1]));
                    } else {
                        assert(m@[a] == top && m@[a + 1] == cur);
                    }
                }
                if canonical(s@) {
                    assert(m@ =~= s@.take(i as int + 1));
                }
            }
        }
        i = i + 1;
    }
    proof {
        assert(s@.take(s@.len() as int) =~= s@);
    }
    m
}

} // verus!
