//! The bounded reservoir: a binary heap of lines with the smallest key on
//! top, so that the line to evict is found in logarithmic time.

use crate::line::Line;
use vstd::prelude::*;

verus! {

/// `<[T]>::swap`: exchanges the elements at two positions of a slice, both
/// of which must lie inside it.
pub assume_specification<T>[ <[T]>::swap ](slice: &mut [T], a: usize, b: usize)
    requires
        a < old(slice)@.len(),
        b < old(slice)@.len(),
    ensures
        final(slice)@ == old(slice)@.update(a as int, old(slice)@[b as int]).update(
            b as int,
            old(slice)@[a as int],
        ),
;

/// No key among the lines is NaN: any two of them can be compared.
pub open spec fn comparable(s: Seq<Line>) -> bool {
    forall|i: int| 0 <= i < s.len() ==> !(#[trigger] s[i]).key.is_nan()
}

/// The line at `i` is to be evicted no later than the line at `j`.
spec fn no_later(s: Seq<Line>, i: int, j: int) -> bool {
    !s[j].precedes(s[i])
}

/// The position above `i` in the heap.
spec fn parent(i: int) -> int {
    (i - 1) / 2
}

/// The line at `i` is not to be evicted before the line above it.
spec fn below_parent(s: Seq<Line>, i: int) -> bool {
    no_later(s, parent(i), i)
}

/// The line at `i` is not to be evicted before the line two levels above
/// it.
spec fn below_grandparent(s: Seq<Line>, i: int) -> bool {
    no_later(s, parent(parent(i)), i)
}

/// No line is to be evicted before the line above it.
spec fn heap_ordered(s: Seq<Line>) -> bool {
    forall|i: int| 0 < i < s.len() ==> #[trigger] below_parent(s, i)
}

/// Heap order with one exception: the line at `hole` may be due before the
/// line above it.
spec fn ordered_but_up(s: Seq<Line>, hole: int) -> bool {
    &&& forall|i: int| 0 < i < s.len() && i != hole ==> #[trigger] below_parent(s, i)
    &&& hole > 0 ==> forall|i: int|
        0 < i < s.len() && parent(i) == hole ==> #[trigger] below_grandparent(s, i)
}

/// Heap order with one exception: the lines below `hole` may be due before
/// the line at `hole`.
spec fn ordered_but_down(s: Seq<Line>, hole: int) -> bool {
    &&& forall|i: int| 0 < i < s.len() && parent(i) != hole ==> #[trigger] below_parent(s, i)
    &&& hole > 0 ==> forall|i: int|
        0 < i < s.len() && parent(i) == hole ==> #[trigger] below_grandparent(s, i)
}

/// The sequence with the lines at two positions exchanged.
spec fn swapped(s: Seq<Line>, a: int, b: int) -> Seq<Line> {
    s.update(a, s[b]).update(b, s[a])
}

/// Two sequences that hold the same lines are comparable together.
proof fn lemma_same_lines_comparable(a: Seq<Line>, b: Seq<Line>)
    requires
        a.to_multiset() == b.to_multiset(),
    ensures
        comparable(a) == comparable(b),
{
    broadcast use vstd::seq_lib::group_to_multiset_ensures;

    if comparable(a) {
        assert forall|i: int| 0 <= i < b.len() implies !(#[trigger] b[i]).key.is_nan() by {
            assert(b.contains(b[i]));
            assert(a.to_multiset().count(b[i]) > 0);
            assert(a.contains(b[i]));
        }
    }
    if comparable(b) {
        assert forall|i: int| 0 <= i < a.len() implies !(#[trigger] a[i]).key.is_nan() by {
            assert(a.contains(a[i]));
            assert(b.to_multiset().count(a[i]) > 0);
            assert(b.contains(a[i]));
        }
    }
}

/// A line added at the end leaves the lines comparable exactly when they
/// were and its own key is no NaN.
pub proof fn lemma_push_comparable(s: Seq<Line>, line: Line)
    ensures
        comparable(s.push(line)) == (comparable(s) && !line.key.is_nan()),
{
    let pushed = s.push(line);
    if comparable(s) && !line.key.is_nan() {
        assert forall|i: int| 0 <= i < pushed.len() implies !(#[trigger] pushed[i]).key.is_nan() by {
            if i < s.len() {
                assert(pushed[i] == s[i]);
            }
        }
    }
    if comparable(pushed) {
        assert(pushed[s.len() as int] == line);
        assert forall|i: int| 0 <= i < s.len() implies !(#[trigger] s[i]).key.is_nan() by {
            assert(pushed[i] == s[i]);
        }
    }
}

/// Exchanging two lines keeps the lines that the sequence holds.
proof fn lemma_swap_keeps_lines(s: Seq<Line>, a: int, b: int)
    requires
        0 <= a < s.len(),
        0 <= b < s.len(),
    ensures
        swapped(s, a, b).len() == s.len(),
        swapped(s, a, b).to_multiset() == s.to_multiset(),
        comparable(swapped(s, a, b)) == comparable(s),
{
    broadcast use vstd::seq_lib::group_to_multiset_ensures;
    broadcast use vstd::multiset::group_multiset_axioms;

    let s1 = s.update(a, s[b]);
    vstd::seq_lib::to_multiset_update(s, a, s[b]);
    vstd::seq_lib::to_multiset_update(s1, b, s[a]);
    assert(swapped(s, a, b).to_multiset() =~= s.to_multiset());
    lemma_same_lines_comparable(swapped(s, a, b), s);
}

/// In a heap no line is to be evicted before the top one.
proof fn lemma_top_is_least(s: Seq<Line>, i: int)
    requires
        heap_ordered(s),
        0 <= i < s.len(),
    ensures
        no_later(s, 0, i),
    decreases i,
{
    if i > 0 {
        assert(below_parent(s, i));
        lemma_top_is_least(s, parent(i));
    }
}

proof fn lemma_swap_up(s: Seq<Line>, hole: int)
    requires
        0 < hole < s.len(),
        ordered_but_up(s, hole),
        s[hole].precedes(s[parent(hole)]),
    ensures
        ordered_but_up(swapped(s, parent(hole), hole), parent(hole)),
{
    let above = parent(hole);
    let t = swapped(s, above, hole);
    assert forall|i: int| 0 < i < t.len() && i != above implies
        #[trigger] below_parent(t, i) by {
        if i == hole {
        } else if parent(i) == hole {
            assert(below_grandparent(s, i));
        } else {
            assert(below_parent(s, i));
        }
    }
    if above > 0 {
        assert forall|i: int| 0 < i < t.len() && parent(i) == above implies
            #[trigger] below_grandparent(t, i) by {
            assert(below_parent(s, above));
            if i != hole {
                assert(below_parent(s, i));
            }
        }
    }
}

proof fn lemma_swap_down(s: Seq<Line>, hole: int, child: int)
    requires
        0 <= hole < child < s.len(),
        parent(child) == hole,
        ordered_but_down(s, hole),
        s[child].precedes(s[hole]),
        forall|i: int| 0 < i < s.len() && parent(i) == hole ==> no_later(s, child, i),
    ensures
        ordered_but_down(swapped(s, hole, child), child),
{
    let t = swapped(s, hole, child);
    assert forall|i: int| 0 < i < t.len() && parent(i) != child implies #[trigger] below_parent(
        t,
        i,
    ) by {
        if i == child {
        } else if parent(i) == hole {
        } else if i == hole {
            assert(below_grandparent(s, child));
        } else {
            assert(below_parent(s, i));
        }
    }
    assert forall|i: int| 0 < i < t.len() && parent(i) == child implies
        #[trigger] below_grandparent(t, i) by {
        assert(below_parent(s, i));
    }
}

fn swap_lines(lines: &mut Vec<Line>, a: usize, b: usize)
    requires
        a < old(lines).len(),
        b < old(lines).len(),
    ensures
        final(lines)@ == swapped(old(lines)@, a as int, b as int),
{
    lines.as_mut_slice().swap(a, b);
}

/// Moves the line at `start` up until the line above it has no larger key.
fn sift_up(lines: &mut Vec<Line>, start: usize)
    requires
        start < old(lines).len(),
    ensures
        final(lines)@.len() == old(lines)@.len(),
        final(lines)@.to_multiset() == old(lines)@.to_multiset(),
        comparable(old(lines)@) && ordered_but_up(old(lines)@, start as int) ==> heap_ordered(
            final(lines)@,
        ),
{
    let ghost before = lines@;
    let ghost sound = comparable(before) && ordered_but_up(before, start as int);
    let mut hole: usize = start;
    let mut settled = false;
    while hole > 0 && !settled
        invariant
            hole < lines.len(),
            lines@.len() == before.len(),
            lines@.to_multiset() == before.to_multiset(),
            sound ==> comparable(lines@) && ordered_but_up(lines@, hole as int),
            sound && settled && hole > 0 ==> below_parent(lines@, hole as int),
        decreases hole, (if settled { 0int } else { 1int }),
    {
        let above: usize = (hole - 1) / 2;
        if lines[hole].goes_before(&lines[above]) {
            proof {
                lemma_swap_keeps_lines(lines@, above as int, hole as int);
                if sound {
                    lemma_swap_up(lines@, hole as int);
                }
            }
            swap_lines(lines, above, hole);
            hole = above;
        } else {
            settled = true;
        }
    }
}

/// Moves the line at `start` down until the lines below it have no smaller
/// key.
fn sift_down(lines: &mut Vec<Line>, start: usize)
    requires
        start < old(lines).len(),
    ensures
        final(lines)@.len() == old(lines)@.len(),
        final(lines)@.to_multiset() == old(lines)@.to_multiset(),
        comparable(old(lines)@) && ordered_but_down(old(lines)@, start as int) ==> heap_ordered(
            final(lines)@,
        ),
{
    let ghost before = lines@;
    let ghost sound = comparable(before) && ordered_but_down(before, start as int);
    let n: usize = lines.len();
    let mut hole: usize = start;
    let mut settled = false;
    while !settled
        invariant
            hole < n,
            n == lines.len(),
            lines@.len() == before.len(),
            lines@.to_multiset() == before.to_multiset(),
            sound ==> comparable(lines@) && ordered_but_down(lines@, hole as int),
            sound && settled ==> heap_ordered(lines@),
        decreases n - hole, (if settled { 0int } else { 1int }),
    {
        if hole >= n / 2 {
            settled = true;
        } else {
            let left: usize = 2 * hole + 1;
            let right: usize = left + 1;
            let mut child: usize = left;
            if right < n {
                if lines[right].goes_before(&lines[left]) {
                    child = right;
                }
            }
            if lines[child].goes_before(&lines[hole]) {
                proof {
                    lemma_swap_keeps_lines(lines@, hole as int, child as int);
                    if sound {
                        lemma_swap_down(lines@, hole as int, child as int);
                    }
                }
                swap_lines(lines, hole, child);
                hole = child;
            } else {
                settled = true;
            }
        }
    }
}

/// Takes the top line out of a heap that is not empty.
fn take_top(lines: &mut Vec<Line>) -> (out: Line)
    requires
        old(lines).len() > 0,
    ensures
        out == old(lines)@[0],
        final(lines)@.len() == old(lines)@.len() - 1,
        final(lines)@.to_multiset().insert(out) == old(lines)@.to_multiset(),
        comparable(old(lines)@) && heap_ordered(old(lines)@) ==> {
            &&& comparable(final(lines)@)
            &&& heap_ordered(final(lines)@)
            &&& forall|j: int|
                0 <= j < final(lines)@.len() ==> !(#[trigger] final(lines)@[j]).precedes(out)
        },
{
    let ghost before = lines@;
    let ghost sound = comparable(before) && heap_ordered(before);
    let top = lines.swap_remove(0);
    let ghost moved = lines@;
    proof {
        broadcast use vstd::seq_lib::group_to_multiset_ensures;
        broadcast use vstd::multiset::group_multiset_axioms;

        let replaced = before.update(0, before.last());
        vstd::seq_lib::to_multiset_update(before, 0, before.last());
        assert(moved =~= replaced.remove(before.len() - 1));
        assert(moved.to_multiset().insert(top) =~= before.to_multiset());
        if sound {
            assert forall|i: int| 0 <= i < moved.len() implies
                !(#[trigger] moved[i]).key.is_nan() by {
                if i == 0 {
                    assert(moved[i] == before[before.len() - 1]);
                } else {
                    assert(moved[i] == before[i]);
                }
            }
            assert forall|i: int| 0 < i < moved.len() && parent(i) != 0 implies
                #[trigger] below_parent(moved, i) by {
                assert(below_parent(before, i));
            }
        }
    }
    if lines.len() > 1 {
        sift_down(lines, 0);
    }
    proof {
        broadcast use vstd::seq_lib::group_to_multiset_ensures;

        if sound {
            lemma_same_lines_comparable(moved, lines@);
            assert forall|j: int| 0 <= j < lines@.len() implies
                !(#[trigger] lines@[j]).precedes(top) by {
                assert(lines@.contains(lines@[j]));
                assert(moved.to_multiset().count(lines@[j]) > 0);
                assert(moved.contains(lines@[j]));
                let k = choose|k: int| 0 <= k < moved.len() && moved[k] == lines@[j];
                if k == 0 {
                    lemma_top_is_least(before, before.len() - 1);
                } else {
                    lemma_top_is_least(before, k);
                }
            }
        }
    }
    top
}

/// What one offer does: `h` are the lines held before it and `h2` the lines
/// held after it, under the limit given. Below the limit the line is added
/// and nothing is evicted. At the limit the line is added and one line is
/// evicted, the line itself or another; unless `ambiguous`, no line that
/// stays was to be evicted before that one: none has a smaller key, and none
/// an equal key with a smaller sequence number.
pub open spec fn offered(
    h: Seq<Line>,
    line: Line,
    h2: Seq<Line>,
    evicted: Option<Line>,
    limit: nat,
    ambiguous: bool,
) -> bool {
    match evicted {
        None => {
            &&& h.len() < limit
            &&& h2.to_multiset() == h.to_multiset().insert(line)
        },
        Some(e) => {
            &&& h.len() == limit
            &&& h2.to_multiset().insert(e) == h.to_multiset().insert(line)
            &&& !ambiguous ==> forall|j: int|
                0 <= j < h2.len() ==> !(#[trigger] h2[j]).precedes(e)
        },
    }
}

/// At most `limit` lines, of which the one with the smallest key can be
/// taken out. The view is the lines in the order in which the reservoir
/// hands them out.
pub struct Reservoir {
    lines: Vec<Line>,
    capacity: usize,
    ambiguous: bool,
}

impl View for Reservoir {
    type V = Seq<Line>;

    closed spec fn view(&self) -> Seq<Line> {
        self.lines@
    }
}

impl Reservoir {
    /// The number of lines that the reservoir may hold.
    pub closed spec fn limit(&self) -> nat {
        self.capacity as nat
    }

    /// Whether a line with a NaN key was ever offered. From then on some
    /// comparisons were settled by a coin, and the reservoir promises no
    /// order among its lines.
    pub closed spec fn is_ambiguous(&self) -> bool {
        self.ambiguous
    }

    /// The reservoir is within its limit, and as long as every key offered
    /// could be compared it is a heap with the smallest key on top.
    pub closed spec fn wf(&self) -> bool {
        &&& self.lines@.len() <= self.capacity
        &&& !self.ambiguous ==> comparable(self.lines@) && heap_ordered(self.lines@)
    }

    /// An empty reservoir for up to `capacity` lines.
    pub fn new(capacity: usize) -> (out: Reservoir)
        ensures
            out.wf(),
            out@ == Seq::<Line>::empty(),
            out.limit() == capacity,
            !out.is_ambiguous(),
    {
        Reservoir { lines: Vec::new(), capacity, ambiguous: false }
    }

    /// The number of lines held.
    pub fn len(&self) -> (out: usize)
        ensures
            out == self@.len(),
    {
        self.lines.len()
    }

    /// The number of lines that the reservoir may hold.
    pub fn capacity(&self) -> (out: usize)
        ensures
            out == self.limit(),
    {
        self.capacity
    }

    /// Whether a line with a NaN key was ever offered.
    pub fn ambiguous(&self) -> (out: bool)
        ensures
            out == self.is_ambiguous(),
    {
        self.ambiguous
    }

    /// Puts a line into the reservoir and, where that takes it over its
    /// limit, evicts one line and hands it back. The evicted line is the one
    /// with the smallest key, the new line included, and among several of
    /// those the one with the smallest sequence number, as long as every key
    /// offered so far could be compared; after a NaN the choice also depends
    /// on coins.
    pub fn offer(&mut self, line: Line) -> (out: Option<Line>)
        requires
            old(self).wf(),
        ensures
            final(self).wf(),
            final(self).limit() == old(self).limit(),
            final(self).is_ambiguous() == (old(self).is_ambiguous() || line.key.is_nan()),
            offered(
                old(self)@,
                line,
                final(self)@,
                out,
                old(self).limit(),
                final(self).is_ambiguous(),
            ),
    {
        let ghost before = self.lines@;
        let ghost pushed = before.push(line);
        let last: usize = self.lines.len();
        if line.key.is_nan() {
            self.ambiguous = true;
        }
        self.lines.push(line);
        proof {
            vstd::seq_lib::to_multiset_build(before, line);
            lemma_push_comparable(before, line);
            if !self.ambiguous {
                assert forall|i: int| 0 < i < pushed.len() && i != last implies
                    #[trigger] below_parent(pushed, i) by {
                    assert(below_parent(before, i));
                }
            }
        }
        sift_up(&mut self.lines, last);
        proof {
            lemma_same_lines_comparable(pushed, self.lines@);
        }
        if self.lines.len() > self.capacity {
            let evicted = take_top(&mut self.lines);
            Some(evicted)
        } else {
            None
        }
    }

    /// The lines that the reservoir holds, in its own order.
    pub fn into_lines(self) -> (out: Vec<Line>)
        ensures
            out@ == self@,
    {
        self.lines
    }
}

} // verus!
