//! The reservoir key sampler: one pass over the rows, keeping the rows with
//! the largest keys.

use crate::binary64::{lemma_infinity_is_greatest, Binary64, INFINITY_BITS};
use crate::error::SampleError;
use crate::line::Line;
use crate::reservoir::{comparable, lemma_push_comparable, offered, Reservoir};
use crate::selection::{Selection, Standing};
use csv::StringRecord;
use vstd::prelude::*;
use vstd::relations::injective_on;
use vstd::set::{axiom_set_insert_len, axiom_set_remove_len};
use vstd::set_lib::{lemma_int_range, lemma_len_subset, lemma_map_size, set_int_range};

verus! {

/// What became of a row that was put to the sampler.
#[derive(Debug, PartialEq, Eq)]
pub enum Admission {
    /// The row is excluded and was not considered.
    Skipped,
    /// The row entered the reservoir, which had room for it.
    Kept,
    /// The row was considered, and the reservoir, being full, let go of the
    /// line given here: the row itself or an earlier one.
    Displaced(Line),
}

/// Every line carries its place in the sequence as its sequence number.
spec fn numbered(a: Seq<Line>) -> bool {
    forall|i: int| 0 <= i < a.len() ==> (#[trigger] a[i]).sequence == i
}

/// What ties the lines held, `h`, to the lines admitted so far, `a`, under
/// the limit: the lines held are admitted lines, each once; they are all of
/// them until the limit is reached and as many as the limit after; and where
/// all keys can be compared, no line still held was to be evicted before a
/// line that was let go.
spec fn tracks(a: Seq<Line>, h: Seq<Line>, limit: nat) -> bool {
    &&& numbered(a)
    &&& forall|j: int| 0 <= j < h.len() ==> a.contains(#[trigger] h[j])
    &&& h.no_duplicates()
    &&& h.len() == if a.len() <= limit { a.len() } else { limit }
    &&& a.len() <= limit ==> forall|i: int| 0 <= i < a.len() ==> h.contains(#[trigger] a[i])
    &&& comparable(a) ==> forall|i: int, j: int|
        #![trigger a[i], h[j]]
        0 <= i < a.len() && 0 <= j < h.len() && !h.contains(a[i]) ==> !h[j].precedes(a[i])
}

/// One offer keeps the tie between the lines held and the lines admitted.
proof fn lemma_offer_tracks(
    a: Seq<Line>,
    h: Seq<Line>,
    line: Line,
    h2: Seq<Line>,
    evicted: Option<Line>,
    limit: nat,
)
    requires
        tracks(a, h, limit),
        line.sequence == a.len(),
        offered(h, line, h2, evicted, limit, !comparable(a.push(line))),
    ensures
        tracks(a.push(line), h2, limit),
{
    broadcast use vstd::seq_lib::group_to_multiset_ensures;
    broadcast use vstd::multiset::group_multiset_axioms;

    let a2 = a.push(line);
    let m = h.to_multiset();
    let m2 = h2.to_multiset();
    let both = m.insert(line);
    // The new line is not among the lines held.
    if h.contains(line) {
        let i = choose|i: int| 0 <= i < a.len() && a[i] == line;
        assert(a[i].sequence == i);
    }
    assert(m.count(line) == 0);
    // No line is held twice, before or after.
    h.lemma_multiset_has_no_duplicates();
    assert forall|x: Line| both.count(x) <= 1 by {}
    assert forall|x: Line| m2.count(x) <= both.count(x) by {}
    // Every line held afterwards is an admitted line.
    assert forall|j: int| 0 <= j < h2.len() implies a2.contains(#[trigger] h2[j]) by {
        let x = h2[j];
        assert(m2.count(x) > 0);
        if x == line {
            assert(a2[a.len() as int] == line);
        } else {
            assert(h.contains(x));
            let i = choose|i: int| 0 <= i < a.len() && a[i] == x;
            assert(a2[i] == x);
        }
    }
    assert forall|x: Line| m2.contains(x) implies m2.count(x) == 1 by {}
    h2.lemma_multiset_has_no_duplicates_conv();
    assert(m2.len() == h2.len());
    match evicted {
        None => {
            assert forall|i: int| 0 <= i < a2.len() implies h2.contains(#[trigger] a2[i]) by {
                assert(m2.count(a2[i]) > 0);
            }
        },
        Some(e) => {
            assert(m2.insert(e).len() == m2.len() + 1);
            assert(both.count(e) == m2.count(e) + 1);
            if comparable(a2) {
                assert forall|i: int| 0 <= i < a.len() implies !(#[trigger] a[i]).key.is_nan() by {
                    assert(a2[i] == a[i]);
                }
                assert forall|i: int, j: int|
                    #![trigger a2[i], h2[j]]
                    0 <= i < a2.len() && 0 <= j < h2.len() && !h2.contains(
                        a2[i],
                    ) implies !h2[j].precedes(a2[i]) by {
                    let x = a2[i];
                    let y = h2[j];
                    assert(m2.count(y) > 0);
                    if both.count(x) > 0 {
                        // The line at `i` is the one evicted now.
                        assert(x == e);
                    } else if y == line {
                        // The line at `i` went before the one evicted now,
                        // and that one goes before the new line.
                        assert(h.contains(e));
                        let k = choose|k: int| 0 <= k < h.len() && h[k] == e;
                        assert(!h[k].precedes(a[i]));
                        assert(!h2[j].precedes(e));
                    } else {
                        // Both lines were there before.
                        assert(h.contains(y));
                        let k = choose|k: int| 0 <= k < h.len() && h[k] == y;
                        assert(!h[k].precedes(a[i]));
                    }
                }
            }
        },
    }
}

/// The positions of the admitted lines whose key is positive infinity.
pub open spec fn infinite_positions(a: Seq<Line>) -> Set<int> {
    Set::new(|i: int| 0 <= i < a.len() && a[i].key.is_infinity())
}

/// The positions of the admitted lines that are to be evicted after the
/// line at `i`: those with a larger key, and those with the same key that
/// came later.
pub open spec fn outranking(a: Seq<Line>, i: int) -> Set<int> {
    Set::new(|k: int| 0 <= k < a.len() && a[i].precedes(a[k]))
}

/// The positions, among the admitted lines, of the lines held.
spec fn held_positions(a: Seq<Line>, h: Seq<Line>) -> Set<int> {
    Set::new(|k: int| 0 <= k < a.len() && h.contains(a[k]))
}

/// As many positions are held as there are lines held.
proof fn lemma_held_positions(a: Seq<Line>, h: Seq<Line>, limit: nat)
    requires
        tracks(a, h, limit),
    ensures
        held_positions(a, h).finite(),
        held_positions(a, h).len() == h.len(),
{
    let place = |j: int| h[j].sequence as int;
    let slots = set_int_range(0, h.len() as int);
    lemma_int_range(0, h.len() as int);
    assert forall|j: int| 0 <= j < h.len() implies {
        &&& 0 <= place(j) < a.len()
        &&& a[place(j)] == #[trigger] h[j]
    } by {
        assert(a.contains(h[j]));
        let k = choose|k: int| 0 <= k < a.len() && a[k] == h[j];
        assert(a[k].sequence == k);
    }
    assert(injective_on(place, slots)) by {
        assert forall|x: int, y: int|
            slots.contains(x) && slots.contains(y) && #[trigger] place(x) == #[trigger] place(
                y,
            ) implies x == y by {
            assert(a[place(x)] == h[x]);
            assert(a[place(y)] == h[y]);
        }
    }
    assert forall|k: int| held_positions(a, h).contains(k) implies #[trigger] slots.map(
        place,
    ).contains(k) by {
        let j = choose|j: int| 0 <= j < h.len() && h[j] == a[k];
        assert(a[place(j)] == h[j]);
        assert(slots.contains(j) && k == place(j));
    }
    assert forall|k: int| #[trigger] slots.map(place).contains(k) implies held_positions(
        a,
        h,
    ).contains(k) by {
        let j = choose|j: int| slots.contains(j) && k == place(j);
        assert(a[place(j)] == h[j]);
    }
    assert(slots.map(place) =~= held_positions(a, h));
    lemma_map_size(slots, held_positions(a, h), place);
}

/// Where all keys can be compared and no more lines have the infinite key
/// than the limit allows, every line with the infinite key is held.
proof fn lemma_infinite_keys_stay(a: Seq<Line>, h: Seq<Line>, limit: nat, i: int)
    requires
        tracks(a, h, limit),
        comparable(a),
        infinite_positions(a).finite(),
        infinite_positions(a).len() <= limit,
        0 <= i < a.len(),
        a[i].key.is_infinity(),
    ensures
        h.contains(a[i]),
{
    if !h.contains(a[i]) {
        // Then the reservoir is full of lines with the infinite key, which
        // with the line at `i` are more than the limit.
        let held = held_positions(a, h);
        let infinite = infinite_positions(a);
        lemma_held_positions(a, h, limit);
        assert forall|k: int| #[trigger] held.insert(i).contains(k) implies infinite.contains(
            k,
        ) by {
            if k != i {
                let j = choose|j: int| 0 <= j < h.len() && h[j] == a[k];
                assert(!h[j].precedes(a[i]));
                lemma_infinity_is_greatest(a[k].key);
            }
        }
        lemma_len_subset(held.insert(i), infinite);
        axiom_set_insert_len(held, i);
    }
}

/// Where all keys can be compared, a line is held exactly when fewer lines
/// than the limit are to be evicted after it.
proof fn lemma_held_lines_are_the_top(a: Seq<Line>, h: Seq<Line>, limit: nat, i: int)
    requires
        tracks(a, h, limit),
        comparable(a),
        0 <= i < a.len(),
    ensures
        outranking(a, i).finite(),
        h.contains(a[i]) <==> outranking(a, i).len() < limit,
{
    let held = held_positions(a, h);
    let above = outranking(a, i);
    lemma_held_positions(a, h, limit);
    lemma_int_range(0, a.len() as int);
    lemma_len_subset(above, set_int_range(0, a.len() as int));
    if h.contains(a[i]) {
        let j = choose|j: int| 0 <= j < h.len() && h[j] == a[i];
        assert forall|k: int| above.contains(k) implies #[trigger] held.remove(i).contains(k) by {
            if !h.contains(a[k]) {
                assert(!h[j].precedes(a[k]));
            }
        }
        lemma_len_subset(above, held.remove(i));
        axiom_set_remove_len(held, i);
    } else {
        assert forall|k: int| held.contains(k) implies #[trigger] above.contains(k) by {
            let j = choose|j: int| 0 <= j < h.len() && h[j] == a[k];
            assert(!h[j].precedes(a[i]));
            assert(a[k].sequence == k);
            assert(a[i].sequence == i);
        }
        lemma_len_subset(held, above);
    }
}

/// The positions with the infinite key are finitely many.
proof fn lemma_infinite_positions_finite(a: Seq<Line>)
    ensures
        infinite_positions(a).finite(),
        infinite_positions(a).len() <= a.len(),
{
    lemma_int_range(0, a.len() as int);
    lemma_len_subset(infinite_positions(a), set_int_range(0, a.len() as int));
}

/// Whether a line may stand among the admitted lines of a selection: its
/// record is not excluded, a forced line has the infinite key, and another
/// line has a key that is not zero.
spec fn eligible(selection: Selection, line: Line) -> bool {
    match selection.standing_of(line.record) {
        Some(Standing::Forced) => line.key.is_infinity(),
        Some(Standing::Ordinary) => !line.key.is_zero(),
        _ => false,
    }
}

/// The reservoir key sampler. Rows are put to it one by one; it numbers the
/// rows that are not excluded and keeps up to `limit` of them.
pub struct Sampler {
    selection: Selection,
    reservoir: Reservoir,
    considered: usize,
    admitted: Ghost<Seq<Line>>,
}

impl Sampler {
    /// The identifiers forced in and out.
    pub closed spec fn selection(&self) -> Selection {
        self.selection
    }

    /// The lines in the reservoir, in the order in which it hands them out.
    pub closed spec fn held(&self) -> Seq<Line> {
        self.reservoir@
    }

    /// Every line that entered the reservoir so far, in the order of the
    /// rows, whether or not it is still held.
    pub closed spec fn admitted(&self) -> Seq<Line> {
        self.admitted@
    }

    /// The number of lines to keep.
    pub closed spec fn limit(&self) -> nat {
        self.reservoir.limit()
    }

    /// Whether some admitted line has a NaN key.
    pub closed spec fn is_ambiguous(&self) -> bool {
        self.reservoir.is_ambiguous()
    }

    /// The sampler's invariant.
    pub closed spec fn wf(&self) -> bool {
        &&& self.reservoir.wf()
        &&& self.considered == self.admitted@.len()
        &&& tracks(self.admitted@, self.reservoir@, self.reservoir.limit())
        &&& self.reservoir.is_ambiguous() == !comparable(self.admitted@)
        &&& forall|i: int|
            0 <= i < self.admitted@.len() ==> eligible(self.selection, #[trigger] self.admitted@[i])
    }

    /// The line that a row becomes when it is admitted: a forced row gets
    /// the infinite key in place of its own, and every row the number of rows
    /// admitted before it.
    pub open spec fn line_for(
        &self,
        record: StringRecord,
        weight: Binary64,
        draw: Binary64,
        key: Binary64,
    ) -> Line {
        Line {
            record,
            weight,
            draw,
            key: if self.selection().standing_of(record) == Some(Standing::Forced) {
                Binary64 { bits: INFINITY_BITS }
            } else {
                key
            },
            sequence: self.admitted().len() as usize,
        }
    }

    /// A sampler that keeps up to `limit` rows.
    pub fn new(selection: Selection, limit: usize) -> (out: Sampler)
        ensures
            out.wf(),
            out.selection() == selection,
            out.limit() == limit,
            out.held() == Seq::<Line>::empty(),
            out.admitted() == Seq::<Line>::empty(),
            !out.is_ambiguous(),
    {
        Sampler {
            selection,
            reservoir: Reservoir::new(limit),
            considered: 0,
            admitted: Ghost(Seq::empty()),
        }
    }

    /// The number of rows held.
    pub fn len(&self) -> (out: usize)
        requires
            self.wf(),
        ensures
            out == self.held().len(),
            out == if self.admitted().len() <= self.limit() {
                self.admitted().len()
            } else {
                self.limit()
            },
    {
        self.reservoir.len()
    }

    /// The number of rows admitted so far: those put to the sampler that
    /// were not excluded.
    pub fn considered(&self) -> (out: usize)
        requires
            self.wf(),
        ensures
            out == self.admitted().len(),
    {
        self.considered
    }

    /// Whether some admitted row had a NaN key, so that comparisons were
    /// settled by a coin.
    pub fn ambiguous(&self) -> (out: bool)
        ensures
            out == self.is_ambiguous(),
    {
        self.reservoir.ambiguous()
    }

    /// Tells how a row stands with the lists of this sampler.
    pub fn standing(&self, record: &StringRecord) -> (out: Option<Standing>)
        ensures
            out == self.selection().standing_of(*record),
    {
        self.selection.standing(record)
    }

    /// Ends the run: the header, unchanged, and after it the rows held, in
    /// the order in which the reservoir hands them out.
    pub fn into_rows(self, header: StringRecord) -> (out: Vec<StringRecord>)
        ensures
            out@.len() == self.held().len() + 1,
            out@[0] == header,
            forall|j: int| 0 <= j < self.held().len() ==> out@[j + 1] == self.held()[j].record,
    {
        let lines = self.reservoir.into_lines();
        let mut rows: Vec<StringRecord> = Vec::new();
        rows.push(header);
        for line in it: lines
            invariant
                rows@.len() == it.index() + 1,
                rows@[0] == header,
                forall|j: int| 0 <= j < it.index() ==> rows@[j + 1] == it.seq()[j].record,
        {
            rows.push(line.record);
        }
        rows
    }

    /// Puts one row to the sampler, with its weight, its draw and the key
    /// computed from them. An excluded row is skipped. A forced row enters
    /// with the infinite key, another row with the key given, which must not
    /// be zero. Where the reservoir is full, it lets go of the line with the
    /// smallest key, and of the earliest where several lines share that key.
    pub fn consider(
        &mut self,
        record: StringRecord,
        weight: Binary64,
        draw: Binary64,
        key: Binary64,
    ) -> (out: Result<Admission, SampleError>)
        requires
            old(self).wf(),
            old(self).admitted().len() < usize::MAX,
        ensures
            final(self).wf(),
            final(self).selection() == old(self).selection(),
            final(self).limit() == old(self).limit(),
            match old(self).selection().standing_of(record) {
                None => {
                    &&& out == Err::<Admission, SampleError>(SampleError::NoIdentifier)
                    &&& *final(self) == *old(self)
                },
                Some(Standing::Excluded) => {
                    &&& out == Ok::<Admission, SampleError>(Admission::Skipped)
                    &&& *final(self) == *old(self)
                },
                Some(_) => {
                    let line = old(self).line_for(record, weight, draw, key);
                    if line.key.is_zero() {
                        &&& out == Err::<Admission, SampleError>(SampleError::PrecisionExhausted)
                        &&& *final(self) == *old(self)
                    } else {
                        &&& final(self).admitted() == old(self).admitted().push(line)
                        &&& final(self).is_ambiguous() == (old(self).is_ambiguous()
                            || line.key.is_nan())
                        &&& match out {
                            Ok(Admission::Kept) => offered(
                                old(self).held(),
                                line,
                                final(self).held(),
                                None,
                                old(self).limit(),
                                final(self).is_ambiguous(),
                            ),
                            Ok(Admission::Displaced(evicted)) => offered(
                                old(self).held(),
                                line,
                                final(self).held(),
                                Some(evicted),
                                old(self).limit(),
                                final(self).is_ambiguous(),
                            ),
                            _ => false,
                        }
                    }
                },
            },
    {
        let standing = match self.selection.standing(&record) {
            None => {
                return Err(SampleError::NoIdentifier);
            },
            Some(Standing::Excluded) => {
                return Ok(Admission::Skipped);
            },
            Some(standing) => standing,
        };
        let ranked = match standing {
            Standing::Forced => Binary64::infinity(),
            _ => key,
        };
        if ranked.is_zero() {
            return Err(SampleError::PrecisionExhausted);
        }
        let line = Line { record, weight, draw, key: ranked, sequence: self.considered };
        let ghost entered = line;
        let ghost before = self.admitted@;
        let ghost held_before = self.reservoir@;
        let evicted = self.reservoir.offer(line);
        self.considered = self.considered + 1;
        self.admitted = Ghost(before.push(entered));
        proof {
            assert(entered == old(self).line_for(record, weight, draw, key));
            lemma_push_comparable(before, entered);
            lemma_offer_tracks(
                before,
                held_before,
                entered,
                self.reservoir@,
                evicted,
                self.reservoir.limit(),
            );
            assert forall|i: int| 0 <= i < self.admitted@.len() implies eligible(
                self.selection,
                #[trigger] self.admitted@[i],
            ) by {
                if i < before.len() {
                    assert(self.admitted@[i] == before[i]);
                }
            }
        }
        match evicted {
            None => Ok(Admission::Kept),
            Some(line) => Ok(Admission::Displaced(line)),
        }
    }
}

/// The reservoir holds every admitted row until their number reaches the
/// limit, and exactly as many rows as the limit from then on.
pub proof fn law_exact_size(s: Sampler)
    requires
        s.wf(),
    ensures
        s.held().len() == if s.admitted().len() <= s.limit() {
            s.admitted().len()
        } else {
            s.limit()
        },
{
}

/// Every line held is one of the admitted lines, found at its sequence
/// number, and no line is held twice.
pub proof fn law_held_lines_were_admitted(s: Sampler, j: int)
    requires
        s.wf(),
        0 <= j < s.held().len(),
    ensures
        0 <= s.held()[j].sequence < s.admitted().len(),
        s.admitted()[s.held()[j].sequence as int] == s.held()[j],
        s.held().no_duplicates(),
{
    let a = s.admitted();
    let h = s.held();
    assert(a.contains(h[j]));
    let k = choose|k: int| 0 <= k < a.len() && a[k] == h[j];
    assert(a[k].sequence == k);
}

/// No excluded row is ever held, and no row without an identifier.
pub proof fn law_no_excluded_row_is_held(s: Sampler, j: int)
    requires
        s.wf(),
        0 <= j < s.held().len(),
    ensures
        s.selection().standing_of(s.held()[j].record) == Some(Standing::Forced)
            || s.selection().standing_of(s.held()[j].record) == Some(Standing::Ordinary),
{
    law_held_lines_were_admitted(s, j);
    let k = s.held()[j].sequence as int;
    assert(eligible(s.selection(), s.admitted()[k]));
}

/// A forced row was admitted with the infinite key.
pub proof fn law_forced_rows_rank_highest(s: Sampler, i: int)
    requires
        s.wf(),
        0 <= i < s.admitted().len(),
        s.selection().standing_of(s.admitted()[i].record) == Some(Standing::Forced),
    ensures
        s.admitted()[i].key.is_infinity(),
{
    assert(eligible(s.selection(), s.admitted()[i]));
}

/// Every forced row that was admitted is held, as long as no admitted row
/// had a NaN key and the rows with the infinite key are no more than the
/// limit.
pub proof fn law_forced_rows_are_held(s: Sampler, i: int)
    requires
        s.wf(),
        !s.is_ambiguous(),
        infinite_positions(s.admitted()).len() <= s.limit(),
        0 <= i < s.admitted().len(),
        s.selection().standing_of(s.admitted()[i].record) == Some(Standing::Forced),
    ensures
        s.held().contains(s.admitted()[i]),
{
    law_forced_rows_rank_highest(s, i);
    lemma_infinite_positions_finite(s.admitted());
    lemma_infinite_keys_stay(s.admitted(), s.held(), s.limit(), i);
}

/// The sampler is ambiguous exactly when some admitted row had a NaN key.
pub proof fn law_ambiguity_comes_from_nan(s: Sampler)
    requires
        s.wf(),
    ensures
        s.is_ambiguous() == !comparable(s.admitted()),
{
}

/// As long as no admitted row had a NaN key, the rows held are those with
/// the largest keys, and among rows with equal keys those that came last:
/// every row that was let go was to be evicted before every row that is
/// held. So the rows held are the same whatever the order in which the
/// reservoir keeps them.
pub proof fn law_largest_keys_are_held(s: Sampler, i: int, j: int)
    requires
        s.wf(),
        !s.is_ambiguous(),
        0 <= i < s.admitted().len(),
        0 <= j < s.held().len(),
        !s.held().contains(s.admitted()[i]),
    ensures
        s.admitted()[i].precedes(s.held()[j]),
        s.admitted()[i].key.rank() <= s.held()[j].key.rank(),
{
    law_held_lines_were_admitted(s, j);
    assert(!s.held()[j].precedes(s.admitted()[i]));
}

/// Every admitted line carries its place among the admitted lines as its
/// sequence number.
pub proof fn law_admitted_lines_are_numbered(s: Sampler, i: int)
    requires
        s.wf(),
        0 <= i < s.admitted().len(),
    ensures
        s.admitted()[i].sequence == i,
{
}

/// As long as no admitted row had a NaN key, a row is held exactly when
/// fewer rows than the limit are to be evicted after it.
pub proof fn law_held_rows_are_the_top(s: Sampler, i: int)
    requires
        s.wf(),
        !s.is_ambiguous(),
        0 <= i < s.admitted().len(),
    ensures
        outranking(s.admitted(), i).finite(),
        s.held().contains(s.admitted()[i]) <==> outranking(s.admitted(), i).len() < s.limit(),
{
    lemma_held_lines_are_the_top(s.admitted(), s.held(), s.limit(), i);
}

/// A larger key never costs a row its place: of two runs over the same rows
/// that differ in the key of one row only, with no NaN key in either, the
/// run in which that key is larger holds the row if the other run does.
pub proof fn law_larger_keys_keep_their_place(s: Sampler, t: Sampler, i: int)
    requires
        s.wf(),
        t.wf(),
        !s.is_ambiguous(),
        !t.is_ambiguous(),
        s.limit() == t.limit(),
        s.admitted().len() == t.admitted().len(),
        0 <= i < s.admitted().len(),
        forall|k: int|
            0 <= k < s.admitted().len() && k != i ==> (#[trigger] t.admitted()[k]).key
                == s.admitted()[k].key,
        s.admitted()[i].key.rank() <= t.admitted()[i].key.rank(),
        s.held().contains(s.admitted()[i]),
    ensures
        t.held().contains(t.admitted()[i]),
{
    let a = s.admitted();
    let b = t.admitted();
    law_held_rows_are_the_top(s, i);
    law_held_rows_are_the_top(t, i);
    assert forall|k: int| outranking(b, i).contains(k) implies #[trigger] outranking(
        a,
        i,
    ).contains(k) by {
        assert(b[k].key == a[k].key);
        assert(a[k].sequence == k && b[k].sequence == k);
        assert(a[i].sequence == i && b[i].sequence == i);
    }
    lemma_len_subset(outranking(b, i), outranking(a, i));
}

} // verus!
