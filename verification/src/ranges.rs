//! Coalescing of parameter ids into the fewest register-read requests that
//! the transport's size limit allows.

use vstd::prelude::*;
use crate::params::ParameterSpec;
use crate::params::has_id;
use crate::params::id_set;

verus! {

/// The most parameter ids that one range may span: 62 register pairs are
/// 124 registers, under the transport's ceiling of 125 for one read.
pub const MAX_SPAN: u16 = 62;

/// The most ids that may be missing between two neighbours of one range.
pub const MAX_GAP: u16 = 1;

/// The parameter ids `start_id ..= end_id`, read with one request.
#[derive(Clone, Copy, Debug, PartialEq, Eq, Structural)]
pub struct RegisterRange {
    pub start_id: u16,
    pub end_id: u16,
}

impl RegisterRange {
    /// Whether `id` lies in the range.
    pub open spec fn holds(self, id: int) -> bool {
        self.start_id <= id <= self.end_id
    }

    /// How many ids the range spans.
    pub open spec fn span(self) -> int {
        self.end_id - self.start_id + 1
    }

    /// Whether the range may grow to end at `next_id`, an id above its end:
    /// at most one id is missing in between, and the span stays in bounds.
    pub open spec fn can_take(self, next_id: u16) -> bool {
        next_id <= self.end_id + 1 + MAX_GAP && next_id - self.start_id + 1 <= MAX_SPAN
    }

    /// Whether the range is one that coalescing `ids` may produce: it
    /// starts and ends at an id of the set, spans at most 62 ids, and every
    /// id in it that is not in the set has both neighbours in the set.
    pub open spec fn fits(self, ids: Set<u16>) -> bool {
        &&& self.start_id <= self.end_id
        &&& self.span() <= MAX_SPAN
        &&& ids.contains(self.start_id)
        &&& ids.contains(self.end_id)
        &&& forall|id: u16| self.start_id < id < self.end_id ==> #[trigger] bridged(ids, id)
    }

    /// Whether the registers of the range have 16-bit addresses.
    pub open spec fn addressable(self) -> bool {
        &&& 1 <= self.start_id <= self.end_id <= crate::params::MAX_ID
        &&& self.span() <= MAX_SPAN
    }

    /// The address of the first register of the range.
    pub open spec fn offset(self) -> int {
        (self.start_id - 1) * 2
    }

    /// The number of registers of the range.
    pub open spec fn count(self) -> int {
        self.span() * 2
    }

    /// The address of the first register of the range.
    pub fn register_offset(&self) -> (address: u16)
        requires
            self.addressable(),
        ensures
            address == self.offset(),
    {
        (self.start_id - 1) * 2
    }

    /// The number of registers of the range: at most 124.
    pub fn register_count(&self) -> (count: u16)
        requires
            self.addressable(),
        ensures
            count == self.count(),
            2 <= count <= 124,
            self.offset() + count <= 65536,
    {
        (self.end_id - self.start_id + 1) * 2
    }

    /// Tells whether `id` lies in the range.
    pub fn contains(&self, id: u16) -> (inside: bool)
        ensures
            inside == self.holds(id as int),
    {
        self.start_id <= id && id <= self.end_id
    }
}

/// Whether `id` is in `ids`, or is a single missing id between two ids of
/// the set.
pub open spec fn bridged(ids: Set<u16>, id: u16) -> bool {
    ids.contains(id) || (id >= 1 && id < 65535 && ids.contains((id - 1) as u16) && ids.contains(
        (id + 1) as u16,
    ))
}

/// Whether `id` lies in one of `ranges`.
pub open spec fn covered(ranges: Seq<RegisterRange>, id: u16) -> bool {
    exists|i: int| 0 <= i < ranges.len() && (#[trigger] ranges[i]).holds(id as int)
}

/// Whether `ranges` is the coalescing of `ids`: every range fits the set,
/// the ranges ascend without touching, every id of the set lies in a
/// range, and no range can take the start of the one after it.
pub open spec fn coalesced(ids: Set<u16>, ranges: Seq<RegisterRange>) -> bool {
    &&& forall|i: int| 0 <= i < ranges.len() ==> (#[trigger] ranges[i]).fits(ids)
    &&& forall|i: int, j: int|
        0 <= i < j < ranges.len() ==> (#[trigger] ranges[i]).end_id < (#[trigger] ranges[j]).start_id
    &&& forall|id: u16| ids.contains(id) ==> #[trigger] covered(ranges, id)
    &&& forall|i: int, j: int|
        0 <= i && j == i + 1 && j < ranges.len() ==> !(#[trigger] ranges[i]).can_take(
            (#[trigger] ranges[j]).start_id,
        )
}

/// Whether `ids` ascends strictly.
pub open spec fn strictly_increasing(ids: Seq<u16>) -> bool {
    forall|i: int, j: int| 0 <= i < j < ids.len() ==> ids[i] < ids[j]
}

/// The first `k` of `ids`, as a set.
pub open spec fn prefix_set(ids: Seq<u16>, k: int) -> Set<u16> {
    Set::new(|id: u16| exists|j: int| 0 <= j < k && j < ids.len() && #[trigger] ids[j] == id)
}

/// Puts `id` in its place in the ascending `ids`, unless it is there.
fn insert_id(ids: &mut Vec<u16>, id: u16)
    requires
        strictly_increasing(old(ids)@),
    ensures
        strictly_increasing(final(ids)@),
        forall|x: u16| final(ids)@.contains(x) <==> (old(ids)@.contains(x) || x == id),
{
    let mut pos: usize = 0;
    while pos < ids.len() && ids[pos] < id
        invariant
            pos <= ids.len(),
            ids@ == old(ids)@,
            forall|j: int| 0 <= j < pos ==> ids@[j] < id,
        decreases ids.len() - pos,
    {
        pos += 1;
    }
    if pos < ids.len() && ids[pos] == id {
        assert(ids@.contains(id));
        return ;
    }
    ids.insert(pos, id);
    proof {
        let before = old(ids)@;
        let after = ids@;
        assert(after.len() == before.len() + 1);
        assert(after[pos as int] == id);
        assert forall|j: int| 0 <= j < pos implies after[j] == before[j] by {}
        assert forall|j: int| pos < j < after.len() implies after[j] == before[j - 1] by {}
        assert forall|i: int, j: int| 0 <= i < j < after.len() implies after[i] < after[j] by {
            if j < pos {
            } else if j == pos {
            } else if i < pos {
                assert(before[i] < id);
                assert(id < before[pos as int]);
                assert(before[pos as int] <= before[j - 1]);
            } else if i == pos {
                assert(before[pos as int] <= before[j - 1]);
            } else {
                assert(before[i - 1] < before[j - 1]);
            }
        }
        assert forall|x: u16| after.contains(x) <==> (before.contains(x) || x == id) by {
            if after.contains(x) {
                let j = choose|j: int| 0 <= j < after.len() && after[j] == x;
                if j < pos {
                    assert(before[j] == x);
                } else if j > pos {
                    assert(before[j - 1] == x);
                }
            }
            if before.contains(x) {
                let j = choose|j: int| 0 <= j < before.len() && before[j] == x;
                if j < pos {
                    assert(after[j] == x);
                } else {
                    assert(after[j + 1] == x);
                }
            }
        }
    }
}

/// The ids of `params_spec` in ascending order, each once.
pub fn sorted_ids(params_spec: &Vec<ParameterSpec>) -> (ids: Vec<u16>)
    ensures
        strictly_increasing(ids@),
        forall|x: u16| ids@.contains(x) <==> has_id(params_spec@, x),
{
    let mut ids: Vec<u16> = Vec::new();
    let mut k: usize = 0;
    while k < params_spec.len()
        invariant
            k <= params_spec.len(),
            strictly_increasing(ids@),
            forall|x: u16|
                ids@.contains(x) <==> exists|j: int| 0 <= j < k && #[trigger] params_spec@[j].id == x,
        decreases params_spec.len() - k,
    {
        let id: u16 = params_spec[k].id;
        insert_id(&mut ids, id);
        k += 1;
    }
    ids
}

/// What one more id changes in the set of the ids taken so far.
proof fn lemma_prefix_step(ids: Seq<u16>, k: int)
    requires
        strictly_increasing(ids),
        0 <= k < ids.len(),
    ensures
        prefix_set(ids, k + 1).contains(ids[k]),
        forall|x: u16| prefix_set(ids, k).contains(x) ==> prefix_set(ids, k + 1).contains(x),
        forall|x: u16|
            prefix_set(ids, k + 1).contains(x) ==> prefix_set(ids, k).contains(x) || x == ids[k],
        forall|x: u16| prefix_set(ids, k).contains(x) ==> x < ids[k],
        forall|x: u16| k > 0 && ids[k - 1] < x ==> !prefix_set(ids, k).contains(x),
{
    let seen = prefix_set(ids, k);
    let grown = prefix_set(ids, k + 1);
    assert(grown.contains(ids[k]));
    assert forall|x: u16| seen.contains(x) implies grown.contains(x) && x < ids[k] by {
        let j = choose|j: int| 0 <= j < k && j < ids.len() && ids[j] == x;
        assert(ids[j] == x);
        assert(ids[j] < ids[k]);
    }
    assert forall|x: u16| grown.contains(x) implies seen.contains(x) || x == ids[k] by {
        let j = choose|j: int| 0 <= j < k + 1 && j < ids.len() && ids[j] == x;
        if j < k {
            assert(ids[j] == x);
        }
    }
    assert forall|x: u16| k > 0 && ids[k - 1] < x implies !seen.contains(x) by {
        if seen.contains(x) {
            let j = choose|j: int| 0 <= j < k && j < ids.len() && ids[j] == x;
            if j < k - 1 {
                assert(ids[j] < ids[k - 1]);
            }
        }
    }
}

/// A range that fits a set of ids fits every larger set.
proof fn lemma_fits_grows(range: RegisterRange, ids: Set<u16>, more: Set<u16>)
    requires
        range.fits(ids),
        forall|x: u16| ids.contains(x) ==> more.contains(x),
    ensures
        range.fits(more),
{
    assert forall|id: u16| range.start_id < id < range.end_id implies #[trigger] bridged(
        more,
        id,
    ) by {
        assert(bridged(ids, id));
    }
}

/// Growing the last range to the next id keeps the ranges a coalescing.
proof fn lemma_grow_last(
    ids: Seq<u16>,
    k: int,
    before: Seq<RegisterRange>,
    after: Seq<RegisterRange>,
)
    requires
        strictly_increasing(ids),
        0 < k < ids.len(),
        coalesced(prefix_set(ids, k), before),
        before.len() > 0,
        before[before.len() - 1].end_id == ids[k - 1],
        before[before.len() - 1].can_take(ids[k]),
        after == before.update(
            before.len() - 1,
            RegisterRange { start_id: before[before.len() - 1].start_id, end_id: ids[k] },
        ),
    ensures
        coalesced(prefix_set(ids, k + 1), after),
{
    let n = before.len() as int;
    let current = ids[k];
    let seen = prefix_set(ids, k);
    let grown = prefix_set(ids, k + 1);
    let last = before[n - 1];
    let wider = after[n - 1];
    lemma_prefix_step(ids, k);
    assert(last.fits(seen));
    assert(ids[k - 1] < ids[k]);
    assert(wider.fits(grown)) by {
        assert forall|id: u16| wider.start_id < id < wider.end_id implies #[trigger] bridged(
            grown,
            id,
        ) by {
            if id < last.end_id {
                assert(bridged(seen, id));
            } else if id == last.end_id {
            } else {
                assert(id == last.end_id + 1);
                assert(current == last.end_id + 2);
            }
        }
    }
    assert forall|i: int| 0 <= i < after.len() implies (#[trigger] after[i]).fits(grown) by {
        if i < n - 1 {
            assert(before[i].fits(seen));
            lemma_fits_grows(before[i], seen, grown);
        }
    }
    assert forall|i: int, j: int| 0 <= i < j < after.len() implies (#[trigger] after[i]).end_id < (
    #[trigger] after[j]).start_id by {
        assert(before[i].end_id < before[j].start_id);
    }
    assert forall|id: u16| grown.contains(id) implies #[trigger] covered(after, id) by {
        if id == current {
            assert(after[n - 1].holds(id as int));
        } else {
            assert(seen.contains(id));
            assert(covered(before, id));
            let i = choose|i: int| 0 <= i < before.len() && (#[trigger] before[i]).holds(id as int);
            assert(after[i].holds(id as int));
        }
    }
    assert forall|i: int, j: int| 0 <= i && j == i + 1 && j < after.len() implies !(
    #[trigger] after[i]).can_take((#[trigger] after[j]).start_id) by {
        assert(!before[i].can_take(before[j].start_id));
    }
}

/// Opening a range at the next id, where the last range cannot take
/// it, keeps the ranges a coalescing.
proof fn lemma_open_next(
    ids: Seq<u16>,
    k: int,
    before: Seq<RegisterRange>,
    after: Seq<RegisterRange>,
)
    requires
        strictly_increasing(ids),
        0 <= k < ids.len(),
        coalesced(prefix_set(ids, k), before),
        k == 0 ==> before.len() == 0,
        k > 0 ==> before.len() > 0 && before[before.len() - 1].end_id == ids[k - 1]
            && !before[before.len() - 1].can_take(ids[k]),
        after == before.push(RegisterRange { start_id: ids[k], end_id: ids[k] }),
    ensures
        coalesced(prefix_set(ids, k + 1), after),
{
    let n = before.len() as int;
    let current = ids[k];
    let seen = prefix_set(ids, k);
    let grown = prefix_set(ids, k + 1);
    lemma_prefix_step(ids, k);
    assert(after[n].fits(grown));
    assert forall|i: int| 0 <= i < after.len() implies (#[trigger] after[i]).fits(grown) by {
        if i < n {
            assert(before[i].fits(seen));
            lemma_fits_grows(before[i], seen, grown);
        }
    }
    assert forall|i: int, j: int| 0 <= i < j < after.len() implies (#[trigger] after[i]).end_id < (
    #[trigger] after[j]).start_id by {
        if j < n {
            assert(before[i].end_id < before[j].start_id);
        } else {
            assert(before[i].fits(seen));
            assert(seen.contains(before[i].end_id));
        }
    }
    assert forall|id: u16| grown.contains(id) implies #[trigger] covered(after, id) by {
        if id == current {
            assert(after[n].holds(id as int));
        } else {
            assert(seen.contains(id));
            assert(covered(before, id));
            let i = choose|i: int| 0 <= i < before.len() && (#[trigger] before[i]).holds(id as int);
            assert(after[i].holds(id as int));
        }
    }
    assert forall|i: int, j: int| 0 <= i && j == i + 1 && j < after.len() implies !(
    #[trigger] after[i]).can_take((#[trigger] after[j]).start_id) by {
        if j < n {
            assert(!before[i].can_take(before[j].start_id));
        }
    }
}

/// Coalesces the ids of `params_spec` into register ranges: the ids are
/// taken in ascending order, each once, and a range grows to the next id
/// for as long as it can take it; where it cannot, the next range starts.
pub fn merge_ids(params_spec: &Vec<ParameterSpec>) -> (ranges: Vec<RegisterRange>)
    ensures
        coalesced(id_set(params_spec@), ranges@),
        params_spec@.len() == 0 ==> ranges@.len() == 0,
{
    let ids = sorted_ids(params_spec);
    let mut res: Vec<RegisterRange> = Vec::new();
    let mut k: usize = 0;
    while k < ids.len()
        invariant
            k <= ids.len(),
            strictly_increasing(ids@),
            coalesced(prefix_set(ids@, k as int), res@),
            k == 0 ==> res@.len() == 0,
            k > 0 ==> res@.len() > 0 && res@[res@.len() - 1].end_id == ids@[k - 1],
        decreases ids.len() - k,
    {
        let current: u16 = ids[k];
        let n: usize = res.len();
        let ghost before = res@;
        proof {
            if k > 0 {
                assert(ids@[k - 1] < ids@[k as int]);
                assert(before[n - 1].fits(prefix_set(ids@, k as int)));
            }
        }
        if n > 0 && current - res[n - 1].end_id <= 1 + MAX_GAP && current - res[n - 1].start_id
            < MAX_SPAN {
            let last: RegisterRange = res[n - 1];
            res[n - 1] = RegisterRange { start_id: last.start_id, end_id: current };
            proof {
                lemma_grow_last(ids@, k as int, before, res@);
            }
        } else {
            res.push(RegisterRange { start_id: current, end_id: current });
            proof {
                lemma_open_next(ids@, k as int, before, res@);
            }
        }
        k += 1;
    }
    proof {
        let all = prefix_set(ids@, ids@.len() as int);
        assert forall|x: u16| all.contains(x) <==> id_set(params_spec@).contains(x) by {
            if all.contains(x) {
                let j = choose|j: int| 0 <= j < ids@.len() && j < ids@.len() && ids@[j] == x;
                assert(ids@.contains(x));
            }
            if id_set(params_spec@).contains(x) {
                assert(ids@.contains(x));
                let j = choose|j: int| 0 <= j < ids@.len() && ids@[j] == x;
                assert(ids@[j] == x);
            }
        }
        assert(all =~= id_set(params_spec@));
        if params_spec@.len() == 0 && ids@.len() > 0 {
            assert(ids@.contains(ids@[0]));
        }
    }
    res
}

/// Two different ranges of a coalescing share no id.
pub proof fn lemma_ranges_disjoint(ids: Set<u16>, ranges: Seq<RegisterRange>, i: int, j: int)
    requires
        coalesced(ids, ranges),
        0 <= i < ranges.len(),
        0 <= j < ranges.len(),
        i != j,
    ensures
        forall|id: int| !(ranges[i].holds(id) && ranges[j].holds(id)),
{
    assert(ranges[i].fits(ids) && ranges[j].fits(ids));
    if i < j {
        assert(ranges[i].end_id < ranges[j].start_id);
    } else {
        assert(ranges[j].end_id < ranges[i].start_id);
    }
}

/// Every id of the set lies in exactly one range of its coalescing.
pub proof fn lemma_one_range_per_id(ids: Set<u16>, ranges: Seq<RegisterRange>, id: u16)
    requires
        coalesced(ids, ranges),
        ids.contains(id),
    ensures
        exists|i: int|
            0 <= i < ranges.len() && (#[trigger] ranges[i]).holds(id as int) && forall|j: int|
                0 <= j < ranges.len() && (#[trigger] ranges[j]).holds(id as int) ==> j == i,
{
    assert(covered(ranges, id));
    let i = choose|i: int| 0 <= i < ranges.len() && (#[trigger] ranges[i]).holds(id as int);
    assert forall|j: int| 0 <= j < ranges.len() && (#[trigger] ranges[j]).holds(
        id as int,
    ) implies j == i by {
        if j != i {
            lemma_ranges_disjoint(ids, ranges, i, j);
        }
    }
}

/// No range of a coalescing spans more than 62 ids, and none could have
/// taken in the start of the range after it: that start lies more than
/// one missing id above its end, or would stretch it beyond 62 ids.
pub proof fn lemma_ranges_bounded_and_maximal(ids: Set<u16>, ranges: Seq<RegisterRange>, i: int)
    requires
        coalesced(ids, ranges),
        0 <= i < ranges.len(),
    ensures
        1 <= ranges[i].span() <= 62,
        i + 1 < ranges.len() ==> ranges[i + 1].start_id > ranges[i].end_id + 2 || ranges[i
            + 1].start_id - ranges[i].start_id + 1 > 62,
{
    assert(ranges[i].fits(ids));
    if i + 1 < ranges.len() {
        assert(!ranges[i].can_take(ranges[i + 1].start_id));
    }
}

/// An id of the set that lies above the ends of the first `i` ranges lies
/// in a later one, so range `i` exists and starts at or below the id.
proof fn lemma_covered_later(ids: Set<u16>, ranges: Seq<RegisterRange>, id: u16, i: int)
    requires
        coalesced(ids, ranges),
        ids.contains(id),
        0 <= i <= ranges.len(),
        forall|j: int| 0 <= j < i ==> (#[trigger] ranges[j]).end_id < id,
    ensures
        i < ranges.len(),
        ranges[i].start_id <= id,
{
    assert(covered(ranges, id));
    let k = choose|k: int| 0 <= k < ranges.len() && (#[trigger] ranges[k]).holds(id as int);
    if k < i {
        assert(ranges[k].end_id < id);
    }
    if i < k {
        assert(ranges[i].fits(ids));
        assert(ranges[i].end_id < ranges[k].start_id);
    }
}

/// Of two coalescings of one set, range `i` of the first does not end
/// below range `i` of the second where both start at the same id.
proof fn lemma_end_not_below(
    ids: Set<u16>,
    a: Seq<RegisterRange>,
    b: Seq<RegisterRange>,
    i: int,
)
    requires
        coalesced(ids, a),
        coalesced(ids, b),
        0 <= i < a.len(),
        0 <= i < b.len(),
        a[i].start_id == b[i].start_id,
    ensures
        a[i].end_id >= b[i].end_id,
{
    let low = a[i].end_id;
    let high = b[i].end_id;
    assert(a[i].fits(ids));
    assert(b[i].fits(ids));
    if low < high {
        let beyond = (low + 1) as u16;
        let next: u16 = if beyond == high || ids.contains(beyond) {
            beyond
        } else {
            (low + 2) as u16
        };
        assert(ids.contains(next) && low < next <= low + 2 && next <= high) by {
            if beyond != high {
                assert(bridged(ids, beyond));
            }
        }
        assert forall|j: int| 0 <= j < i + 1 implies (#[trigger] a[j]).end_id < next by {
            if j < i {
                assert(a[j].end_id < a[i].start_id);
            }
        }
        lemma_covered_later(ids, a, next, i + 1);
        assert(!a[i].can_take(a[i + 1].start_id));
        assert(a[i].end_id < a[i + 1].start_id);
        assert(false);
    }
}

/// Two coalescings of one set agree on their first `i` ranges.
proof fn lemma_same_prefix(ids: Set<u16>, a: Seq<RegisterRange>, b: Seq<RegisterRange>, i: int)
    requires
        coalesced(ids, a),
        coalesced(ids, b),
        0 <= i <= a.len(),
    ensures
        i <= b.len(),
        forall|j: int| 0 <= j < i ==> a[j] == b[j],
    decreases i,
{
    if i > 0 {
        let k = i - 1;
        lemma_same_prefix(ids, a, b, k);
        assert(a[k].fits(ids));
        assert forall|j: int| 0 <= j < k implies (#[trigger] b[j]).end_id < a[k].start_id by {
            assert(a[j] == b[j]);
            assert(a[j].end_id < a[k].start_id);
        }
        lemma_covered_later(ids, b, a[k].start_id, k);
        assert(b[k].fits(ids));
        assert forall|j: int| 0 <= j < k implies (#[trigger] a[j]).end_id < b[k].start_id by {
            assert(a[j] == b[j]);
            assert(b[j].end_id < b[k].start_id);
        }
        lemma_covered_later(ids, a, b[k].start_id, k);
        lemma_end_not_below(ids, a, b, k);
        lemma_end_not_below(ids, b, a, k);
    }
}

/// A set of ids has one coalescing only: the conditions of `coalesced`
/// determine the ranges.
pub proof fn lemma_coalescing_unique(ids: Set<u16>, a: Seq<RegisterRange>, b: Seq<RegisterRange>)
    requires
        coalesced(ids, a),
        coalesced(ids, b),
    ensures
        a == b,
{
    lemma_same_prefix(ids, a, b, a.len() as int);
    lemma_same_prefix(ids, b, a, b.len() as int);
    assert(a =~= b);
}

} // verus!
