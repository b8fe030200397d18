use std::collections::HashSet;

use vstd::multiset::Multiset;
use vstd::prelude::*;

use crate::decoys::sorted_u64s;
use crate::errors::DecoyError;

verus! {

broadcast use vstd::std_specs::hash::group_hash_axioms, vstd::seq_lib::group_to_multiset_ensures, vstd::multiset::group_multiset_axioms;

/// Blocks an output stays locked after creation.
pub const LOCK_WINDOW: u64 = 10;

/// The fixed offset of outputs treated as immature when judging whether a
/// chain holds enough candidates.
pub const MATURITY: u64 = 60;

/// The window, in blocks, of the uniform fallback for ages the gamma draw
/// puts inside the chain tip.
pub const RECENT_WINDOW: u64 = 15;

/// Seconds per block.
pub const BLOCK_TIME: u64 = 120;

/// Blocks in one simulated year, the cap of the rate-estimation window.
pub const BLOCKS_PER_YEAR: u64 = 365 * 24 * 60 * 60 / 120;

/// Outputs-ever-created totals below this skip the consensus sanity pass:
/// tiny test chains cannot satisfy it.
pub const SANITY_CHECK_FLOOR: u64 = 500;

/// The height-indexed running count of outputs ever created, as served by
/// the external data source: entry `h` is the total at height `h`. The
/// count never decreases with height; an extension that would break that is
/// refused, since it can only be garbage from the data source. The cache is
/// an explicitly owned object so concurrent selections can share one behind
/// a lock and tests can build isolated instances.
pub struct OutputDistribution {
    cumulative: Vec<u64>,
}

impl View for OutputDistribution {
    type V = Seq<u64>;

    closed spec fn view(&self) -> Seq<u64> {
        self.cumulative@
    }
}

impl OutputDistribution {
    /// The invariant every cache satisfies: counts never decrease.
    pub open spec fn wf(&self) -> bool {
        sorted_u64s(self@)
    }

    /// An empty cache.
    pub fn new() -> (r: OutputDistribution)
        ensures
            r@ == Seq::<u64>::empty(),
            r.wf(),
    {
        OutputDistribution { cumulative: Vec::new() }
    }

    /// The number of heights covered.
    pub fn len(&self) -> (r: usize)
        ensures
            r == self@.len(),
    {
        self.cumulative.len()
    }

    /// The running count at one covered height.
    pub fn get(&self, h: usize) -> (r: u64)
        requires
            h < self@.len(),
        ensures
            r == self@[h as int],
    {
        self.cumulative[h]
    }

    /// The total output count at the highest covered height.
    pub fn high(&self) -> (r: u64)
        requires
            self@.len() >= 1,
        ensures
            r == self@[self@.len() - 1],
    {
        self.cumulative[self.cumulative.len() - 1]
    }

    /// Append an extension fetched from the data source. Returns false and
    /// leaves the cache unchanged when the extension is not itself
    /// nondecreasing or would dip below the cached tail: such data can only
    /// be an upstream fault, and accepting it would desynchronize every
    /// later selection.
    pub fn extend(&mut self, ext: &Vec<u64>) -> (r: bool)
        requires
            old(self).wf(),
        ensures
            final(self).wf(),
            r ==> final(self)@ == old(self)@ + ext@,
            !r ==> final(self)@ == old(self)@,
            r <==> (ext@.len() == 0 || ((old(self)@.len() == 0 || old(self)@[old(self)@.len() - 1]
                <= ext@[0]) && sorted_u64s(ext@))),
    {
        if ext.len() == 0 {
            proof {
                assert(self@ =~= self@ + ext@);
            }
            return true;
        }
        if self.cumulative.len() > 0 && self.cumulative[self.cumulative.len() - 1] > ext[0] {
            return false;
        }
        let mut k: usize = 0;
        while k + 1 < ext.len()
            invariant
                k < ext@.len() <= usize::MAX,
                self@ == old(self)@,
                self.wf(),
                forall|a: int, b: int| 0 <= a < b <= k ==> ext@[a] <= ext@[b],
            decreases ext@.len() - k,
        {
            if ext[k] > ext[k + 1] {
                return false;
            }
            k = k + 1;
        }
        proof {
            assert(sorted_u64s(ext@));
        }
        let mut j: usize = 0;
        while j < ext.len()
            invariant
                j <= ext@.len(),
                self@ == old(self)@ + ext@.take(j as int),
            decreases ext@.len() - j,
        {
            self.cumulative.push(ext[j]);
            proof {
                assert(self@ =~= old(self)@ + ext@.take(j as int + 1));
            }
            j = j + 1;
        }
        proof {
            assert(ext@.take(ext@.len() as int) =~= ext@);
            assert(sorted_u64s(self@));
        }
        true
    }

    /// Drop every entry above a height, so a request for an earlier height
    /// than previously cached cannot be served stale, too-long data.
    pub fn truncate(&mut self, keep: usize)
        requires
            old(self).wf(),
        ensures
            final(self).wf(),
            final(self)@ == old(self)@.take(
                if keep <= old(self)@.len() {
                    keep as int
                } else {
                    old(self)@.len() as int
                },
            ),
    {
        self.cumulative.truncate(keep);
        proof {
            assert(sorted_u64s(self@));
        }
    }
}

/// The global output indices already claimed by this transaction: the real
/// spends and every candidate handed out, so no index is used twice.
pub struct UsedSet {
    set: HashSet<u64>,
}

impl View for UsedSet {
    type V = Set<u64>;

    closed spec fn view(&self) -> Set<u64> {
        self.set@
    }
}

impl UsedSet {
    /// An empty set.
    pub fn new() -> (r: UsedSet)
        ensures
            r@ == Set::<u64>::empty(),
    {
        UsedSet { set: HashSet::new() }
    }

    /// Whether an index is already claimed.
    pub fn contains(&self, x: u64) -> (r: bool)
        ensures
            r == self@.contains(x),
    {
        self.set.contains(&x)
    }

    /// Claim an index.
    pub fn insert(&mut self, x: u64)
        ensures
            final(self)@ == old(self)@.insert(x),
    {
        self.set.insert(x);
    }

    /// Release an index back to the candidate pool.
    pub fn remove(&mut self, x: u64)
        ensures
            final(self)@ == old(self)@.remove(x),
    {
        self.set.remove(&x);
    }
}

/// The least index whose element is at least `x`, or the length when every
/// element is below `x`.
pub open spec fn spec_lower_bound(s: Seq<u64>, x: u64) -> int
    decreases s.len(),
{
    if s.len() == 0 {
        0
    } else if s[0] >= x {
        0
    } else {
        1 + spec_lower_bound(s.skip(1), x)
    }
}

/// On a sorted sequence the lower bound is pinned by its two sided
/// properties.
pub proof fn lemma_lower_bound_unique(s: Seq<u64>, x: u64, i: int)
    requires
        sorted_u64s(s),
        0 <= i <= s.len(),
        forall|j: int| 0 <= j < i ==> s[j] < x,
        i < s.len() ==> s[i] >= x,
    ensures
        i == spec_lower_bound(s, x),
    decreases s.len(),
{
    if s.len() == 0 {
    } else if s[0] >= x {
        assert(i == 0);
    } else {
        assert(i >= 1);
        assert forall|j: int| 0 <= j < i - 1 implies s.skip(1)[j] < x by {
            assert(s.skip(1)[j] == s[j + 1]);
        }
        assert(i - 1 < s.skip(1).len() ==> s.skip(1)[i - 1] >= x);
        lemma_lower_bound_unique(s.skip(1), x, i - 1);
    }
}

/// One candidate during ring assembly: a member together with its global
/// output index.
#[derive(PartialEq, Eq, Debug)]
pub struct IndexedMember {
    pub index: u64,
    pub member: crate::decoys::RingMember,
}

/// The mathematical shape of an [`IndexedMember`].
#[verifier::ext_equal]
pub struct IndexedMemberV {
    pub index: u64,
    pub member: crate::decoys::RingMemberV,
}

impl View for IndexedMember {
    type V = IndexedMemberV;

    open spec fn view(&self) -> IndexedMemberV {
        IndexedMemberV { index: self.index, member: self.member@ }
    }
}

impl DeepView for IndexedMember {
    type V = IndexedMemberV;

    open spec fn deep_view(&self) -> IndexedMemberV {
        self.view()
    }
}

/// A member sequence sorted by global index, nondecreasing.
pub open spec fn sorted_members(s: Seq<IndexedMemberV>) -> bool {
    forall|j: int, k: int| 0 <= j < k < s.len() ==> s[j].index <= s[k].index
}

/// A member sequence with pairwise distinct global indices.
pub open spec fn distinct_indices(s: Seq<IndexedMemberV>) -> bool {
    forall|j: int, k: int| 0 <= j < k < s.len() ==> s[j].index != s[k].index
}

/// A byte-for-byte copy of a buffer.
fn copy_bytes(v: &Vec<u8>) -> (r: Vec<u8>)
    ensures
        r@ == v@,
{
    let mut out: Vec<u8> = Vec::new();
    let mut i: usize = 0;
    while i < v.len()
        invariant
            i <= v@.len(),
            out@ == v@.take(i as int),
        decreases v@.len() - i,
    {
        out.push(v[i]);
        proof {
            assert(out@ =~= v@.take(i as int + 1));
        }
        i = i + 1;
    }
    proof {
        assert(v@.take(v@.len() as int) =~= v@);
    }
    out
}

/// A copy of a candidate that provably carries the same index, key and
/// commitment.
pub fn duplicate_member(m: &IndexedMember) -> (r: IndexedMember)
    ensures
        r@ == m@,
{
    IndexedMember {
        index: m.index,
        member: crate::decoys::RingMember {
            key: copy_bytes(&m.member.key),
            commitment: copy_bytes(&m.member.commitment),
        },
    }
}

/// Sort a list of global output indices ascending, keeping exactly the same
/// indices.
pub fn sort_indices(v: &mut Vec<u64>)
    ensures
        sorted_u64s(final(v)@),
        final(v)@.to_multiset() == old(v)@.to_multiset(),
        final(v)@.len() == old(v)@.len(),
{
    let mut out: Vec<u64> = Vec::new();
    while v.len() > 0
        invariant
            out@.to_multiset().add(v@.to_multiset()) == old(v)@.to_multiset(),
            sorted_u64s(out@),
            forall|i: int, j: int|
                0 <= i < out@.len() && 0 <= j < v@.len() ==> out@[i] <= v@[j],
            out@.len() + v@.len() == old(v)@.len(),
        decreases v@.len(),
    {
        let mut mi: usize = 0;
        let mut k: usize = 1;
        while k < v.len()
            invariant
                mi < v@.len(),
                1 <= k <= v@.len(),
                forall|j: int| 0 <= j < k ==> v@[mi as int] <= v@[j],
            decreases v@.len() - k,
        {
            if v[k] < v[mi] {
                mi = k;
            }
            k = k + 1;
        }
        let ghost vs_before = v@;
        let ghost out_before = out@;
        let x = v.remove(mi);
        out.push(x);
        proof {
            assert(vs_before[mi as int] == x);
            assert(v@ == vs_before.remove(mi as int));
            assert(vs_before.remove(mi as int).to_multiset() =~= vs_before.to_multiset().remove(x));
            assert(out@ == out_before.push(x));
            assert(out_before.push(x).to_multiset() =~= out_before.to_multiset().insert(x));
            assert(vs_before.to_multiset().count(x) >= 1) by {
                assert(vs_before[mi as int] == x);
                assert(vs_before.contains(x));
            }
            assert(out@.to_multiset().add(v@.to_multiset()) =~= out_before.to_multiset().add(
                vs_before.to_multiset(),
            ));
            assert forall|i: int, j: int|
                0 <= i < out@.len() && 0 <= j < v@.len() implies out@[i] <= v@[j] by {
                if j < mi {
                    assert(v@[j] == vs_before[j]);
                } else {
                    assert(v@[j] == vs_before[j + 1]);
                }
                if i < out_before.len() {
                    assert(out@[i] == out_before[i]);
                } else {
                    assert(out@[i] == x);
                }
            }
        }
    }
    proof {
        assert(v@.to_multiset() =~= Multiset::<u64>::empty());
        assert(out@.to_multiset().add(v@.to_multiset()) =~= out@.to_multiset());
    }
    *v = out;
}

/// Sort candidates ascending by global index, keeping exactly the same
/// members.
pub fn sort_members(v: &mut Vec<IndexedMember>)
    ensures
        sorted_members(final(v).deep_view()),
        final(v).deep_view().to_multiset() == old(v).deep_view().to_multiset(),
        final(v).deep_view().len() == old(v).deep_view().len(),
{
    let mut out: Vec<IndexedMember> = Vec::new();
    proof {
        assert(out.deep_view() =~= Seq::<IndexedMemberV>::empty());
    }
    while v.len() > 0
        invariant
            out.deep_view().to_multiset().add(v.deep_view().to_multiset()) == old(
                v,
            ).deep_view().to_multiset(),
            sorted_members(out.deep_view()),
            forall|i: int, j: int|
                0 <= i < out.deep_view().len() && 0 <= j < v.deep_view().len()
                    ==> out.deep_view()[i].index <= v.deep_view()[j].index,
            out.deep_view().len() + v.deep_view().len() == old(v).deep_view().len(),
            v.deep_view().len() == v@.len(),
        decreases v@.len(),
    {
        let mut mi: usize = 0;
        let mut k: usize = 1;
        while k < v.len()
            invariant
                mi < v@.len(),
                1 <= k <= v@.len(),
                v.deep_view().len() == v@.len(),
                forall|j: int|
                    0 <= j < k ==> v.deep_view()[mi as int].index <= v.deep_view()[j].index,
            decreases v@.len() - k,
        {
            if v[k].index < v[mi].index {
                proof {
                    assert(v.deep_view()[k as int].index == v@[k as int].index);
                    assert(v.deep_view()[mi as int].index == v@[mi as int].index);
                }
                mi = k;
            }
            k = k + 1;
        }
        let ghost vs_before = v.deep_view();
        let ghost out_before = out.deep_view();
        let x = v.remove(mi);
        let ghost xv = x@;
        out.push(x);
        proof {
            assert(vs_before[mi as int] == xv);
            assert(v.deep_view() =~= vs_before.remove(mi as int));
            assert(out.deep_view() =~= out_before.push(xv));
            assert(vs_before.remove(mi as int).to_multiset() =~= vs_before.to_multiset().remove(
                xv,
            ));
            assert(out_before.push(xv).to_multiset() =~= out_before.to_multiset().insert(xv));
            assert(v.deep_view().to_multiset() =~= vs_before.to_multiset().remove(xv));
            assert(out.deep_view().to_multiset() =~= out_before.to_multiset().insert(xv));
            assert(vs_before.to_multiset().count(xv) >= 1) by {
                assert(vs_before[mi as int] == xv);
                assert(vs_before.contains(xv));
            }
            assert(out.deep_view().to_multiset().add(v.deep_view().to_multiset())
                =~= out_before.to_multiset().add(vs_before.to_multiset()));
            assert forall|i: int, j: int|
                0 <= i < out.deep_view().len() && 0 <= j < v.deep_view().len() implies
                out.deep_view()[i].index <= v.deep_view()[j].index by {
                if j < mi {
                    assert(v.deep_view()[j] == vs_before[j]);
                } else {
                    assert(v.deep_view()[j] == vs_before[j + 1]);
                }
                if i < out_before.len() {
                    assert(out.deep_view()[i] == out_before[i]);
                } else {
                    assert(out.deep_view()[i] == xv);
                }
            }
        }
    }
    proof {
        assert(v.deep_view() =~= Seq::<IndexedMemberV>::empty());
        assert(v.deep_view().to_multiset() =~= Multiset::<IndexedMemberV>::empty());
        assert(out.deep_view().to_multiset().add(v.deep_view().to_multiset())
            =~= out.deep_view().to_multiset());
    }
    *v = out;
}

/// Binary search for the least index holding at least `x`.
pub fn lower_bound(v: &Vec<u64>, x: u64) -> (r: usize)
    requires
        sorted_u64s(v@),
    ensures
        r == spec_lower_bound(v@, x),
        r <= v@.len(),
        forall|j: int| 0 <= j < r ==> v@[j] < x,
        r < v@.len() ==> v@[r as int] >= x,
{
    let mut lo: usize = 0;
    let mut hi: usize = v.len();
    while lo < hi
        invariant
            lo <= hi <= v@.len(),
            sorted_u64s(v@),
            forall|j: int| 0 <= j < lo ==> v@[j] < x,
            forall|j: int| hi <= j < v@.len() ==> v@[j] >= x,
        decreases hi - lo,
    {
        let mid = lo + (hi - lo) / 2;
        if v[mid] < x {
            proof {
                assert(forall|j: int| 0 <= j <= mid ==> v@[j] <= v@[mid as int]);
            }
            lo = mid + 1;
        } else {
            proof {
                assert(forall|j: int| mid <= j < v@.len() ==> v@[mid as int] <= v@[j]);
            }
            hi = mid;
        }
    }
    proof {
        lemma_lower_bound_unique(v@, x, lo as int);
    }
    lo
}

/// The candidate the distribution maps an age-derived output index and a
/// random draw to: locate the bucket of same-age outputs and pick uniformly
/// within it; nothing when the index is past the chain tip or the bucket is
/// empty.
pub open spec fn spec_candidate(d: Seq<u64>, o: u64, rand: u64) -> Option<u64>
    recommends
        d.len() >= 1,
        sorted_u64s(d),
{
    let high = d[d.len() - 1];
    if o >= high {
        None
    } else {
        let i = spec_lower_bound(d, (high - 1 - o) as u64);
        let prev = if i == 0 {
            0
        } else {
            i - 1
        };
        if d[i] == d[prev] {
            None
        } else {
            Some((d[prev] + rand % (d[i] - d[prev]) as u64) as u64)
        }
    }
}

impl OutputDistribution {
    /// Map one age-derived output index and one random draw to a fresh decoy
    /// candidate: the bucket pick of [`spec_candidate`], deduplicated
    /// against, and recorded in, the used set.
    pub fn pick_candidate(&self, o: u64, rand: u64, used: &mut UsedSet) -> (r: Option<u64>)
        requires
            self.wf(),
            self@.len() >= 1,
        ensures
            match spec_candidate(self@, o, rand) {
                Some(c) => if old(used)@.contains(c) {
                    r is None && final(used)@ == old(used)@
                } else {
                    r == Some(c) && final(used)@ == old(used)@.insert(c) && c < self@[self@.len()
                        - 1]
                },
                None => r is None && final(used)@ == old(used)@,
            },
    {
        let high = self.high();
        if o >= high {
            return None;
        }
        let x = high - 1 - o;
        let i = lower_bound(&self.cumulative, x);
        proof {
            assert(self@[self@.len() - 1] >= x + 1);
            assert(i < self@.len());
        }
        let prev = if i == 0 {
            0
        } else {
            i - 1
        };
        proof {
            assert(self@[prev as int] <= self@[i as int]);
        }
        if self.cumulative[i] == self.cumulative[prev] {
            return None;
        }
        let n = self.cumulative[i] - self.cumulative[prev];
        let c = self.cumulative[prev] + rand % n;
        proof {
            assert(c < self@[i as int]);
            assert(self@[i as int] <= self@[self@.len() - 1]);
        }
        if used.contains(c) {
            return None;
        }
        used.insert(c);
        Some(c)
    }
}

/// Reject a selection request before any sampling: decoys must come from a
/// finalized height, and the chain must hold at least `inputs * ring_len`
/// outputs over the maturity offset.
pub fn begin_selection(
    dist: &OutputDistribution,
    height: usize,
    chain_height: usize,
    ring_len: usize,
    n_inputs: usize,
) -> (r: Result<(), DecoyError>)
    requires
        dist.wf(),
        dist@.len() == height + 1,
    ensures
        height >= chain_height ==> r == Err::<(), DecoyError>(DecoyError::HeightNotFinalized),
        height < chain_height ==> (r == Ok::<(), DecoyError>(()) <==> dist@[height as int] as int
            >= MATURITY + n_inputs as int * ring_len as int),
        height < chain_height && (dist@[height as int] as int) < MATURITY + n_inputs as int
            * ring_len as int ==> r == Err::<(), DecoyError>(
            DecoyError::InsufficientDecoyCandidates,
        ),
{
    if height >= chain_height {
        return Err(DecoyError::HeightNotFinalized);
    }
    let high = dist.high();
    proof {
        assert((n_inputs as int) * (ring_len as int) <= 0xffffffffffffffff * 0xffffffffffffffff)
            by (nonlinear_arith)
            requires
                0 <= n_inputs <= 0xffffffffffffffff,
                0 <= ring_len <= 0xffffffffffffffff,
        ;
    }
    let need: u128 = (n_inputs as u128) * (ring_len as u128) + (MATURITY as u128);
    if (high as u128) < need {
        return Err(DecoyError::InsufficientDecoyCandidates);
    }
    Ok(())
}

/// The window over which the recent output-creation rate is estimated: the
/// lesser of the cache length and one simulated year of blocks, and the
/// number of outputs created across it. The caller divides by the window's
/// seconds to obtain a rate.
pub fn rate_window(dist: &OutputDistribution) -> (r: (usize, u64))
    requires
        dist.wf(),
        dist@.len() >= 1,
    ensures
        r.0 as int == (if dist@.len() <= BLOCKS_PER_YEAR {
            dist@.len() as int
        } else {
            BLOCKS_PER_YEAR as int
        }),
        1 <= r.0,
        r.1 == dist@[dist@.len() - 1] - dist@[
            if dist@.len() > r.0 {
                dist@.len() - r.0 - 1
            } else {
                0
            }
        ],
{
    let len = dist.len();
    let blocks: usize = if (len as u64) <= BLOCKS_PER_YEAR {
        len
    } else {
        BLOCKS_PER_YEAR as usize
    };
    let idx: usize = if len > blocks {
        len - blocks - 1
    } else {
        0
    };
    proof {
        assert(dist@[idx as int] <= dist@[dist@.len() - 1]);
    }
    let outs = dist.high() - dist.get(idx);
    (blocks, outs)
}

/// Whether the chain is large enough for the consensus sanity pass to be
/// meaningful.
pub fn sanity_check_needed(high: u64) -> (r: bool)
    ensures
        r == (high > SANITY_CHECK_FLOOR),
{
    high > SANITY_CHECK_FLOOR
}

/// The sanity threshold: the ring's median member must lie within the upper
/// two fifths of all outputs ever created.
pub fn sanity_target(high: u64) -> (r: u64)
    ensures
        r as int == 3 * (high as int) / 5,
{
    proof {
        assert(3 * (high as int) / 5 <= high as int) by (nonlinear_arith)
            requires
                high >= 0,
        ;
        assert(3 * (high as int) / 5 >= 0) by (nonlinear_arith)
            requires
                high >= 0,
        ;
    }
    (((high as u128) * 3) / 5) as u64
}

/// On the first sampling round the real spends join the candidate batch, so
/// an observing node cannot tell a pure-decoy request from one that carries
/// the real spend. The batch is sorted and the position of each real spend
/// within it is returned.
pub fn merge_real(candidates: &mut Vec<u64>, reals: &Vec<u64>) -> (slots: Vec<usize>)
    ensures
        sorted_u64s(final(candidates)@),
        final(candidates)@.to_multiset() == old(candidates)@.to_multiset().add(
            reals@.to_multiset(),
        ),
        final(candidates)@.len() == old(candidates)@.len() + reals@.len(),
        slots@.len() == reals@.len(),
        forall|k: int|
            0 <= k < slots@.len() ==> (#[trigger] slots@[k]) < final(candidates)@.len()
                && final(candidates)@[slots@[k] as int] == reals@[k],
{
    let mut t: usize = 0;
    while t < reals.len()
        invariant
            t <= reals@.len(),
            candidates@.to_multiset() == old(candidates)@.to_multiset().add(
                reals@.take(t as int).to_multiset(),
            ),
            candidates@.len() == old(candidates)@.len() + t,
        decreases reals@.len() - t,
    {
        let ghost before = candidates@;
        candidates.push(reals[t]);
        proof {
            assert(candidates@.to_multiset() =~= before.to_multiset().insert(reals@[t as int]));
            assert(reals@.take(t as int + 1) =~= reals@.take(t as int).push(reals@[t as int]));
            assert(reals@.take(t as int + 1).to_multiset() =~= reals@.take(
                t as int,
            ).to_multiset().insert(reals@[t as int]));
            assert(candidates@.to_multiset() =~= old(candidates)@.to_multiset().add(
                reals@.take(t as int + 1).to_multiset(),
            ));
        }
        t = t + 1;
    }
    proof {
        assert(reals@.take(reals@.len() as int) =~= reals@);
    }
    sort_indices(candidates);
    let mut slots: Vec<usize> = Vec::new();
    let mut k: usize = 0;
    while k < reals.len()
        invariant
            k <= reals@.len(),
            sorted_u64s(candidates@),
            candidates@.to_multiset() == old(candidates)@.to_multiset().add(reals@.to_multiset()),
            slots@.len() == k,
            forall|j: int|
                0 <= j < k ==> (#[trigger] slots@[j]) < candidates@.len()
                    && candidates@[slots@[j] as int] == reals@[j],
        decreases reals@.len() - k,
    {
        let p = lower_bound(candidates, reals[k]);
        proof {
            assert(reals@.to_multiset().count(reals@[k as int]) >= 1) by {
                assert(reals@.contains(reals@[k as int]));
            }
            assert(candidates@.to_multiset().count(reals@[k as int]) >= 1);
            assert(candidates@.contains(reals@[k as int]));
            let w = choose|j: int| 0 <= j < candidates@.len() && candidates@[j] == reals@[k as int];
            assert(w >= p);
            assert(candidates@[p as int] <= candidates@[w] || p == w);
            assert(candidates@[p as int] == reals@[k as int]);
        }
        slots.push(p);
        k = k + 1;
    }
    slots
}

/// Whether an index is one of the real-spend slots.
fn is_real_slot(slots: &Vec<usize>, i: usize) -> (r: bool)
    ensures
        r == slots@.contains(i),
{
    let mut k: usize = 0;
    while k < slots.len()
        invariant
            k <= slots@.len(),
            forall|j: int| 0 <= j < k ==> slots@[j] != i,
        decreases slots@.len() - k,
    {
        if slots[k] == i {
            proof {
                assert(slots@[k as int] == i);
            }
            return true;
        }
        k = k + 1;
    }
    false
}

/// The members that one lookup round confirms: each candidate the data
/// source returned unlocked, except the real-spend slots, which were only
/// requested for cover.
pub open spec fn absorbed(
    cands: Seq<u64>,
    slots: Seq<usize>,
    results: Seq<Option<crate::decoys::RingMemberV>>,
    k: int,
) -> Seq<IndexedMemberV>
    decreases k,
{
    if k <= 0 {
        Seq::empty()
    } else {
        let prev = absorbed(cands, slots, results, k - 1);
        if !slots.contains(((k - 1) as usize)) && results[k - 1] is Some {
            prev.push(IndexedMemberV { index: cands[k - 1], member: results[k - 1]->Some_0 })
        } else {
            prev
        }
    }
}

/// Fold one round of unlocked-output lookups into the confirmed pool:
/// absent or locked entries are silently dropped (their indices stay
/// claimed, so they are never retried), and real-spend slots are skipped.
pub fn absorb_lookups(
    cands: &Vec<u64>,
    slots: &Vec<usize>,
    results: Vec<Option<crate::decoys::RingMember>>,
    confirmed: &mut Vec<IndexedMember>,
)
    requires
        results@.len() == cands@.len(),
    ensures
        final(confirmed).deep_view() == old(confirmed).deep_view() + absorbed(
            cands@,
            slots@,
            results.deep_view(),
            cands@.len() as int,
        ),
{
    let ghost res0 = results.deep_view();
    let ghost conf0 = confirmed.deep_view();
    let mut rest = results;
    let mut i: usize = 0;
    proof {
        assert(rest.deep_view() =~= res0.skip(0));
        assert(confirmed.deep_view() + absorbed(cands@, slots@, res0, 0) =~= confirmed.deep_view());
    }
    while i < cands.len()
        invariant
            i <= cands@.len(),
            res0.len() == cands@.len(),
            rest@.len() == res0.len() - i,
            rest.deep_view() =~= res0.skip(i as int),
            confirmed.deep_view() == conf0 + absorbed(cands@, slots@, res0, i as int),
        decreases cands@.len() - i,
    {
        let ghost rest_before = rest.deep_view();
        let ghost conf_before = confirmed.deep_view();
        let item = rest.remove(0);
        proof {
            assert(rest.deep_view() =~= rest_before.remove(0));
            assert(rest_before.remove(0) =~= res0.skip(i as int + 1));
            assert(item.deep_view() == rest_before[0]);
            assert(rest_before[0] == res0[i as int]);
        }
        let real_here = is_real_slot(slots, i);
        match item {
            Some(m) => {
                if !real_here {
                    let ghost mv = m@;
                    confirmed.push(IndexedMember { index: cands[i], member: m });
                    proof {
                        assert(confirmed.deep_view() =~= conf_before.push(
                            IndexedMemberV { index: cands@[i as int], member: mv },
                        ));
                        assert(confirmed.deep_view() =~= conf0 + absorbed(
                            cands@,
                            slots@,
                            res0,
                            i as int + 1,
                        ));
                    }
                }
            }
            None => {}
        }
        proof {
            assert(confirmed.deep_view() == conf0 + absorbed(cands@, slots@, res0, i as int + 1));
        }
        i = i + 1;
    }
}

/// Take the last `decoy_count` confirmed candidates as this input's decoys,
/// add the real spend, and sort the ring by global index.
pub fn assemble_ring(pool: &mut Vec<IndexedMember>, decoy_count: usize, real_spend: IndexedMember) -> (ring:
    Vec<IndexedMember>)
    requires
        old(pool)@.len() >= decoy_count,
    ensures
        final(pool).deep_view() == old(pool).deep_view().take(
            old(pool)@.len() - decoy_count as int,
        ),
        ring.deep_view().to_multiset() == old(pool).deep_view().skip(
            old(pool)@.len() - decoy_count as int,
        ).to_multiset().insert(real_spend@),
        sorted_members(ring.deep_view()),
        ring.deep_view().len() == decoy_count + 1,
{
    let ghost pool0 = pool.deep_view();
    let mut ring: Vec<IndexedMember> = Vec::new();
    let mut t: usize = 0;
    proof {
        assert(ring.deep_view() =~= Seq::<IndexedMemberV>::empty());
        assert(pool.deep_view().to_multiset() =~= Seq::<
            IndexedMemberV,
        >::empty().to_multiset().add(pool.deep_view().to_multiset()));
        assert(ring.deep_view().to_multiset().add(pool.deep_view().to_multiset())
            =~= pool0.to_multiset());
    }
    while t < decoy_count
        invariant
            t <= decoy_count,
            decoy_count <= pool0.len(),
            pool@.len() == pool0.len() - t,
            pool.deep_view().len() == pool0.len() - t,
            pool.deep_view() =~= pool0.take(pool0.len() - t),
            ring.deep_view().to_multiset().add(pool.deep_view().to_multiset())
                == pool0.to_multiset(),
            ring.deep_view().len() == t,
        decreases decoy_count - t,
    {
        let ghost pool_before = pool.deep_view();
        let ghost ring_before = ring.deep_view();
        let x = pool.remove(pool.len() - 1);
        let ghost xv = x@;
        ring.push(x);
        proof {
            assert(pool.deep_view() =~= pool_before.remove(pool_before.len() - 1));
            assert(pool.deep_view() =~= pool0.take(pool0.len() - t - 1));
            assert(ring.deep_view() =~= ring_before.push(xv));
            assert(pool_before[pool_before.len() - 1] == xv);
            assert(pool_before.remove(pool_before.len() - 1).to_multiset()
                =~= pool_before.to_multiset().remove(xv));
            assert(ring_before.push(xv).to_multiset() =~= ring_before.to_multiset().insert(xv));
            assert(pool_before.to_multiset().count(xv) >= 1) by {
                assert(pool_before.contains(xv));
            }
            assert(ring.deep_view().to_multiset().add(pool.deep_view().to_multiset())
                =~= ring_before.to_multiset().add(pool_before.to_multiset()));
        }
        t = t + 1;
    }
    let ghost cut = pool0.len() - decoy_count as int;
    proof {
        vstd::seq_lib::lemma_multiset_commutative(pool0.take(cut), pool0.skip(cut));
        assert(pool0.take(cut) + pool0.skip(cut) =~= pool0);
        let rm = ring.deep_view().to_multiset();
        let tm = pool0.take(cut).to_multiset();
        let sm = pool0.skip(cut).to_multiset();
        assert(rm.add(tm) == tm.add(sm));
        assert forall|x: IndexedMemberV| rm.count(x) == sm.count(x) by {
            assert(rm.add(tm).count(x) == rm.count(x) + tm.count(x));
            assert(tm.add(sm).count(x) == tm.count(x) + sm.count(x));
        }
        assert(rm =~= sm);
    }
    let ghost prev_dv = ring.deep_view();
    ring.push(real_spend);
    proof {
        assert(ring.deep_view() =~= prev_dv.push(real_spend@));
        assert(prev_dv.push(real_spend@).to_multiset() =~= prev_dv.to_multiset().insert(
            real_spend@,
        ));
    }
    sort_members(&mut ring);
    ring
}

/// One pass of the consensus sanity rule. When the ring's median member
/// already sits at or above the target, nothing changes and no refill is
/// needed. Otherwise the bottom half of the ring is dropped — the real
/// spend, if it was among the dropped, is put back, and every other dropped
/// index is released for reuse — and the number of fresh decoys needed to
/// refill the ring is returned. Every member the pass keeps sits at or above
/// the old median, so each pass strictly raises the floor of retained
/// indices.
pub fn sanity_prune(
    ring: &mut Vec<IndexedMember>,
    ring_len: usize,
    target: u64,
    real_spend: &IndexedMember,
    used: &mut UsedSet,
) -> (needed: usize)
    requires
        old(ring)@.len() == ring_len,
        ring_len >= 1,
        sorted_members(old(ring).deep_view()),
    ensures
        old(ring).deep_view()[ring_len as int / 2].index >= target ==> needed == 0 && final(ring).deep_view() == old(ring).deep_view() && final(used)@ == old(used)@,
        old(ring).deep_view()[ring_len as int / 2].index < target ==> {
            &&& final(ring).deep_view() == (if (exists|j: int|
                0 <= j < ring_len as int / 2 && (#[trigger] old(ring).deep_view()[j]).index
                    == real_spend@.index) {
                old(ring).deep_view().skip(ring_len as int / 2).push(real_spend@)
            } else {
                old(ring).deep_view().skip(ring_len as int / 2)
            })
            &&& needed == ring_len - final(ring).deep_view().len()
            &&& (forall|x: u64|
                final(used)@.contains(x) <==> (old(used)@.contains(x) && !(exists|j: int|
                    0 <= j < ring_len as int / 2 && (#[trigger] old(ring).deep_view()[j]).index
                        == x && x != real_spend@.index)))
            &&& (forall|j: int|
                0 <= j < final(ring).deep_view().len() ==> (#[trigger] final(ring).deep_view()[j]).index >= old(ring).deep_view()[ring_len as int / 2].index
                    || final(ring).deep_view()[j] == real_spend@)
        },
{
    let half = ring_len / 2;
    if ring[half].index >= target {
        proof {
            assert(ring.deep_view()[half as int].index == ring@[half as int].index);
        }
        return 0;
    }
    let ghost ring0 = ring.deep_view();
    let mut found_real = false;
    let mut k: usize = 0;
    while k < half
        invariant
            k <= half,
            half < ring0.len(),
            ring@.len() == ring0.len() - k,
            ring.deep_view() =~= ring0.skip(k as int),
            found_real == (exists|j: int|
                0 <= j < k && (#[trigger] ring0[j]).index == real_spend@.index),
            forall|x: u64|
                used@.contains(x) <==> (old(used)@.contains(x) && !(exists|j: int|
                    0 <= j < k && (#[trigger] ring0[j]).index == x && x != real_spend@.index)),
        decreases half - k,
    {
        let ghost ring_before = ring.deep_view();
        let m = ring.remove(0);
        proof {
            assert(ring.deep_view() =~= ring_before.remove(0));
            assert(ring.deep_view() =~= ring0.skip(k as int + 1));
            assert(m@ == ring_before[0]);
            assert(ring_before[0] == ring0[k as int]);
        }
        if m.index == real_spend.index {
            found_real = true;
        } else {
            used.remove(m.index);
        }
        k = k + 1;
    }
    if found_real {
        let ghost before = ring.deep_view();
        ring.push(duplicate_member(real_spend));
        proof {
            assert(ring.deep_view() =~= before.push(real_spend@));
        }
    }
    proof {
        assert forall|j: int| 0 <= j < ring.deep_view().len() implies (#[trigger] ring.deep_view()[j]).index
            >= ring0[half as int].index || ring.deep_view()[j] == real_spend@ by {
            if j < ring0.len() - half {
                assert(ring.deep_view()[j] == ring0[half + j]);
            }
        }
    }
    ring_len - ring.len()
}

/// Assemble the final record for one input: locate the real spend's sorted
/// position, delta-encode the ring's global indices, and pair each member
/// with its key and commitment. The record's `i` names the true spend's
/// position in the ring.
pub fn finish_ring(ring: Vec<IndexedMember>, real_index: u64) -> (r: crate::decoys::Decoys)
    requires
        1 <= ring@.len() <= 256,
        sorted_members(ring.deep_view()),
        distinct_indices(ring.deep_view()),
        exists|k: int| 0 <= k < ring@.len() && (#[trigger] ring.deep_view()[k]).index == real_index,
    ensures
        r@.ring.len() == ring@.len(),
        r@.offsets.len() == ring@.len(),
        (r@.i as int) < ring@.len(),
        ring.deep_view()[r@.i as int].index == real_index,
        forall|k: int|
            0 <= k < ring@.len() ==> r@.ring[k] == (#[trigger] ring.deep_view()[k]).member,
        forall|k: int|
            0 <= k < ring@.len() && (#[trigger] ring.deep_view()[k]).index == real_index
                ==> r@.ring[r@.i as int] == ring.deep_view()[k].member,
        r@.offsets == crate::decoys::offsets_of(
            Seq::new(ring@.len(), |k: int| ring.deep_view()[k].index),
        ),
{
    let ghost dv0 = ring.deep_view();
    let n = ring.len();
    let mut rest = ring;
    let mut indices: Vec<u64> = Vec::new();
    let mut members: Vec<crate::decoys::RingMember> = Vec::new();
    let mut t: usize = 0;
    proof {
        assert(rest.deep_view() =~= dv0.skip(0));
        assert(members.deep_view() =~= Seq::<crate::decoys::RingMemberV>::empty());
    }
    while t < n
        invariant
            t <= n,
            n == dv0.len(),
            rest@.len() == n - t,
            rest.deep_view() =~= dv0.skip(t as int),
            indices@.len() == t,
            members.deep_view().len() == t,
            forall|k: int|
                0 <= k < t ==> indices@[k] == (#[trigger] dv0[k]).index && members.deep_view()[k]
                    == dv0[k].member,
        decreases n - t,
    {
        let ghost rest_before = rest.deep_view();
        let m = rest.remove(0);
        proof {
            assert(rest.deep_view() =~= rest_before.remove(0));
            assert(rest.deep_view() =~= dv0.skip(t as int + 1));
            assert(m@ == rest_before[0]);
            assert(rest_before[0] == dv0[t as int]);
        }
        indices.push(m.index);
        members.push(m.member);
        t = t + 1;
    }
    proof {
        assert forall|a: int, b: int| 0 <= a < b < indices@.len() implies indices@[a]
            <= indices@[b] by {
            assert(indices@[a] == dv0[a].index);
            assert(indices@[b] == dv0[b].index);
            assert(dv0[a].index <= dv0[b].index);
        }
        assert(sorted_u64s(indices@));
    }
    let p = lower_bound(&indices, real_index);
    proof {
        let w = choose|k: int| 0 <= k < dv0.len() && (#[trigger] dv0[k]).index == real_index;
        assert(indices@[w] == real_index);
        assert(w >= p);
        assert(p < indices@.len());
        assert(indices@[p as int] == real_index);
    }
    let offsets = crate::decoys::offset(indices.as_slice());
    let d = crate::decoys::Decoys { i: p as u8, offsets, ring: members };
    proof {
        assert(d@.ring =~= d.ring.deep_view());
        assert(d@.offsets =~= d.offsets@);
        assert(Seq::new(dv0.len(), |k: int| dv0[k].index) =~= indices@);
        assert forall|k: int|
            0 <= k < dv0.len() && (#[trigger] dv0[k]).index == real_index implies d@.ring[
            d@.i as int] == dv0[k].member by {
            assert(dv0[k].index == dv0[p as int].index);
            if k != p {
                assert(false);
            }
        }
    }
    d
}

} // verus!
