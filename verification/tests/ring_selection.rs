use monero_ringct::decoys::{offsets_to_indices, RingMember};
use monero_ringct::errors::DecoyError;
use monero_ringct::selection::{
    absorb_lookups, assemble_ring, begin_selection, duplicate_member, finish_ring, merge_real,
    rate_window, sanity_check_needed, sanity_prune, sanity_target, sort_indices, sort_members,
    IndexedMember, OutputDistribution, UsedSet, MATURITY,
};

struct Lcg(u64);

impl Lcg {
    fn next(&mut self) -> u64 {
        self.0 = self.0.wrapping_mul(6364136223846793005).wrapping_add(1442695040888963407);
        self.0
    }
}

fn tagged_member(index: u64) -> RingMember {
    let mut key = vec![0u8; 32];
    key[..8].copy_from_slice(&index.to_le_bytes());
    key[8] = 0xaa;
    let mut commitment = vec![0u8; 32];
    commitment[..8].copy_from_slice(&index.to_le_bytes());
    commitment[8] = 0xbb;
    RingMember { key, commitment }
}

fn indexed(index: u64) -> IndexedMember {
    IndexedMember { index, member: tagged_member(index) }
}

fn synthetic_distribution(heights: usize, per_block: u64) -> OutputDistribution {
    let mut d = OutputDistribution::new();
    let ext: Vec<u64> = (0..heights).map(|h| (h as u64 + 1) * per_block).collect();
    assert!(d.extend(&ext));
    d
}

#[test]
fn distribution_refuses_garbage_extensions() {
    let mut d = synthetic_distribution(4, 10);
    // Dips below the cached tail.
    assert!(!d.extend(&vec![5, 50]));
    assert_eq!(d.len(), 4);
    // Not nondecreasing in itself.
    assert!(!d.extend(&vec![60, 50]));
    // A proper extension is taken.
    assert!(d.extend(&vec![41, 42]));
    assert_eq!(d.len(), 6);
    assert_eq!(d.high(), 42);
    d.truncate(3);
    assert_eq!(d.len(), 3);
    assert_eq!(d.high(), 30);
}

#[test]
fn insufficient_candidates_detected_before_sampling() {
    // high == MATURITY + inputs * ring_len - 1: one output short.
    let inputs = 2usize;
    let ring_len = 11usize;
    let shortfall = MATURITY + (inputs * ring_len) as u64 - 1;
    let mut d = OutputDistribution::new();
    assert!(d.extend(&vec![shortfall / 2, shortfall]));
    assert_eq!(
        begin_selection(&d, 1, 2, ring_len, inputs),
        Err(DecoyError::InsufficientDecoyCandidates)
    );
    // Exactly enough mature outputs is accepted.
    let mut d2 = OutputDistribution::new();
    assert!(d2.extend(&vec![shortfall / 2, shortfall + 1]));
    assert_eq!(begin_selection(&d2, 1, 2, ring_len, inputs), Ok(()));
}

#[test]
fn unfinalized_height_rejected() {
    let d = synthetic_distribution(5, 100);
    assert_eq!(
        begin_selection(&d, 4, 4, 11, 1),
        Err(DecoyError::HeightNotFinalized)
    );
    assert_eq!(begin_selection(&d, 4, 5, 11, 1), Ok(()));
}

#[test]
fn rate_window_spans_the_cache_or_a_year() {
    let d = synthetic_distribution(3, 0);
    let mut d2 = OutputDistribution::new();
    assert!(d2.extend(&vec![5, 10, 30]));
    let (blocks, outs) = rate_window(&d2);
    assert_eq!(blocks, 3);
    assert_eq!(outs, 25);
    drop(d);
}

#[test]
fn candidate_bucket_mapping_is_exact() {
    let mut d = OutputDistribution::new();
    assert!(d.extend(&vec![10, 10, 20]));
    let mut used = UsedSet::new();
    // high = 20, age index 5 lands in the bucket (10, 20]; draw 3 picks 13.
    assert_eq!(d.pick_candidate(5, 3, &mut used), Some(13));
    // The same index is never handed out twice.
    assert_eq!(d.pick_candidate(5, 3, &mut used), None);
    // An age index past the tip yields nothing.
    assert_eq!(d.pick_candidate(20, 0, &mut used), None);
    // An empty bucket yields nothing: age 9 maps to count 10, held by the
    // flat prefix.
    assert_eq!(d.pick_candidate(9, 4, &mut used), None);
}

#[test]
fn real_spends_hide_inside_the_candidate_batch() {
    let mut candidates: Vec<u64> = vec![5, 1];
    let reals: Vec<u64> = vec![3];
    let slots = merge_real(&mut candidates, &reals);
    assert_eq!(candidates, vec![1, 3, 5]);
    assert_eq!(slots, vec![1]);
}

#[test]
fn lookup_results_absorb_without_the_real_slots() {
    let cands: Vec<u64> = vec![1, 3, 5];
    let slots: Vec<usize> = vec![1];
    let results = vec![Some(tagged_member(1)), Some(tagged_member(3)), None];
    let mut confirmed: Vec<IndexedMember> = Vec::new();
    absorb_lookups(&cands, &slots, results, &mut confirmed);
    assert_eq!(confirmed.len(), 1);
    assert_eq!(confirmed[0].index, 1);
    assert_eq!(confirmed[0].member, tagged_member(1));
}

#[test]
fn rings_assemble_sorted_with_the_real_spend() {
    let mut pool = vec![indexed(50), indexed(9), indexed(30)];
    let ring = assemble_ring(&mut pool, 2, indexed(12));
    assert_eq!(pool.len(), 1);
    assert_eq!(pool[0].index, 50);
    let ids: Vec<u64> = ring.iter().map(|m| m.index).collect();
    assert_eq!(ids, vec![9, 12, 30]);
}

#[test]
fn sanity_prune_keeps_the_upper_half_and_readds_the_real_spend() {
    let mut used = UsedSet::new();
    for x in [1u64, 2, 10, 11, 12] {
        used.insert(x);
    }
    let mut ring = vec![indexed(1), indexed(2), indexed(10), indexed(11), indexed(12)];
    // Median 10 already clears a target of 8: nothing changes.
    assert_eq!(sanity_prune(&mut ring, 5, 8, &indexed(2), &mut used), 0);
    assert_eq!(ring.len(), 5);
    // Against a target of 11 the bottom half is dropped and the real spend
    // (index 2) is put back.
    let needed = sanity_prune(&mut ring, 5, 11, &indexed(2), &mut used);
    assert_eq!(needed, 1);
    let ids: Vec<u64> = ring.iter().map(|m| m.index).collect();
    assert_eq!(ids, vec![10, 11, 12, 2]);
    // The dropped non-real index was released; the real one stays claimed.
    assert!(!used.contains(1));
    assert!(used.contains(2));
    assert!(used.contains(10));
}

#[test]
fn finished_ring_links_the_real_spend() {
    let ring = vec![indexed(3), indexed(8), indexed(20)];
    let d = finish_ring(ring, 8);
    assert_eq!(d.i, 1);
    assert_eq!(d.offsets, vec![3, 5, 12]);
    assert_eq!(d.ring.len(), 3);
    assert_eq!(d.ring[1], tagged_member(8));
}

/// The end-to-end drive a wallet performs, against a synthetic chain and a
/// deterministic sampler: fill the pool with retries, build one ring per
/// input, run the sanity pass to completion, and check every emitted record.
#[test]
fn selection_terminates_with_sane_rings() {
    let heights = 1200usize;
    let per_block = 10u64;
    let dist = synthetic_distribution(heights, per_block);
    let high = dist.high();
    assert!(sanity_check_needed(high));
    let target = sanity_target(high);
    assert_eq!(target, high * 3 / 5);

    let ring_len = 11usize;
    let reals = vec![indexed(7000), indexed(40)];
    let height = heights - 1;
    assert_eq!(begin_selection(&dist, height, heights, ring_len, reals.len()), Ok(()));

    let mut rng = Lcg(42);
    let mut used = UsedSet::new();
    let real_ids: Vec<u64> = reals.iter().map(|r| r.index).collect();
    for id in &real_ids {
        used.insert(*id);
    }

    // The data source: every index resolves to its derived member, except a
    // sparse band of locked outputs that forces retries.
    let lookup = |ids: &Vec<u64>| -> Vec<Option<RingMember>> {
        ids.iter().map(|i| if i % 13 == 5 { None } else { Some(tagged_member(*i)) }).collect()
    };

    let mut fill = |count: usize,
                    with_reals: bool,
                    rng: &mut Lcg,
                    used: &mut UsedSet|
     -> Vec<IndexedMember> {
        let mut confirmed: Vec<IndexedMember> = Vec::new();
        let mut rounds = 0usize;
        while confirmed.len() != count {
            rounds += 1;
            assert!(rounds < 10_000, "selection failed to converge");
            let remaining = count - confirmed.len();
            let mut candidates: Vec<u64> = Vec::new();
            while candidates.len() != remaining {
                let o = rng.next() % high;
                let draw = rng.next();
                if let Some(c) = dist.pick_candidate(o, draw, used) {
                    candidates.push(c);
                }
            }
            let slots = if with_reals && confirmed.is_empty() {
                merge_real(&mut candidates, &real_ids)
            } else {
                sort_indices(&mut candidates);
                Vec::new()
            };
            let results = lookup(&candidates);
            absorb_lookups(&candidates, &slots, results, &mut confirmed);
        }
        confirmed
    };

    let decoy_count = ring_len - 1;
    let mut pool = fill(reals.len() * decoy_count, true, &mut rng, &mut used);

    for real in &reals {
        let mut ring = assemble_ring(&mut pool, decoy_count, duplicate_member(real));
        let mut passes = 0usize;
        loop {
            passes += 1;
            assert!(passes < 1_000, "sanity pass failed to converge");
            let needed = sanity_prune(&mut ring, ring_len, target, real, &mut used);
            if needed == 0 {
                break;
            }
            let fresh = fill(needed, false, &mut rng, &mut used);
            for m in fresh {
                ring.push(m);
            }
            sort_members(&mut ring);
        }

        let ids: Vec<u64> = ring.iter().map(|m| m.index).collect();
        let d = finish_ring(ring, real.index);

        // Exactly the requested ring size, delta-encoded and sorted.
        assert_eq!(d.ring.len(), ring_len);
        assert_eq!(d.offsets.len(), ring_len);
        let decoded = offsets_to_indices(&d.offsets).unwrap();
        assert_eq!(decoded, ids);
        assert!(decoded.windows(2).all(|w| w[0] < w[1]));
        // The real spend sits at the recorded position with its own key and
        // commitment.
        assert_eq!(decoded[d.i as usize], real.index);
        assert_eq!(d.ring[d.i as usize], real.member);
        // The sanity rule held: the median lies in the upper two fifths.
        assert!(decoded[ring_len / 2] >= target);
    }
    assert!(pool.is_empty());
}
