//! The combination search engine: partial combinations are extended round by
//! round with candidate masks drawn from buckets of ever higher rarity rank,
//! so that each unordered combination is built along exactly one ordered
//! path. Each round, every entry of every bucket is drained, its children are
//! collected, and the children replace the bucket's contents.
//!
//! The whole search is specified as a recursive function on entry models
//! (`spec_search`); the executable engine returns exactly its value, so the
//! result is a function of the bucketed corpus and the configuration alone.

use vstd::prelude::*;
use crate::bits::{disjoint, next_free, mask26, popcount, or_fold, pairwise_disjoint,
    lemma_next_free_le, lemma_next_free_le_any, lemma_or_fold_disjoint, lemma_popcount_disjoint,
    lemma_or_mask26, lemma_or_zero, lemma_popcount_zero};
use crate::entry::{Entry, EntryModel, em_new, em_extend, em_skip};

verus! {

pub open spec fn entries_view(s: Seq<Entry>) -> Seq<EntryModel> {
    s.map_values(|e: Entry| e@)
}

pub open spec fn buckets_view(s: Seq<Vec<u32>>) -> Seq<Seq<u32>> {
    s.map_values(|v: Vec<u32>| v@)
}

pub open spec fn state_view(s: Seq<Vec<Entry>>) -> Seq<Seq<EntryModel>> {
    s.map_values(|v: Vec<Entry>| entries_view(v@))
}

/// The children of `e` produced by the candidates of one bucket: one child
/// per candidate disjoint from the cumulative mask, in bucket order.
pub open spec fn spec_matches(e: EntryModel, cands: Seq<u32>) -> Seq<EntryModel>
    decreases cands.len(),
{
    if cands.len() == 0 {
        Seq::empty()
    } else {
        let pre = spec_matches(e, cands.drop_last());
        if disjoint(e.mask, cands.last()) {
            pre.push(em_extend(e, cands.last()))
        } else {
            pre
        }
    }
}

/// All children of `e` over one extension round: the candidates at the
/// resume rank, then, while the skip budget lasts, those of every following
/// free rank.
pub open spec fn spec_children(e: EntryModel, bs: Seq<Seq<u32>>, allowed: int) -> Seq<EntryModel>
    decreases allowed - e.skipped,
{
    if e.next_unset >= 26 {
        Seq::empty()
    } else {
        let ms = spec_matches(e, bs[e.next_unset]);
        if e.skipped < allowed {
            ms + spec_children(em_skip(e), bs, allowed)
        } else {
            ms
        }
    }
}

/// One round applied to one bucket: every entry is replaced by its children.
pub open spec fn spec_round_bucket(
    es: Seq<EntryModel>,
    bs: Seq<Seq<u32>>,
    allowed: int,
) -> Seq<EntryModel>
    decreases es.len(),
{
    if es.len() == 0 {
        Seq::empty()
    } else {
        spec_round_bucket(es.drop_last(), bs, allowed) + spec_children(es.last(), bs, allowed)
    }
}

/// One extension round applied to the whole state.
pub open spec fn spec_round(
    st: Seq<Seq<EntryModel>>,
    bs: Seq<Seq<u32>>,
    allowed: int,
) -> Seq<Seq<EntryModel>> {
    Seq::new(st.len(), |b: int| spec_round_bucket(st[b], bs, allowed))
}

/// The seed entries of one bucket: rank `r` was the rarest rank of each
/// mask, so ranks `0 .. r` count as already skipped.
pub open spec fn seed_bucket(cands: Seq<u32>, r: int) -> Seq<EntryModel> {
    cands.map_values(|m: u32| em_new(m, r))
}

/// The seeded state: one bucket per rank within the skip budget.
pub open spec fn spec_seed(bs: Seq<Seq<u32>>, allowed: int) -> Seq<Seq<EntryModel>> {
    Seq::new((allowed + 1) as nat, |r: int| seed_bucket(bs[r], r))
}

/// The state after seeding and `rounds` extension rounds.
pub open spec fn spec_search(bs: Seq<Seq<u32>>, allowed: int, rounds: nat) -> Seq<Seq<EntryModel>>
    decreases rounds,
{
    if rounds == 0 {
        spec_seed(bs, allowed)
    } else {
        spec_round(spec_search(bs, allowed, (rounds - 1) as nat), bs, allowed)
    }
}

pub open spec fn em_bounded(e: EntryModel) -> bool {
    0 <= e.next_unset <= 26
}

pub open spec fn all_bounded(es: Seq<EntryModel>) -> bool {
    forall|k: int| 0 <= k < es.len() ==> em_bounded(#[trigger] es[k])
}

pub open spec fn state_bounded(st: Seq<Seq<EntryModel>>) -> bool {
    forall|b: int| 0 <= b < st.len() ==> all_bounded(#[trigger] st[b])
}

/// Total number of entries across all buckets.
pub open spec fn state_total(st: Seq<Seq<EntryModel>>) -> nat
    decreases st.len(),
{
    if st.len() == 0 {
        0
    } else {
        state_total(st.drop_last()) + st.last().len()
    }
}

/// A count capped at the widest machine counter.
pub open spec fn sat_u64(x: nat) -> u64 {
    if x > u64::MAX {
        u64::MAX
    } else {
        x as u64
    }
}

proof fn lemma_view_push(s: Seq<Entry>, e: Entry)
    ensures
        entries_view(s.push(e)) == entries_view(s).push(e@),
{
    assert(entries_view(s.push(e)) =~= entries_view(s).push(e@));
}

proof fn lemma_view_concat(a: Seq<Entry>, b: Seq<Entry>)
    ensures
        entries_view(a + b) == entries_view(a) + entries_view(b),
{
    assert(entries_view(a + b) =~= entries_view(a) + entries_view(b));
}

pub proof fn lemma_children_bounded(e: EntryModel, bs: Seq<Seq<u32>>, allowed: int)
    ensures
        all_bounded(spec_children(e, bs, allowed)),
    decreases allowed - e.skipped,
{
    if e.next_unset >= 26 {
    } else {
        lemma_matches_bounded(e, bs[e.next_unset]);
        if e.skipped < allowed {
            lemma_children_bounded(em_skip(e), bs, allowed);
        }
    }
}

proof fn lemma_matches_bounded(e: EntryModel, cands: Seq<u32>)
    ensures
        all_bounded(spec_matches(e, cands)),
    decreases cands.len(),
{
    if cands.len() > 0 {
        lemma_matches_bounded(e, cands.drop_last());
        lemma_next_free_le_any(e.mask | cands.last(), (e.next_unset + 1) as u32);
        assert(all_bounded(spec_matches(e, cands.drop_last())));
        if disjoint(e.mask, cands.last()) {
            let em = em_extend(e, cands.last());
            assert(em_bounded(em));
            let s = spec_matches(e, cands.drop_last()).push(em);
            assert forall|k: int| 0 <= k < s.len() implies em_bounded(#[trigger] s[k]) by {
                if k < s.len() - 1 {
                    assert(s[k] == spec_matches(e, cands.drop_last())[k]);
                }
            }
        }
    }
}

/// Walk one drained entry across the reachable ranks, collecting every
/// compatible extension; mirrors `spec_children` exactly.
fn extend_entry(e: &Entry, bs: &Vec<Vec<u32>>, allowed: usize) -> (out: Vec<Entry>)
    requires
        bs@.len() == 26,
        e.next_unset <= 26,
    ensures
        entries_view(out@) == spec_children(e@, buckets_view(bs@), allowed as int),
{
    let ghost bsv = buckets_view(bs@);
    let ghost e0 = e@;
    let mut cur: Entry = e.duplicate();
    let mut out: Vec<Entry> = Vec::new();
    proof {
        assert(entries_view(out@) =~= Seq::<EntryModel>::empty());
        assert(Seq::<EntryModel>::empty() + spec_children(cur@, bsv, allowed as int)
            =~= spec_children(e0, bsv, allowed as int));
    }
    loop
        invariant_except_break
            bs@.len() == 26,
            bsv == buckets_view(bs@),
            cur.next_unset <= 26,
            entries_view(out@) + spec_children(cur@, bsv, allowed as int) == spec_children(
                e0,
                bsv,
                allowed as int,
            ),
        ensures
            entries_view(out@) == spec_children(e0, bsv, allowed as int),
        decreases 26 - cur.next_unset,
    {
        if cur.next_unset >= 26 {
            proof {
                assert(spec_children(cur@, bsv, allowed as int) =~= Seq::<EntryModel>::empty());
                assert(entries_view(out@) + Seq::<EntryModel>::empty() =~= entries_view(out@));
            }
            break;
        }
        let pos: usize = cur.next_unset;
        let ghost mid = cur@;
        let ghost out0 = entries_view(out@);
        let cands: &Vec<u32> = &bs[pos];
        proof {
            assert(cands@ == bsv[mid.next_unset]);
        }
        let mut k: usize = 0;
        while k < cands.len()
            invariant
                k <= cands@.len(),
                pos < 26,
                cur@ == mid,
                mid.next_unset == pos,
                entries_view(out@) == out0 + spec_matches(mid, cands@.take(k as int)),
            decreases cands@.len() - k,
        {
            let c: u32 = cands[k];
            proof {
                assert(cands@.take(k + 1).drop_last() =~= cands@.take(k as int));
                assert(cands@.take(k + 1).last() == c);
            }
            if cur.rarity_mask & c == 0 {
                let child = cur.extend_unchecked(c, cur.rarity_mask | c);
                proof {
                    lemma_view_push(out@, child);
                    assert(out0 + spec_matches(mid, cands@.take(k as int)).push(em_extend(mid, c))
                        =~= (out0 + spec_matches(mid, cands@.take(k as int))).push(
                        em_extend(mid, c),
                    ));
                }
                out.push(child);
            }
            k += 1;
        }
        proof {
            assert(cands@.take(cands@.len() as int) =~= cands@);
            assert(entries_view(out@) == out0 + spec_matches(mid, bsv[mid.next_unset]));
        }
        if cur.skipped < allowed {
            cur.skipped += 1;
            cur.update_unset();
            proof {
                assert(cur@ == em_skip(mid));
                lemma_next_free_le(mid.mask, (pos + 1) as u32);
                assert(spec_children(mid, bsv, allowed as int) == spec_matches(
                    mid,
                    bsv[mid.next_unset],
                ) + spec_children(em_skip(mid), bsv, allowed as int));
                assert((out0 + spec_matches(mid, bsv[mid.next_unset])) + spec_children(
                    cur@,
                    bsv,
                    allowed as int,
                ) =~= out0 + (spec_matches(mid, bsv[mid.next_unset]) + spec_children(
                    cur@,
                    bsv,
                    allowed as int,
                )));
            }
        } else {
            proof {
                assert(spec_children(mid, bsv, allowed as int) == spec_matches(
                    mid,
                    bsv[mid.next_unset],
                ));
            }
            break;
        }
    }
    out
}

/// One extension round: each bucket's entries are drained and replaced by
/// their children; buckets do not interact within a round.
pub fn run_round(st: &Vec<Vec<Entry>>, bs: &Vec<Vec<u32>>, allowed: usize) -> (new_st: Vec<
    Vec<Entry>,
>)
    requires
        bs@.len() == 26,
        state_bounded(state_view(st@)),
    ensures
        state_view(new_st@) == spec_round(state_view(st@), buckets_view(bs@), allowed as int),
{
    let ghost bsv = buckets_view(bs@);
    let ghost stv = state_view(st@);
    let mut new_st: Vec<Vec<Entry>> = Vec::new();
    let mut b: usize = 0;
    while b < st.len()
        invariant
            bs@.len() == 26,
            bsv == buckets_view(bs@),
            stv == state_view(st@),
            state_bounded(stv),
            b <= st@.len(),
            new_st@.len() == b,
            forall|i: int| 0 <= i < b ==> entries_view(#[trigger] new_st@[i]@) == spec_round_bucket(
                stv[i],
                bsv,
                allowed as int,
            ),
        decreases st@.len() - b,
    {
        let ghost es = stv[b as int];
        let mut out: Vec<Entry> = Vec::new();
        let mut k: usize = 0;
        proof {
            assert(entries_view(out@) =~= spec_round_bucket(es.take(0), bsv, allowed as int));
        }
        while k < st[b].len()
            invariant
                bs@.len() == 26,
                bsv == buckets_view(bs@),
                stv == state_view(st@),
                state_bounded(stv),
                b < st@.len(),
                es == stv[b as int],
                k <= es.len(),
                es.len() == st@[b as int]@.len(),
                entries_view(out@) == spec_round_bucket(es.take(k as int), bsv, allowed as int),
            decreases es.len() - k,
        {
            proof {
                assert(es[k as int] == st@[b as int]@[k as int]@);
                assert(em_bounded(es[k as int]));
            }
            let mut children = extend_entry(&st[b][k], bs, allowed);
            proof {
                lemma_view_concat(out@, children@);
                assert(es.take(k + 1).drop_last() =~= es.take(k as int));
                assert(es.take(k + 1).last() == es[k as int]);
            }
            out.append(&mut children);
            k += 1;
        }
        proof {
            assert(es.take(es.len() as int) =~= es);
        }
        new_st.push(out);
        b += 1;
    }
    proof {
        assert(state_view(new_st@) =~= spec_round(stv, bsv, allowed as int));
    }
    new_st
}

/// Seed the state: for each rank within the skip budget, every mask of that
/// rank's bucket becomes a one-word entry.
pub fn seed_entries(bs: &Vec<Vec<u32>>, allowed: usize) -> (st: Vec<Vec<Entry>>)
    requires
        bs@.len() == 26,
        allowed < 26,
    ensures
        state_view(st@) == spec_seed(buckets_view(bs@), allowed as int),
{
    let ghost bsv = buckets_view(bs@);
    let mut st: Vec<Vec<Entry>> = Vec::new();
    let mut r: usize = 0;
    while r <= allowed
        invariant
            bs@.len() == 26,
            bsv == buckets_view(bs@),
            allowed < 26,
            r <= allowed + 1,
            st@.len() == r,
            forall|i: int| 0 <= i < r ==> entries_view(#[trigger] st@[i]@) == seed_bucket(
                bsv[i],
                i,
            ),
        decreases allowed + 1 - r,
    {
        let cands: &Vec<u32> = &bs[r];
        let mut bucket: Vec<Entry> = Vec::new();
        let mut k: usize = 0;
        proof {
            assert(entries_view(bucket@) =~= seed_bucket(cands@.take(0), r as int));
        }
        while k < cands.len()
            invariant
                r < 26,
                k <= cands@.len(),
                entries_view(bucket@) == seed_bucket(cands@.take(k as int), r as int),
            decreases cands@.len() - k,
        {
            let e = Entry::new(cands[k], r);
            proof {
                lemma_view_push(bucket@, e);
                assert(seed_bucket(cands@.take(k + 1), r as int) =~= seed_bucket(
                    cands@.take(k as int),
                    r as int,
                ).push(em_new(cands@[k as int], r as int)));
            }
            bucket.push(e);
            k += 1;
        }
        proof {
            assert(cands@.take(cands@.len() as int) =~= cands@);
        }
        st.push(bucket);
        r += 1;
    }
    proof {
        assert(state_view(st@) =~= spec_seed(bsv, allowed as int));
    }
    st
}

/// Count the entries of the state, capped at the counter's width.
pub fn count_state(st: &Vec<Vec<Entry>>) -> (c: u64)
    ensures
        c == sat_u64(state_total(state_view(st@))),
{
    let ghost stv = state_view(st@);
    let mut c: u64 = 0;
    let mut b: usize = 0;
    while b < st.len()
        invariant
            stv == state_view(st@),
            b <= st@.len(),
            c == sat_u64(state_total(stv.take(b as int))),
        decreases st@.len() - b,
    {
        let l: u64 = st[b].len() as u64;
        proof {
            assert(stv.take(b + 1).drop_last() =~= stv.take(b as int));
            assert(stv.take(b + 1).last() == stv[b as int]);
            assert(stv[b as int].len() == l);
        }
        if c > u64::MAX - l {
            c = u64::MAX;
        } else {
            c = c + l;
        }
        b += 1;
    }
    proof {
        assert(stv.take(stv.len() as int) =~= stv);
    }
    c
}

proof fn lemma_concat_bounded(a: Seq<EntryModel>, b: Seq<EntryModel>)
    requires
        all_bounded(a),
        all_bounded(b),
    ensures
        all_bounded(a + b),
{
    assert forall|k: int| 0 <= k < (a + b).len() implies em_bounded(#[trigger] (a + b)[k]) by {
        if k < a.len() {
            assert((a + b)[k] == a[k]);
        } else {
            assert((a + b)[k] == b[k - a.len()]);
        }
    }
}

proof fn lemma_round_bucket_bounded(es: Seq<EntryModel>, bs: Seq<Seq<u32>>, allowed: int)
    ensures
        all_bounded(spec_round_bucket(es, bs, allowed)),
    decreases es.len(),
{
    if es.len() == 0 {
        assert(all_bounded(Seq::<EntryModel>::empty()));
    } else {
        lemma_round_bucket_bounded(es.drop_last(), bs, allowed);
        lemma_children_bounded(es.last(), bs, allowed);
        lemma_concat_bounded(
            spec_round_bucket(es.drop_last(), bs, allowed),
            spec_children(es.last(), bs, allowed),
        );
    }
}

/// Every entry of a freshly seeded state has its resume rank in range.
pub proof fn lemma_seed_bounded(bs: Seq<Seq<u32>>, allowed: int)
    ensures
        state_bounded(spec_seed(bs, allowed)),
{
    let st = spec_seed(bs, allowed);
    assert forall|b: int| 0 <= b < st.len() implies all_bounded(#[trigger] st[b]) by {
        assert forall|k: int| 0 <= k < st[b].len() implies em_bounded(#[trigger] st[b][k]) by {
            assert(st[b][k] == em_new(bs[b][k], b));
            lemma_next_free_le_any(bs[b][k], (b + 1) as u32);
        }
    }
}

/// One round keeps every resume rank in range, so rounds can be chained.
pub proof fn lemma_round_bounded(st: Seq<Seq<EntryModel>>, bs: Seq<Seq<u32>>, allowed: int)
    ensures
        state_bounded(spec_round(st, bs, allowed)),
{
    let nst = spec_round(st, bs, allowed);
    assert forall|b: int| 0 <= b < nst.len() implies all_bounded(#[trigger] nst[b]) by {
        lemma_round_bucket_bounded(st[b], bs, allowed);
    }
}

/// Seed the state, then run the requested number of extension rounds,
/// recording after seeding and after every round how many entries the state
/// holds.
pub fn search(bs: &Vec<Vec<u32>>, allowed: usize, rounds: usize) -> (r: (Vec<Vec<Entry>>, Vec<u64>))
    requires
        bs@.len() == 26,
        allowed < 26,
    ensures
        state_view(r.0@) == spec_search(buckets_view(bs@), allowed as int, rounds as nat),
        r.1@.len() == rounds + 1,
        forall|d: int|
            0 <= d <= rounds ==> r.1@[d] == sat_u64(
                state_total(spec_search(buckets_view(bs@), allowed as int, d as nat)),
            ),
{
    let ghost bsv = buckets_view(bs@);
    let mut st = seed_entries(bs, allowed);
    let mut stats: Vec<u64> = Vec::new();
    stats.push(count_state(&st));
    proof {
        lemma_seed_bounded(bsv, allowed as int);
    }
    let mut d: usize = 0;
    while d < rounds
        invariant
            bs@.len() == 26,
            bsv == buckets_view(bs@),
            d <= rounds,
            state_view(st@) == spec_search(bsv, allowed as int, d as nat),
            state_bounded(state_view(st@)),
            stats@.len() == d + 1,
            forall|e: int|
                0 <= e <= d ==> stats@[e] == sat_u64(
                    state_total(spec_search(bsv, allowed as int, e as nat)),
                ),
        decreases rounds - d,
    {
        st = run_round(&st, bs, allowed);
        stats.push(count_state(&st));
        proof {
            lemma_round_bounded(spec_search(bsv, allowed as int, d as nat), bsv, allowed as int);
        }
        d += 1;
    }
    (st, stats)
}

/// A sound partial combination: the masks collected so far are pairwise
/// letter-disjoint masks of `l` letters each, the cumulative mask is their
/// union and so holds `l` letters per word, and the skip counter never
/// exceeds the budget.
pub open spec fn em_inv(e: EntryModel, l: nat, allowed: int, depth: nat) -> bool {
    &&& e.masks.len() == depth
    &&& e.mask == or_fold(e.masks)
    &&& pairwise_disjoint(e.masks)
    &&& (forall|k: int|
        0 <= k < e.masks.len() ==> mask26(#[trigger] e.masks[k]) && popcount(e.masks[k]) == l)
    &&& mask26(e.mask)
    &&& popcount(e.mask) == l * depth
    &&& 0 <= e.skipped <= allowed
    &&& em_bounded(e)
}

/// Every bucketed candidate is a 26-bit mask of `l` letters.
pub open spec fn bucket_masks_ok(bs: Seq<Seq<u32>>, l: nat) -> bool {
    forall|b: int, k: int|
        0 <= b < bs.len() && 0 <= k < bs[b].len() ==> mask26(#[trigger] bs[b][k]) && popcount(
            bs[b][k],
        ) == l
}

pub open spec fn state_inv(st: Seq<Seq<EntryModel>>, l: nat, allowed: int, depth: nat) -> bool {
    forall|b: int, k: int|
        0 <= b < st.len() && 0 <= k < st[b].len() ==> em_inv(#[trigger] st[b][k], l, allowed, depth)
}

proof fn lemma_extend_inv(e: EntryModel, c: u32, l: nat, allowed: int, depth: nat)
    requires
        em_inv(e, l, allowed, depth),
        mask26(c),
        popcount(c) == l,
        disjoint(e.mask, c),
    ensures
        em_inv(em_extend(e, c), l, allowed, (depth + 1) as nat),
{
    let ne = em_extend(e, c);
    assert(e.masks.push(c).drop_last() =~= e.masks);
    assert(ne.mask == or_fold(ne.masks));
    lemma_or_fold_disjoint(e.masks, c);
    assert forall|i: int, j: int| 0 <= i < j < ne.masks.len() implies disjoint(
        ne.masks[i],
        ne.masks[j],
    ) by {
        if j == ne.masks.len() - 1 {
            assert(ne.masks[i] == e.masks[i]);
            assert(e.masks[i] & c == 0);
        } else {
            assert(ne.masks[i] == e.masks[i] && ne.masks[j] == e.masks[j]);
        }
    }
    assert forall|k: int| 0 <= k < ne.masks.len() implies mask26(#[trigger] ne.masks[k])
        && popcount(ne.masks[k]) == l by {
        if k < ne.masks.len() - 1 {
            assert(ne.masks[k] == e.masks[k]);
        }
    }
    lemma_or_mask26(e.mask, c);
    lemma_popcount_disjoint(e.mask, c);
    assert(l * ((depth + 1) as nat) == l * depth + l) by (nonlinear_arith);
    lemma_next_free_le_any(e.mask | c, (e.next_unset + 1) as u32);
}

proof fn lemma_matches_inv(e: EntryModel, cands: Seq<u32>, l: nat, allowed: int, depth: nat)
    requires
        em_inv(e, l, allowed, depth),
        forall|k: int|
            0 <= k < cands.len() ==> mask26(#[trigger] cands[k]) && popcount(cands[k]) == l,
    ensures
        forall|j: int|
            0 <= j < spec_matches(e, cands).len() ==> em_inv(
                #[trigger] spec_matches(e, cands)[j],
                l,
                allowed,
                (depth + 1) as nat,
            ),
    decreases cands.len(),
{
    if cands.len() > 0 {
        assert forall|k: int| 0 <= k < cands.drop_last().len() implies mask26(
            #[trigger] cands.drop_last()[k],
        ) && popcount(cands.drop_last()[k]) == l by {
            assert(cands.drop_last()[k] == cands[k]);
        }
        lemma_matches_inv(e, cands.drop_last(), l, allowed, depth);
        let pre = spec_matches(e, cands.drop_last());
        if disjoint(e.mask, cands.last()) {
            lemma_extend_inv(e, cands.last(), l, allowed, depth);
            let s = pre.push(em_extend(e, cands.last()));
            assert forall|j: int| 0 <= j < s.len() implies em_inv(
                #[trigger] s[j],
                l,
                allowed,
                (depth + 1) as nat,
            ) by {
                if j < s.len() - 1 {
                    assert(s[j] == pre[j]);
                }
            }
        }
    }
}

proof fn lemma_children_inv(e: EntryModel, bs: Seq<Seq<u32>>, l: nat, allowed: int, depth: nat)
    requires
        em_inv(e, l, allowed, depth),
        bucket_masks_ok(bs, l),
        bs.len() == 26,
    ensures
        forall|j: int|
            0 <= j < spec_children(e, bs, allowed).len() ==> em_inv(
                #[trigger] spec_children(e, bs, allowed)[j],
                l,
                allowed,
                (depth + 1) as nat,
            ),
    decreases allowed - e.skipped,
{
    if e.next_unset < 26 {
        let cands = bs[e.next_unset];
        assert forall|k: int| 0 <= k < cands.len() implies mask26(#[trigger] cands[k]) && popcount(
            cands[k],
        ) == l by {
            assert(bs[e.next_unset][k] == cands[k]);
        }
        lemma_matches_inv(e, cands, l, allowed, depth);
        let ms = spec_matches(e, cands);
        if e.skipped < allowed {
            lemma_next_free_le_any(e.mask, (e.next_unset + 1) as u32);
            assert(em_inv(em_skip(e), l, allowed, depth));
            lemma_children_inv(em_skip(e), bs, l, allowed, depth);
            let rest = spec_children(em_skip(e), bs, allowed);
            assert forall|j: int| 0 <= j < (ms + rest).len() implies em_inv(
                #[trigger] (ms + rest)[j],
                l,
                allowed,
                (depth + 1) as nat,
            ) by {
                if j < ms.len() {
                    assert((ms + rest)[j] == ms[j]);
                } else {
                    assert((ms + rest)[j] == rest[j - ms.len()]);
                }
            }
        }
    }
}

proof fn lemma_round_bucket_inv(
    es: Seq<EntryModel>,
    bs: Seq<Seq<u32>>,
    l: nat,
    allowed: int,
    depth: nat,
)
    requires
        forall|k: int| 0 <= k < es.len() ==> em_inv(#[trigger] es[k], l, allowed, depth),
        bucket_masks_ok(bs, l),
        bs.len() == 26,
    ensures
        forall|j: int|
            0 <= j < spec_round_bucket(es, bs, allowed).len() ==> em_inv(
                #[trigger] spec_round_bucket(es, bs, allowed)[j],
                l,
                allowed,
                (depth + 1) as nat,
            ),
    decreases es.len(),
{
    if es.len() > 0 {
        assert forall|k: int| 0 <= k < es.drop_last().len() implies em_inv(
            #[trigger] es.drop_last()[k],
            l,
            allowed,
            depth,
        ) by {
            assert(es.drop_last()[k] == es[k]);
        }
        lemma_round_bucket_inv(es.drop_last(), bs, l, allowed, depth);
        assert(em_inv(es.last(), l, allowed, depth));
        lemma_children_inv(es.last(), bs, l, allowed, depth);
        let a = spec_round_bucket(es.drop_last(), bs, allowed);
        let b = spec_children(es.last(), bs, allowed);
        assert forall|j: int| 0 <= j < (a + b).len() implies em_inv(
            #[trigger] (a + b)[j],
            l,
            allowed,
            (depth + 1) as nat,
        ) by {
            if j < a.len() {
                assert((a + b)[j] == a[j]);
            } else {
                assert((a + b)[j] == b[j - a.len()]);
            }
        }
    }
}

proof fn lemma_round_inv(
    st: Seq<Seq<EntryModel>>,
    bs: Seq<Seq<u32>>,
    l: nat,
    allowed: int,
    depth: nat,
)
    requires
        state_inv(st, l, allowed, depth),
        bucket_masks_ok(bs, l),
        bs.len() == 26,
    ensures
        state_inv(spec_round(st, bs, allowed), l, allowed, (depth + 1) as nat),
{
    let nst = spec_round(st, bs, allowed);
    assert forall|b: int, k: int| 0 <= b < nst.len() && 0 <= k < nst[b].len() implies em_inv(
        #[trigger] nst[b][k],
        l,
        allowed,
        (depth + 1) as nat,
    ) by {
        assert forall|i: int| 0 <= i < st[b].len() implies em_inv(
            #[trigger] st[b][i],
            l,
            allowed,
            depth,
        ) by {}
        lemma_round_bucket_inv(st[b], bs, l, allowed, depth);
    }
}

proof fn lemma_seed_inv(bs: Seq<Seq<u32>>, l: nat, allowed: int)
    requires
        bucket_masks_ok(bs, l),
        bs.len() == 26,
        0 <= allowed < 26,
    ensures
        state_inv(spec_seed(bs, allowed), l, allowed, 1),
{
    let st = spec_seed(bs, allowed);
    assert forall|b: int, k: int| 0 <= b < st.len() && 0 <= k < st[b].len() implies em_inv(
        #[trigger] st[b][k],
        l,
        allowed,
        1,
    ) by {
        let m = bs[b][k];
        let e = em_new(m, b);
        assert(st[b][k] == e);
        assert(e.masks.drop_last() =~= Seq::<u32>::empty());
        assert(e.masks.len() == 1 && e.masks.last() == m);
        assert(or_fold(Seq::<u32>::empty()) == 0u32);
        assert(or_fold(e.masks) == or_fold(e.masks.drop_last()) | e.masks.last());
        lemma_or_zero(m);
        lemma_popcount_zero();
        assert(e.mask == or_fold(e.masks));
        assert(mask26(m) && popcount(m) == l);
        assert(l * 1nat == l) by (nonlinear_arith);
        lemma_next_free_le_any(m, (b + 1) as u32);
    }
}

/// Every entry of the search state is a sound partial combination: after
/// seeding and `rounds` extension rounds, each entry holds `rounds + 1`
/// pairwise letter-disjoint masks of `l` letters, its cumulative mask is
/// their union with `l * (rounds + 1)` letters, and its skip count never
/// exceeds the budget — so with a zero budget every combination skips
/// nothing, and every terminal combination is letter-disjoint with exactly
/// `l` letters per word.
pub proof fn lemma_search_inv(bs: Seq<Seq<u32>>, l: nat, allowed: int, rounds: nat)
    requires
        bucket_masks_ok(bs, l),
        bs.len() == 26,
        0 <= allowed < 26,
    ensures
        state_inv(spec_search(bs, allowed, rounds), l, allowed, (rounds + 1) as nat),
    decreases rounds,
{
    if rounds == 0 {
        lemma_seed_inv(bs, l, allowed);
    } else {
        lemma_search_inv(bs, l, allowed, (rounds - 1) as nat);
        lemma_round_inv(spec_search(bs, allowed, (rounds - 1) as nat), bs, l, allowed, rounds);
    }
}

} // verus!
