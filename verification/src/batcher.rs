//! Planning batches: drop already-sealed hashes, order the rest, cut them into batches.
use vstd::prelude::*;
use crate::candidates::{HashCandidate, opt_view};
use crate::sorting::{
    candidate_before, candidate_key, keys_unique, lemma_sorted_unique, law_sort_stable, law_sort_permutes, law_sort_sorted, sort_by_batching_order,
    sort_candidates, sorted_candidates, with_key,
};
use crate::text::{chars_lt, views_of};

verus! {

/// A planned batch of hashes to seal.
#[derive(Debug, Clone)]
pub struct PlannedBatch {
    pub batch_index: usize,
    pub members: Vec<HashCandidate>,
}

/// The candidates whose hash is not among the already-sealed ones, in their order.
pub open spec fn unsealed(existing: Seq<Seq<char>>, candidates: Seq<HashCandidate>) -> Seq<
    HashCandidate,
> {
    candidates.filter(|c: HashCandidate| !existing.contains(c.hash_hex@))
}

/// `s` cut into consecutive pieces of `size` elements; the last piece holds the rest.
pub open spec fn chunks(s: Seq<HashCandidate>, size: nat) -> Seq<Seq<HashCandidate>>
    decreases s.len(),
{
    if size == 0 || s.len() == 0 {
        Seq::empty()
    } else if s.len() <= size {
        seq![s]
    } else {
        seq![s.take(size as int)] + chunks(s.skip(size as int), size)
    }
}

/// The members of each batch that `build_batches` plans: none when there are no
/// candidates or the batch size is zero; otherwise the unsealed candidates in stable
/// batching order, cut into batches of `max_batch_size`.
pub open spec fn planned_batches(
    existing: Seq<Seq<char>>,
    candidates: Seq<HashCandidate>,
    max_batch_size: nat,
) -> Seq<Seq<HashCandidate>> {
    if candidates.len() == 0 || max_batch_size == 0 {
        Seq::empty()
    } else {
        chunks(sort_candidates(unsealed(existing, candidates)), max_batch_size)
    }
}

/// Whether `s` is among `list`.
fn contains_string(list: &Vec<String>, s: &String) -> (found: bool)
    ensures
        found == views_of(list@).contains(s@),
{
    let mut j: usize = 0;
    while j < list.len()
        invariant
            j <= list@.len(),
            forall|m: int| 0 <= m < j ==> list@[m]@ != s@,
        decreases list@.len() - j,
    {
        if list[j] == *s {
            proof {
                assert(views_of(list@)[j as int] == s@);
            }
            return true;
        }
        j = j + 1;
    }
    proof {
        if views_of(list@).contains(s@) {
            let m = choose|m: int| 0 <= m < views_of(list@).len() && views_of(list@)[m] == s@;
            assert(list@[m]@ == s@);
        }
    }
    false
}

/// The candidates whose hash is not in `existing`, in their order.
fn drop_sealed(existing: &Vec<String>, candidates: Vec<HashCandidate>) -> (kept: Vec<HashCandidate>)
    ensures
        kept@ == unsealed(views_of(existing@), candidates@),
{
    let ghost input = candidates@;
    let ghost pred = |c: HashCandidate| !views_of(existing@).contains(c.hash_hex@);
    let mut kept: Vec<HashCandidate> = Vec::new();
    for c in it: candidates.into_iter()
        invariant
            it.seq() == input,
            pred == (|c: HashCandidate| !views_of(existing@).contains(c.hash_hex@)),
            kept@ == input.take(it.index() as int).filter(pred),
    {
        let sealed = contains_string(existing, &c.hash_hex);
        proof {
            let i = it.index() as int;
            assert(input.take(i + 1) =~= input.take(i).push(c));
            input.take(i).lemma_filter_push(c, pred);
        }
        if !sealed {
            kept.push(c);
        }
    }
    proof {
        assert(input.take(input.len() as int) =~= input);
    }
    kept
}

/// The members of each batch, in order.
pub open spec fn members_of(batches: Seq<PlannedBatch>) -> Seq<Seq<HashCandidate>> {
    batches.map_values(|b: PlannedBatch| b.members@)
}

/// Cut `sorted` into batches of `size`, numbered from 0.
fn cut_into_batches(sorted: Vec<HashCandidate>, size: usize) -> (batches: Vec<PlannedBatch>)
    requires
        size > 0,
    ensures
        members_of(batches@) == chunks(sorted@, size as nat),
        forall|i: int| 0 <= i < batches@.len() ==> (#[trigger] batches@[i]).batch_index == i,
{
    let ghost all = sorted@;
    let total = sorted.len();
    let mut rest = sorted;
    let mut batches: Vec<PlannedBatch> = Vec::new();
    let mut batch_index: usize = 0;
    while rest.len() > 0
        invariant
            size > 0,
            batch_index == batches@.len(),
            chunks(all, size as nat) == members_of(batches@) + chunks(rest@, size as nat),
            forall|i: int| 0 <= i < batches@.len() ==> (#[trigger] batches@[i]).batch_index == i,
            batches@.len() + rest@.len() <= all.len(),
            all.len() == total,
        decreases rest@.len(),
    {
        let ghost old_rest = rest@;
        let take: usize = if rest.len() < size { rest.len() } else { size };
        let tail = rest.split_off(take);
        let ghost before = members_of(batches@);
        proof {
            let whole = rest@ + tail@;
            assert(whole =~= old_rest);
            if whole.len() <= size {
                assert(tail@.len() == 0);
                assert(whole =~= rest@);
                assert(chunks(tail@, size as nat) =~= Seq::<Seq<HashCandidate>>::empty());
            } else {
                assert(whole.take(size as int) =~= rest@);
                assert(whole.skip(size as int) =~= tail@);
            }
            assert(chunks(whole, size as nat) =~= seq![rest@] + chunks(tail@, size as nat));
        }
        batches.push(PlannedBatch { batch_index, members: rest });
        proof {
            assert(members_of(batches@) =~= before.push(batches@.last().members@));
            assert(members_of(batches@) + chunks(tail@, size as nat) =~= before + (seq![
                batches@.last().members@,
            ] + chunks(tail@, size as nat)));
        }
        rest = tail;
        batch_index = batch_index + 1;
    }
    proof {
        assert(chunks(rest@, size as nat) =~= Seq::<Seq<HashCandidate>>::empty());
        assert(members_of(batches@) + Seq::<Seq<HashCandidate>>::empty() =~= members_of(batches@));
    }
    batches
}

/// Build batches from hash candidates, deduping against the hashes already sealed
/// (`existing_hashes`): candidates whose hash is already sealed are dropped, the
/// rest are put in stable order by (source_type, source_ref, hash_hex) and cut into
/// batches of at most `max_batch_size`, numbered from 0.
pub fn build_batches(
    existing_hashes: &Vec<String>,
    candidates: Vec<HashCandidate>,
    max_batch_size: usize,
) -> (batches: Vec<PlannedBatch>)
    ensures
        members_of(batches@) == planned_batches(
            views_of(existing_hashes@),
            candidates@,
            max_batch_size as nat,
        ),
        forall|i: int| 0 <= i < batches@.len() ==> (#[trigger] batches@[i]).batch_index == i,
{
    if candidates.len() == 0 || max_batch_size == 0 {
        let empty: Vec<PlannedBatch> = Vec::new();
        proof {
            assert(members_of(empty@) =~= Seq::<Seq<HashCandidate>>::empty());
        }
        return empty;
    }
    let kept = drop_sealed(existing_hashes, candidates);
    let sorted = sort_by_batching_order(kept);
    cut_into_batches(sorted, max_batch_size)
}

proof fn lemma_chunks_flatten(s: Seq<HashCandidate>, size: nat)
    requires
        size > 0,
    ensures
        chunks(s, size).flatten() == s,
    decreases s.len(),
{
    if s.len() == 0 {
    } else if s.len() <= size {
        let c = seq![s];
        assert(c.drop_first() =~= Seq::<Seq<HashCandidate>>::empty());
        assert(c.drop_first().flatten() =~= Seq::<HashCandidate>::empty());
        assert(c.first() + Seq::<HashCandidate>::empty() =~= s);
        assert(c.flatten() == c.first() + c.drop_first().flatten());
    } else {
        lemma_chunks_flatten(s.skip(size as int), size);
        let c = chunks(s, size);
        assert(c.drop_first() =~= chunks(s.skip(size as int), size));
        assert(c.first() == s.take(size as int));
        assert(c.flatten() == c.first() + c.drop_first().flatten());
        assert(s.take(size as int) + s.skip(size as int) =~= s);
    }
}

proof fn lemma_chunks_members(s: Seq<HashCandidate>, size: nat)
    requires
        size > 0,
    ensures
        forall|i: int, k: int|
            0 <= i < chunks(s, size).len() && 0 <= k < chunks(s, size)[i].len() ==> s.contains(
                #[trigger] chunks(s, size)[i][k],
            ),
    decreases s.len(),
{
    let c = chunks(s, size);
    if s.len() == 0 {
    } else if s.len() <= size {
        assert forall|i: int, k: int| 0 <= i < c.len() && 0 <= k < c[i].len() implies s.contains(
            #[trigger] c[i][k],
        ) by {
            assert(c[i][k] == s[k]);
        }
    } else {
        let rest = s.skip(size as int);
        lemma_chunks_members(rest, size);
        assert forall|i: int, k: int| 0 <= i < c.len() && 0 <= k < c[i].len() implies s.contains(
            #[trigger] c[i][k],
        ) by {
            if i == 0 {
                assert(c[i][k] == s[k]);
            } else {
                assert(c[i] == chunks(rest, size)[i - 1]);
                let x = c[i][k];
                assert(rest.contains(x));
                let m = choose|m: int| 0 <= m < rest.len() && rest[m] == x;
                assert(s[m + size] == x);
            }
        }
    }
}

proof fn lemma_chunks_sizes(s: Seq<HashCandidate>, size: nat)
    requires
        size > 0,
    ensures
        forall|i: int|
            0 <= i < chunks(s, size).len() ==> 1 <= (#[trigger] chunks(s, size)[i]).len() <= size,
        forall|i: int|
            0 <= i < chunks(s, size).len() - 1 ==> (#[trigger] chunks(s, size)[i]).len() == size,
    decreases s.len(),
{
    if s.len() > size {
        lemma_chunks_sizes(s.skip(size as int), size);
        let c = chunks(s, size);
        assert forall|i: int| 0 < i < c.len() implies c[i] == chunks(s.skip(size as int), size)[i
            - 1] by {}
    }
}

/// Every member of every planned batch has a hash that is not among the already
/// sealed ones.
pub proof fn law_batches_skip_sealed_hashes(
    existing: Seq<Seq<char>>,
    candidates: Seq<HashCandidate>,
    max_batch_size: nat,
)
    ensures
        forall|i: int, k: int|
            0 <= i < planned_batches(existing, candidates, max_batch_size).len() && 0 <= k
                < planned_batches(existing, candidates, max_batch_size)[i].len() ==> !existing.contains(
                (#[trigger] planned_batches(existing, candidates, max_batch_size)[i][k]).hash_hex@,
            ),
{
    broadcast use vstd::seq_lib::group_to_multiset_ensures;
    if candidates.len() > 0 && max_batch_size > 0 {
        let pred = |c: HashCandidate| !existing.contains(c.hash_hex@);
        let kept = unsealed(existing, candidates);
        let sorted = sort_candidates(kept);
        lemma_chunks_members(sorted, max_batch_size);
        law_sort_permutes(kept);
        let p = planned_batches(existing, candidates, max_batch_size);
        assert forall|i: int, k: int| 0 <= i < p.len() && 0 <= k < p[i].len() implies !existing.contains(
            (#[trigger] p[i][k]).hash_hex@,
        ) by {
            let x = p[i][k];
            assert(sorted.contains(x));
            assert(sorted.to_multiset().count(x) > 0);
            assert(kept.contains(x));
            let m = choose|m: int| 0 <= m < kept.len() && kept[m] == x;
            candidates.lemma_filter_pred(pred, m);
        }
    }
}

/// Taken together, the planned batches hold exactly the unsealed candidates, each as
/// often as it occurs among them (when the batch size is not zero).
pub proof fn law_batches_cover_unsealed(
    existing: Seq<Seq<char>>,
    candidates: Seq<HashCandidate>,
    max_batch_size: nat,
)
    requires
        max_batch_size > 0,
    ensures
        planned_batches(existing, candidates, max_batch_size).flatten().to_multiset()
            == unsealed(existing, candidates).to_multiset(),
{
    let kept = unsealed(existing, candidates);
    if candidates.len() == 0 {
        assert(kept.len() <= candidates.len()) by {
            candidates.lemma_filter_len(|c: HashCandidate| !existing.contains(c.hash_hex@));
        }
        assert(kept =~= Seq::<HashCandidate>::empty());
        assert(Seq::<Seq<HashCandidate>>::empty().flatten() =~= Seq::<HashCandidate>::empty());
    } else {
        lemma_chunks_flatten(sort_candidates(kept), max_batch_size);
        law_sort_permutes(kept);
    }
}

/// Read in order, the members of the planned batches are in non-decreasing
/// (source_type, source_ref, hash_hex) order.
pub proof fn law_batches_in_order(
    existing: Seq<Seq<char>>,
    candidates: Seq<HashCandidate>,
    max_batch_size: nat,
)
    ensures
        sorted_candidates(planned_batches(existing, candidates, max_batch_size).flatten()),
{
    if candidates.len() > 0 && max_batch_size > 0 {
        let sorted = sort_candidates(unsealed(existing, candidates));
        lemma_chunks_flatten(sorted, max_batch_size);
        law_sort_sorted(unsealed(existing, candidates));
    } else {
        assert(Seq::<Seq<HashCandidate>>::empty().flatten() =~= Seq::<HashCandidate>::empty());
    }
}

/// Every planned batch has between one and `max_batch_size` members, and every batch
/// but the last has exactly `max_batch_size`.
pub proof fn law_batch_sizes(
    existing: Seq<Seq<char>>,
    candidates: Seq<HashCandidate>,
    max_batch_size: nat,
)
    ensures
        forall|i: int|
            0 <= i < planned_batches(existing, candidates, max_batch_size).len() ==> 1 <= (
            #[trigger] planned_batches(existing, candidates, max_batch_size)[i]).len()
                <= max_batch_size,
        forall|i: int|
            0 <= i < planned_batches(existing, candidates, max_batch_size).len() - 1 ==> (
            #[trigger] planned_batches(existing, candidates, max_batch_size)[i]).len()
                == max_batch_size,
{
    if candidates.len() > 0 && max_batch_size > 0 {
        lemma_chunks_sizes(sort_candidates(unsealed(existing, candidates)), max_batch_size);
    }
}

/// Candidates that share a sort key appear in the batches, read in order, in the
/// order in which they were given (when the batch size is not zero).
pub proof fn law_batches_keep_order_of_equal_keys(
    existing: Seq<Seq<char>>,
    candidates: Seq<HashCandidate>,
    max_batch_size: nat,
    k: (Seq<char>, Option<Seq<char>>, Seq<char>),
)
    requires
        max_batch_size > 0,
    ensures
        with_key(planned_batches(existing, candidates, max_batch_size).flatten(), k) == with_key(
            unsealed(existing, candidates),
            k,
        ),
{
    let kept = unsealed(existing, candidates);
    if candidates.len() == 0 {
        assert(kept.len() <= candidates.len()) by {
            candidates.lemma_filter_len(|c: HashCandidate| !existing.contains(c.hash_hex@));
        }
        assert(kept =~= Seq::<HashCandidate>::empty());
        assert(Seq::<Seq<HashCandidate>>::empty().flatten() =~= Seq::<HashCandidate>::empty());
    } else {
        lemma_chunks_flatten(sort_candidates(kept), max_batch_size);
        law_sort_stable(kept, k);
    }
}

proof fn lemma_filter_count(s: Seq<HashCandidate>, p: spec_fn(HashCandidate) -> bool, x: HashCandidate)
    ensures
        s.filter(p).to_multiset().count(x) == if p(x) {
            s.to_multiset().count(x)
        } else {
            0
        },
    decreases s.len(),
{
    broadcast use vstd::seq_lib::group_to_multiset_ensures;
    broadcast use vstd::multiset::group_multiset_axioms;
    broadcast use vstd::multiset::group_multiset_properties;
    if s.len() == 0 {
        assert(s.filter(p) =~= s) by {
            reveal(Seq::filter);
        }
        assert(s =~= Seq::<HashCandidate>::empty());
    } else {
        let init = s.drop_last();
        lemma_filter_count(init, p, x);
        assert(s =~= init.push(s.last()));
        init.lemma_filter_push(s.last(), p);
    }
}

/// The batches do not depend on the order in which the candidates are given, as long
/// as no two of them share a sort key: any rearrangement of the same candidates yields
/// the same batches, in the same order, with the same members.
pub proof fn law_batches_ignore_input_order(
    existing: Seq<Seq<char>>,
    candidates: Seq<HashCandidate>,
    rearranged: Seq<HashCandidate>,
    max_batch_size: nat,
)
    requires
        rearranged.to_multiset() == candidates.to_multiset(),
        forall|i: int, j: int|
            0 <= i < j < candidates.len() ==> candidate_key(#[trigger] candidates[i])
                != candidate_key(#[trigger] candidates[j]),
    ensures
        planned_batches(existing, rearranged, max_batch_size) == planned_batches(
            existing,
            candidates,
            max_batch_size,
        ),
{
    broadcast use vstd::seq_lib::group_to_multiset_ensures;
    vstd::seq_lib::to_multiset_len(rearranged);
    vstd::seq_lib::to_multiset_len(candidates);
    assert(rearranged.len() == candidates.len());
    if candidates.len() > 0 && max_batch_size > 0 {
        let pred = |c: HashCandidate| !existing.contains(c.hash_hex@);
        let kept = unsealed(existing, candidates);
        let kept2 = unsealed(existing, rearranged);
        assert(kept2.to_multiset() =~= kept.to_multiset()) by {
            assert forall|x: HashCandidate| kept2.to_multiset().count(x) == kept.to_multiset().count(
                x,
            ) by {
                lemma_filter_count(candidates, pred, x);
                lemma_filter_count(rearranged, pred, x);
            }
        }
        assert(keys_unique(kept.to_multiset())) by {
            assert forall|x: HashCandidate, y: HashCandidate|
                #[trigger] kept.to_multiset().count(x) > 0 && #[trigger] kept.to_multiset().count(
                    y,
                ) > 0 && candidate_key(x) == candidate_key(y) implies x == y by {
                lemma_filter_count(candidates, pred, x);
                lemma_filter_count(candidates, pred, y);
                assert(candidates.contains(x));
                assert(candidates.contains(y));
                let i = choose|i: int| 0 <= i < candidates.len() && candidates[i] == x;
                let j = choose|j: int| 0 <= j < candidates.len() && candidates[j] == y;
                if i < j {
                    assert(candidate_key(candidates[i]) != candidate_key(candidates[j]));
                } else if j < i {
                    assert(candidate_key(candidates[j]) != candidate_key(candidates[i]));
                }
            }
        }
        let sorted = sort_candidates(kept);
        let sorted2 = sort_candidates(kept2);
        law_sort_permutes(kept);
        law_sort_permutes(kept2);
        law_sort_sorted(kept);
        law_sort_sorted(kept2);
        lemma_sorted_unique(sorted, sorted2);
    }
}

/// Dedupe drops exactly the sealed hashes: when the batch size is not zero, each
/// candidate occurs in the batches, read in order, as often as it occurs among the
/// given candidates if its hash is not one of `existing`, and not at all if it is.
pub proof fn law_batches_count_each_candidate(
    existing: Seq<Seq<char>>,
    candidates: Seq<HashCandidate>,
    max_batch_size: nat,
    x: HashCandidate,
)
    requires
        max_batch_size > 0,
    ensures
        planned_batches(existing, candidates, max_batch_size).flatten().to_multiset().count(x)
            == if existing.contains(x.hash_hex@) {
            0
        } else {
            candidates.to_multiset().count(x)
        },
{
    law_batches_cover_unsealed(existing, candidates, max_batch_size);
    lemma_filter_count(candidates, |c: HashCandidate| !existing.contains(c.hash_hex@), x);
}

/// Read in order, the members of the planned batches never step backwards in the
/// string order of their fields: the source type never decreases; under one source
/// type, a missing source reference never follows a present one and present ones
/// never decrease; under one source type and reference, the hash never decreases.
pub proof fn law_batches_in_field_order(
    existing: Seq<Seq<char>>,
    candidates: Seq<HashCandidate>,
    max_batch_size: nat,
)
    ensures
        ({
            let f = planned_batches(existing, candidates, max_batch_size).flatten();
            forall|i: int, j: int|
                0 <= i < j < f.len() ==> {
                    &&& !chars_lt((#[trigger] f[j]).source_type@, (#[trigger] f[i]).source_type@)
                    &&& f[j].source_type@ == f[i].source_type@ ==> !(f[j].source_ref is None
                        && f[i].source_ref is Some)
                    &&& f[j].source_type@ == f[i].source_type@ && f[j].source_ref is Some
                        && f[i].source_ref is Some ==> !chars_lt(
                        f[j].source_ref->0@,
                        f[i].source_ref->0@,
                    )
                    &&& f[j].source_type@ == f[i].source_type@ && opt_view(f[j].source_ref)
                        == opt_view(f[i].source_ref) ==> !chars_lt(f[j].hash_hex@, f[i].hash_hex@)
                }
        }),
{
    law_batches_in_order(existing, candidates, max_batch_size);
    let f = planned_batches(existing, candidates, max_batch_size).flatten();
    assert forall|i: int, j: int| 0 <= i < j < f.len() implies {
        &&& !chars_lt((#[trigger] f[j]).source_type@, (#[trigger] f[i]).source_type@)
        &&& f[j].source_type@ == f[i].source_type@ ==> !(f[j].source_ref is None
            && f[i].source_ref is Some)
        &&& f[j].source_type@ == f[i].source_type@ && f[j].source_ref is Some
            && f[i].source_ref is Some ==> !chars_lt(f[j].source_ref->0@, f[i].source_ref->0@)
        &&& f[j].source_type@ == f[i].source_type@ && opt_view(f[j].source_ref) == opt_view(
            f[i].source_ref,
        ) ==> !chars_lt(f[j].hash_hex@, f[i].hash_hex@)
    } by {
        assert(!candidate_before(f[j], f[i]));
    }
}

} // verus!
