//! The batching order of hash candidates and a stable sort by it.
use vstd::prelude::*;
use vstd::multiset::Multiset;
use crate::candidates::{HashCandidate, opt_view};
use crate::text::{
    chars_lt, lemma_chars_lt_irreflexive, lemma_chars_lt_total, lemma_chars_lt_transitive,
    str_lt,
};

verus! {

/// Optional strings in the order of `Option<String>`: `None` first, then by string order.
pub open spec fn opt_chars_lt(a: Option<Seq<char>>, b: Option<Seq<char>>) -> bool {
    match a {
        None => b is Some,
        Some(x) => match b {
            None => false,
            Some(y) => chars_lt(x, y),
        },
    }
}

/// The sort key of a candidate: source type, then source reference, then hash.
pub open spec fn candidate_key(c: HashCandidate) -> (Seq<char>, Option<Seq<char>>, Seq<char>) {
    (c.source_type@, opt_view(c.source_ref), c.hash_hex@)
}

/// `a` comes strictly before `b`: its key is lexicographically smaller, comparing
/// source type, then source reference, then hash.
pub open spec fn candidate_before(a: HashCandidate, b: HashCandidate) -> bool {
    ||| chars_lt(a.source_type@, b.source_type@)
    ||| a.source_type@ == b.source_type@ && opt_chars_lt(opt_view(a.source_ref), opt_view(b.source_ref))
    ||| a.source_type@ == b.source_type@ && opt_view(a.source_ref) == opt_view(b.source_ref)
        && chars_lt(a.hash_hex@, b.hash_hex@)
}

/// `s` is in non-decreasing batching order: no element comes before an earlier one.
pub open spec fn sorted_candidates(s: Seq<HashCandidate>) -> bool {
    forall|i: int, j: int| 0 <= i < j < s.len() ==> !candidate_before(#[trigger] s[j], #[trigger] s[i])
}

proof fn lemma_opt_lt_irreflexive(a: Option<Seq<char>>)
    ensures
        !opt_chars_lt(a, a),
{
    if let Some(x) = a {
        lemma_chars_lt_irreflexive(x);
    }
}

proof fn lemma_opt_lt_transitive(a: Option<Seq<char>>, b: Option<Seq<char>>, c: Option<Seq<char>>)
    requires
        opt_chars_lt(a, b),
        opt_chars_lt(b, c),
    ensures
        opt_chars_lt(a, c),
{
    if a is Some {
        lemma_chars_lt_transitive(a->0, b->0, c->0);
    }
}

proof fn lemma_opt_lt_total(a: Option<Seq<char>>, b: Option<Seq<char>>)
    ensures
        a == b || opt_chars_lt(a, b) || opt_chars_lt(b, a),
{
    if a is Some && b is Some {
        lemma_chars_lt_total(a->0, b->0);
    }
}

/// No candidate comes before itself.
pub proof fn lemma_before_irreflexive(a: HashCandidate)
    ensures
        !candidate_before(a, a),
{
    lemma_chars_lt_irreflexive(a.source_type@);
    lemma_opt_lt_irreflexive(opt_view(a.source_ref));
    lemma_chars_lt_irreflexive(a.hash_hex@);
}

/// Coming-before is transitive.
pub proof fn lemma_before_transitive(a: HashCandidate, b: HashCandidate, c: HashCandidate)
    requires
        candidate_before(a, b),
        candidate_before(b, c),
    ensures
        candidate_before(a, c),
{
    let (a1, a2, a3) = (a.source_type@, opt_view(a.source_ref), a.hash_hex@);
    let (b1, b2, b3) = (b.source_type@, opt_view(b.source_ref), b.hash_hex@);
    let (c1, c2, c3) = (c.source_type@, opt_view(c.source_ref), c.hash_hex@);
    if chars_lt(a1, b1) && chars_lt(b1, c1) {
        lemma_chars_lt_transitive(a1, b1, c1);
    } else if a1 == b1 && b1 == c1 {
        if opt_chars_lt(a2, b2) && opt_chars_lt(b2, c2) {
            lemma_opt_lt_transitive(a2, b2, c2);
        } else if a2 == b2 && b2 == c2 {
            lemma_chars_lt_transitive(a3, b3, c3);
        }
    }
}

/// Two candidates are ordered one way or the other unless their keys are equal.
pub proof fn lemma_before_total(a: HashCandidate, b: HashCandidate)
    ensures
        candidate_key(a) == candidate_key(b) || candidate_before(a, b) || candidate_before(b, a),
{
    lemma_chars_lt_total(a.source_type@, b.source_type@);
    lemma_opt_lt_total(opt_view(a.source_ref), opt_view(b.source_ref));
    lemma_chars_lt_total(a.hash_hex@, b.hash_hex@);
}

fn opt_str_lt(a: &Option<String>, b: &Option<String>) -> (lt: bool)
    ensures
        lt == opt_chars_lt(opt_view(*a), opt_view(*b)),
{
    match a {
        None => b.is_some(),
        Some(x) => match b {
            None => false,
            Some(y) => str_lt(x.as_str(), y.as_str()),
        },
    }
}

fn opt_str_eq(a: &Option<String>, b: &Option<String>) -> (eq: bool)
    ensures
        eq == (opt_view(*a) == opt_view(*b)),
{
    match a {
        None => b.is_none(),
        Some(x) => match b {
            None => false,
            Some(y) => *x == *y,
        },
    }
}

/// Whether `a` comes strictly before `b` in batching order.
pub fn candidate_before_exec(a: &HashCandidate, b: &HashCandidate) -> (lt: bool)
    ensures
        lt == candidate_before(*a, *b),
{
    if str_lt(a.source_type.as_str(), b.source_type.as_str()) {
        return true;
    }
    if a.source_type != b.source_type {
        return false;
    }
    if opt_str_lt(&a.source_ref, &b.source_ref) {
        return true;
    }
    if !opt_str_eq(&a.source_ref, &b.source_ref) {
        return false;
    }
    str_lt(a.hash_hex.as_str(), b.hash_hex.as_str())
}

/// `x` placed into `s` just before the first element that it comes before, or at the end.
pub open spec fn insert_in_order(s: Seq<HashCandidate>, x: HashCandidate) -> Seq<HashCandidate>
    decreases s.len(),
{
    if s.len() == 0 {
        seq![x]
    } else if candidate_before(x, s[0]) {
        seq![x] + s
    } else {
        seq![s[0]] + insert_in_order(s.drop_first(), x)
    }
}

/// Stable sort of `s` by batching order: elements are inserted one by one, each after
/// every earlier element that does not come after it, so elements with equal keys keep
/// their relative order.
pub open spec fn sort_candidates(s: Seq<HashCandidate>) -> Seq<HashCandidate>
    decreases s.len(),
{
    if s.len() == 0 {
        s
    } else {
        insert_in_order(sort_candidates(s.drop_last()), s.last())
    }
}

proof fn lemma_insert_at_first_greater(s: Seq<HashCandidate>, x: HashCandidate, k: int)
    requires
        0 <= k <= s.len(),
        forall|m: int| 0 <= m < k ==> !candidate_before(x, #[trigger] s[m]),
        k < s.len() ==> candidate_before(x, s[k]),
    ensures
        insert_in_order(s, x) == s.insert(k, x),
    decreases s.len(),
{
    if s.len() == 0 {
        assert(s.insert(k, x) =~= seq![x]);
    } else if k == 0 {
        assert(s.insert(k, x) =~= seq![x] + s);
    } else {
        let rest = s.drop_first();
        assert forall|m: int| 0 <= m < k - 1 implies !candidate_before(x, #[trigger] rest[m]) by {
            assert(rest[m] == s[m + 1]);
        }
        lemma_insert_at_first_greater(rest, x, k - 1);
        assert(s.insert(k, x) =~= seq![s[0]] + rest.insert(k - 1, x));
    }
}

proof fn lemma_insert_multiset(s: Seq<HashCandidate>, x: HashCandidate)
    ensures
        insert_in_order(s, x).to_multiset() == s.to_multiset().insert(x),
    decreases s.len(),
{
    broadcast use vstd::seq_lib::group_to_multiset_ensures;
    if s.len() == 0 {
        assert(seq![x] =~= Seq::<HashCandidate>::empty().push(x));
    } else if candidate_before(x, s[0]) {
        vstd::seq_lib::lemma_multiset_commutative(seq![x], s);
        assert(seq![x] =~= Seq::<HashCandidate>::empty().push(x));
        assert(s.to_multiset().insert(x) =~= seq![x].to_multiset().add(s.to_multiset()));
    } else {
        let rest = s.drop_first();
        lemma_insert_multiset(rest, x);
        vstd::seq_lib::lemma_multiset_commutative(seq![s[0]], insert_in_order(rest, x));
        vstd::seq_lib::lemma_multiset_commutative(seq![s[0]], rest);
        assert(s =~= seq![s[0]] + rest);
        assert(seq![s[0]] =~= Seq::<HashCandidate>::empty().push(s[0]));
        assert(insert_in_order(s, x).to_multiset() =~= s.to_multiset().insert(x));
    }
}

proof fn lemma_insert_bounded(s: Seq<HashCandidate>, x: HashCandidate, b: HashCandidate)
    requires
        forall|m: int| 0 <= m < s.len() ==> !candidate_before(#[trigger] s[m], b),
        !candidate_before(x, b),
    ensures
        forall|m: int| 0 <= m < insert_in_order(s, x).len() ==> !candidate_before(
            #[trigger] insert_in_order(s, x)[m],
            b,
        ),
    decreases s.len(),
{
    if s.len() > 0 && !candidate_before(x, s[0]) {
        let rest = s.drop_first();
        assert forall|m: int| 0 <= m < rest.len() implies !candidate_before(#[trigger] rest[m], b) by {
            assert(rest[m] == s[m + 1]);
        }
        lemma_insert_bounded(rest, x, b);
        let r = insert_in_order(s, x);
        assert forall|m: int| 0 <= m < r.len() implies !candidate_before(#[trigger] r[m], b) by {
            if m > 0 {
                assert(r[m] == insert_in_order(rest, x)[m - 1]);
            }
        }
    }
}

proof fn lemma_insert_len(s: Seq<HashCandidate>, x: HashCandidate)
    ensures
        insert_in_order(s, x).len() == s.len() + 1,
    decreases s.len(),
{
    if s.len() > 0 && !candidate_before(x, s[0]) {
        lemma_insert_len(s.drop_first(), x);
    }
}

proof fn lemma_insert_sorted(s: Seq<HashCandidate>, x: HashCandidate)
    requires
        sorted_candidates(s),
    ensures
        sorted_candidates(insert_in_order(s, x)),
    decreases s.len(),
{
    lemma_insert_len(s, x);
    if s.len() == 0 {
    } else if candidate_before(x, s[0]) {
        let r = seq![x] + s;
        assert forall|i: int, j: int| 0 <= i < j < r.len() implies !candidate_before(
            #[trigger] r[j],
            #[trigger] r[i],
        ) by {
            if i == 0 {
                if candidate_before(r[j], x) {
                    if j - 1 > 0 {
                        assert(!candidate_before(s[j - 1], s[0]));
                    }
                    lemma_before_transitive(s[j - 1], x, s[0]);
                    lemma_before_irreflexive(s[0]);
                }
            } else {
                assert(r[i] == s[i - 1] && r[j] == s[j - 1]);
            }
        }
    } else {
        let rest = s.drop_first();
        assert(sorted_candidates(rest)) by {
            assert forall|i: int, j: int| 0 <= i < j < rest.len() implies !candidate_before(
                #[trigger] rest[j],
                #[trigger] rest[i],
            ) by {
                assert(rest[i] == s[i + 1] && rest[j] == s[j + 1]);
            }
        }
        lemma_insert_sorted(rest, x);
        let tail = insert_in_order(rest, x);
        assert forall|m: int| 0 <= m < rest.len() implies !candidate_before(#[trigger] rest[m], s[0]) by {
            assert(rest[m] == s[m + 1]);
        }
        lemma_insert_bounded(rest, x, s[0]);
        let r = insert_in_order(s, x);
        assert(r =~= seq![s[0]] + tail);
        assert forall|i: int, j: int| 0 <= i < j < r.len() implies !candidate_before(
            #[trigger] r[j],
            #[trigger] r[i],
        ) by {
            if i == 0 {
                assert(r[j] == tail[j - 1]);
            } else {
                assert(r[i] == tail[i - 1] && r[j] == tail[j - 1]);
            }
        }
    }
}

/// Sorting yields a sequence in batching order.
pub proof fn law_sort_sorted(s: Seq<HashCandidate>)
    ensures
        sorted_candidates(sort_candidates(s)),
    decreases s.len(),
{
    if s.len() > 0 {
        law_sort_sorted(s.drop_last());
        lemma_insert_sorted(sort_candidates(s.drop_last()), s.last());
    }
}

/// Sorting rearranges: it neither loses nor adds an element.
pub proof fn law_sort_permutes(s: Seq<HashCandidate>)
    ensures
        sort_candidates(s).to_multiset() == s.to_multiset(),
    decreases s.len(),
{
    broadcast use vstd::seq_lib::group_to_multiset_ensures;
    if s.len() > 0 {
        law_sort_permutes(s.drop_last());
        lemma_insert_multiset(sort_candidates(s.drop_last()), s.last());
        assert(s =~= s.drop_last().push(s.last()));
    }
}

/// The candidates whose sort key is `k`.
pub open spec fn with_key(
    s: Seq<HashCandidate>,
    k: (Seq<char>, Option<Seq<char>>, Seq<char>),
) -> Seq<HashCandidate> {
    s.filter(|c: HashCandidate| candidate_key(c) == k)
}

proof fn lemma_before_same_key(a: HashCandidate, b: HashCandidate, c: HashCandidate)
    requires
        candidate_key(a) == candidate_key(b),
    ensures
        candidate_before(a, c) == candidate_before(b, c),
        candidate_before(c, a) == candidate_before(c, b),
{
}

proof fn lemma_insert_with_key(
    t: Seq<HashCandidate>,
    x: HashCandidate,
    k: (Seq<char>, Option<Seq<char>>, Seq<char>),
)
    requires
        sorted_candidates(t),
    ensures
        with_key(insert_in_order(t, x), k) == if candidate_key(x) == k {
            with_key(t, k).push(x)
        } else {
            with_key(t, k)
        },
    decreases t.len(),
{
    broadcast use vstd::seq_lib::group_seq_lib_default;
    let p = |c: HashCandidate| candidate_key(c) == k;
    let one = seq![x];
    assert(one =~= Seq::<HashCandidate>::empty().push(x));
    Seq::<HashCandidate>::empty().lemma_filter_push(x, p);
    if t.len() == 0 {
        assert(Seq::<HashCandidate>::empty().filter(p) =~= Seq::<HashCandidate>::empty()) by {
            reveal(Seq::filter);
        }
    } else if candidate_before(x, t[0]) {
        Seq::filter_distributes_over_add(one, t, p);
        if candidate_key(x) == k {
            assert(t.filter(p) =~= Seq::<HashCandidate>::empty()) by {
                assert forall|m: int| 0 <= m < t.len() implies !p(#[trigger] t[m]) by {
                    if m > 0 {
                        assert(!candidate_before(t[m], t[0]));
                        lemma_before_total(t[0], t[m]);
                        if candidate_key(t[0]) == candidate_key(t[m]) {
                            lemma_before_same_key(t[0], t[m], x);
                        } else {
                            lemma_before_transitive(x, t[0], t[m]);
                        }
                    }
                    if p(t[m]) {
                        lemma_before_same_key(t[m], x, x);
                        lemma_before_irreflexive(x);
                    }
                }
                t.lemma_filter_len(p);
                if t.filter(p).len() > 0 {
                    t.lemma_filter_pred(p, 0);
                    assert(t.filter(p).contains(t.filter(p)[0]));
                    t.lemma_filter_contains_rev(p, t.filter(p)[0]);
                }
            }
            assert(Seq::<HashCandidate>::empty().filter(p) =~= Seq::<HashCandidate>::empty()) by {
                reveal(Seq::filter);
            }
        } else {
            assert(Seq::<HashCandidate>::empty().filter(p) =~= Seq::<HashCandidate>::empty()) by {
                reveal(Seq::filter);
            }
        }
    } else {
        let rest = t.drop_first();
        assert(sorted_candidates(rest)) by {
            assert forall|i: int, j: int| 0 <= i < j < rest.len() implies !candidate_before(
                #[trigger] rest[j],
                #[trigger] rest[i],
            ) by {
                assert(rest[i] == t[i + 1] && rest[j] == t[j + 1]);
            }
        }
        lemma_insert_with_key(rest, x, k);
        let head = seq![t[0]];
        assert(t =~= head + rest);
        Seq::filter_distributes_over_add(head, rest, p);
        Seq::filter_distributes_over_add(head, insert_in_order(rest, x), p);
        if candidate_key(x) == k {
            assert(head.filter(p) + rest.filter(p).push(x) =~= (head.filter(p) + rest.filter(
                p,
            )).push(x));
        }
    }
}

/// Sorting is stable: the candidates that share a sort key come out in the order in
/// which they went in.
pub proof fn law_sort_stable(s: Seq<HashCandidate>, k: (Seq<char>, Option<Seq<char>>, Seq<char>))
    ensures
        with_key(sort_candidates(s), k) == with_key(s, k),
    decreases s.len(),
{
    if s.len() == 0 {
    } else {
        let p = |c: HashCandidate| candidate_key(c) == k;
        law_sort_stable(s.drop_last(), k);
        law_sort_sorted(s.drop_last());
        lemma_insert_with_key(sort_candidates(s.drop_last()), s.last(), k);
        assert(s =~= s.drop_last().push(s.last()));
        s.drop_last().lemma_filter_push(s.last(), p);
    }
}

/// No two distinct elements of `m` share a sort key.
pub open spec fn keys_unique(m: Multiset<HashCandidate>) -> bool {
    forall|x: HashCandidate, y: HashCandidate|
        #[trigger] m.count(x) > 0 && #[trigger] m.count(y) > 0 && candidate_key(x) == candidate_key(
            y,
        ) ==> x == y
}

proof fn lemma_sorted_drop_first(s: Seq<HashCandidate>)
    requires
        sorted_candidates(s),
        s.len() > 0,
    ensures
        sorted_candidates(s.drop_first()),
{
    let rest = s.drop_first();
    assert forall|i: int, j: int| 0 <= i < j < rest.len() implies !candidate_before(
        #[trigger] rest[j],
        #[trigger] rest[i],
    ) by {
        assert(rest[i] == s[i + 1] && rest[j] == s[j + 1]);
    }
}

/// Two sequences in batching order that hold the same elements, none of two distinct
/// ones sharing a key, are the same sequence.
pub proof fn lemma_sorted_unique(a: Seq<HashCandidate>, b: Seq<HashCandidate>)
    requires
        sorted_candidates(a),
        sorted_candidates(b),
        a.to_multiset() == b.to_multiset(),
        keys_unique(a.to_multiset()),
    ensures
        a == b,
    decreases a.len(),
{
    broadcast use vstd::seq_lib::group_to_multiset_ensures;
    broadcast use vstd::multiset::group_multiset_axioms;
    vstd::seq_lib::to_multiset_len(a);
    vstd::seq_lib::to_multiset_len(b);
    if a.len() == 0 {
        assert(b.len() == 0);
        assert(a =~= b);
    } else {
        assert(b.len() == a.len());
        assert(a.contains(a[0]));
        assert(b.to_multiset().count(a[0]) > 0);
        assert(b.contains(a[0]));
        let j = choose|j: int| 0 <= j < b.len() && b[j] == a[0];
        assert(b.contains(b[0]));
        assert(a.to_multiset().count(b[0]) > 0);
        assert(a.contains(b[0]));
        let k = choose|k: int| 0 <= k < a.len() && a[k] == b[0];
        if j > 0 {
            assert(!candidate_before(b[j], b[0]));
        } else {
            lemma_before_irreflexive(a[0]);
        }
        if k > 0 {
            assert(!candidate_before(a[k], a[0]));
        } else {
            lemma_before_irreflexive(a[0]);
        }
        lemma_before_total(a[0], b[0]);
        assert(a.to_multiset().count(a[0]) > 0);
        assert(a[0] == b[0]);
        let ra = a.drop_first();
        let rb = b.drop_first();
        assert(a.remove(0) =~= ra);
        assert(b.remove(0) =~= rb);
        assert(ra.to_multiset() == a.to_multiset().remove(a[0]));
        assert(rb.to_multiset() == b.to_multiset().remove(b[0]));
        assert forall|x: HashCandidate, y: HashCandidate|
            #[trigger] ra.to_multiset().count(x) > 0 && #[trigger] ra.to_multiset().count(y) > 0
                && candidate_key(x) == candidate_key(y) implies x == y by {
            assert(a.to_multiset().count(x) > 0);
            assert(a.to_multiset().count(y) > 0);
        }
        lemma_sorted_drop_first(a);
        lemma_sorted_drop_first(b);
        lemma_sorted_unique(ra, rb);
        assert(a =~= b) by {
            assert forall|q: int| 0 <= q < a.len() implies a[q] == b[q] by {
                if q > 0 {
                    assert(a[q] == ra[q - 1]);
                    assert(b[q] == rb[q - 1]);
                }
            }
        }
    }
}

/// The candidates in stable batching order.
pub fn sort_by_batching_order(candidates: Vec<HashCandidate>) -> (sorted: Vec<HashCandidate>)
    ensures
        sorted@ == sort_candidates(candidates@),
{
    let ghost input = candidates@;
    let mut sorted: Vec<HashCandidate> = Vec::new();
    for c in it: candidates.into_iter()
        invariant
            it.seq() == input,
            sorted@ == sort_candidates(input.take(it.index() as int)),
    {
        let mut k: usize = 0;
        while k < sorted.len()
            invariant
                k <= sorted@.len(),
                forall|m: int| 0 <= m < k ==> !candidate_before(c, #[trigger] sorted@[m]),
            ensures
                k <= sorted@.len(),
                forall|m: int| 0 <= m < k ==> !candidate_before(c, #[trigger] sorted@[m]),
                k < sorted@.len() ==> candidate_before(c, sorted@[k as int]),
            decreases sorted@.len() - k,
        {
            if candidate_before_exec(&c, &sorted[k]) {
                break;
            }
            k = k + 1;
        }
        proof {
            lemma_insert_at_first_greater(sorted@, c, k as int);
            let i = it.index() as int;
            assert(input.take(i + 1).drop_last() =~= input.take(i));
            assert(input.take(i + 1).last() == c);
        }
        sorted.insert(k, c);
    }
    proof {
        assert(input.take(input.len() as int) =~= input);
    }
    sorted
}

} // verus!
