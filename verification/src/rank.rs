//! Ranking search candidates. A candidate is a key with an order key for its score: a larger
//! order key stands for a better score, equal ones for equal scores.
use vstd::multiset::Multiset;
use vstd::prelude::*;

verus! {

/// `x` placed into a list ranked best first: after every entry that scores at least as well,
/// before the first that scores worse.
pub open spec fn insert_ranked(r: Seq<(u64, String)>, x: (u64, String)) -> Seq<(u64, String)>
    decreases r.len(),
{
    if r.len() == 0 {
        seq![x]
    } else if r[0].0 >= x.0 {
        seq![r[0]] + insert_ranked(r.drop_first(), x)
    } else {
        seq![x] + r
    }
}

/// The candidates ranked best first; candidates that score the same keep their order (a
/// stable sort by descending score).
pub open spec fn ranked(s: Seq<(u64, String)>) -> Seq<(u64, String)>
    decreases s.len(),
{
    if s.len() == 0 {
        Seq::empty()
    } else {
        insert_ranked(ranked(s.drop_last()), s.last())
    }
}

/// The first `k` entries of `s` whose score reaches `threshold`, in order.
pub open spec fn first_reaching(s: Seq<(u64, String)>, threshold: u64, k: nat) -> Seq<(u64, String)>
    decreases s.len(),
{
    if s.len() == 0 || k == 0 {
        Seq::empty()
    } else if s[0].0 >= threshold {
        seq![s[0]] + first_reaching(s.drop_first(), threshold, (k - 1) as nat)
    } else {
        first_reaching(s.drop_first(), threshold, k)
    }
}

/// Ranked best first, no entry after a worse one.
pub open spec fn best_first(s: Seq<(u64, String)>) -> bool {
    forall|i: int, j: int| 0 <= i < j < s.len() ==> (#[trigger] s[i]).0 >= (#[trigger] s[j]).0
}

proof fn lemma_insert_ranked_at(r: Seq<(u64, String)>, x: (u64, String), p: int)
    requires
        0 <= p <= r.len(),
        forall|i: int| 0 <= i < p ==> (#[trigger] r[i]).0 >= x.0,
        p < r.len() ==> r[p].0 < x.0,
    ensures
        insert_ranked(r, x) == r.insert(p, x),
    decreases p,
{
    if p == 0 {
        if r.len() == 0 {
            assert(r.insert(0, x) =~= seq![x]);
        } else {
            assert(r.insert(0, x) =~= seq![x] + r);
        }
    } else {
        let t = r.drop_first();
        assert forall|i: int| 0 <= i < p - 1 implies (#[trigger] t[i]).0 >= x.0 by {
            assert(t[i] == r[i + 1]);
        }
        if p < r.len() {
            assert(t[p - 1] == r[p]);
        }
        lemma_insert_ranked_at(t, x, p - 1);
        assert(r.insert(p, x) =~= seq![r[0]] + t.insert(p - 1, x));
    }
}

proof fn lemma_insert_ranked_keeps_order(r: Seq<(u64, String)>, x: (u64, String))
    requires
        best_first(r),
    ensures
        best_first(insert_ranked(r, x)),
        insert_ranked(r, x).to_multiset() == r.to_multiset().insert(x),
    decreases r.len(),
{
    broadcast use vstd::multiset::group_multiset_axioms;

    if r.len() == 0 {
        assert(seq![x].to_multiset() =~= r.to_multiset().insert(x)) by {
            broadcast use vstd::seq_lib::group_to_multiset_ensures;

            assert(r.to_multiset() =~= Multiset::empty());
            assert(seq![x] =~= r.push(x));
        }
    } else if r[0].0 >= x.0 {
        let t = r.drop_first();
        assert(best_first(t)) by {
            assert forall|i: int, j: int| 0 <= i < j < t.len() implies (#[trigger] t[i]).0 >= (
            #[trigger] t[j]).0 by {
                assert(t[i] == r[i + 1] && t[j] == r[j + 1]);
            }
        }
        lemma_insert_ranked_keeps_order(t, x);
        let it = insert_ranked(t, x);
        let out = seq![r[0]] + it;
        assert forall|j: int| 0 <= j < it.len() implies (#[trigger] it[j]).0 <= r[0].0 by {
            assert(it.to_multiset().count(it[j]) > 0) by {
                vstd::seq_lib::lemma_seq_contains_after_push(Seq::<(u64, String)>::empty(), it[j], it[j]);
                it.to_multiset_ensures();
                assert(it.contains(it[j]));
            }
            t.to_multiset_ensures();
            if it[j] != x {
                assert(t.to_multiset().count(it[j]) > 0);
                assert(t.contains(it[j]));
                let q = choose|q: int| 0 <= q < t.len() && t[q] == it[j];
                assert(r[q + 1] == t[q]);
            }
        }
        assert forall|i: int, j: int| 0 <= i < j < out.len() implies (#[trigger] out[i]).0 >= (
        #[trigger] out[j]).0 by {
            if i == 0 {
                assert(out[j] == it[j - 1]);
            } else {
                assert(out[i] == it[i - 1] && out[j] == it[j - 1]);
            }
        }
        assert(r =~= seq![r[0]] + t);
        vstd::seq_lib::lemma_multiset_commutative(seq![r[0]], it);
        vstd::seq_lib::lemma_multiset_commutative(seq![r[0]], t);
    } else {
        let out = seq![x] + r;
        assert forall|i: int, j: int| 0 <= i < j < out.len() implies (#[trigger] out[i]).0 >= (
        #[trigger] out[j]).0 by {
            if i == 0 {
                assert(out[j] == r[j - 1]);
                if j > 1 {
                    assert(r[0].0 >= r[j - 1].0);
                }
            } else {
                assert(out[i] == r[i - 1] && out[j] == r[j - 1]);
            }
        }
        vstd::seq_lib::lemma_multiset_commutative(seq![x], r);
        assert(seq![x].to_multiset() =~= Multiset::empty().insert(x)) by {
            broadcast use vstd::seq_lib::group_to_multiset_ensures;

            assert(seq![x] =~= Seq::<(u64, String)>::empty().push(x));
            assert(Seq::<(u64, String)>::empty().to_multiset() =~= Multiset::empty());
        }
    }
}

/// Ranking puts the candidates best first and keeps each of them, no more and no fewer.
pub proof fn lemma_ranked_is_best_first(s: Seq<(u64, String)>)
    ensures
        best_first(ranked(s)),
        ranked(s).to_multiset() == s.to_multiset(),
    decreases s.len(),
{
    broadcast use vstd::seq_lib::group_to_multiset_ensures;

    if s.len() == 0 {
        assert(ranked(s).to_multiset() =~= s.to_multiset());
    } else {
        lemma_ranked_is_best_first(s.drop_last());
        lemma_insert_ranked_keeps_order(ranked(s.drop_last()), s.last());
        assert(s =~= s.drop_last().push(s.last()));
    }
}

/// The candidates ranked best first (a stable sort by descending score).
pub fn rank(cands: &Vec<(u64, String)>) -> (r: Vec<(u64, String)>)
    ensures
        r@ == ranked(cands@),
{
    let mut r: Vec<(u64, String)> = Vec::new();
    let mut i: usize = 0;
    while i < cands.len()
        invariant
            i <= cands.len(),
            r@ == ranked(cands@.take(i as int)),
            best_first(r@),
        decreases cands.len() - i,
    {
        let x = (cands[i].0, cands[i].1.clone());
        let mut p: usize = 0;
        while p < r.len() && r[p].0 >= x.0
            invariant
                p <= r.len(),
                forall|q: int| 0 <= q < p ==> (#[trigger] r@[q]).0 >= x.0,
            decreases r.len() - p,
        {
            p += 1;
        }
        proof {
            lemma_insert_ranked_at(r@, x, p as int);
            lemma_insert_ranked_keeps_order(r@, x);
            assert(cands@.take(i + 1).drop_last() =~= cands@.take(i as int));
            assert(cands@.take(i + 1).last() == cands@[i as int]);
        }
        r.insert(p, x);
        i += 1;
    }
    assert(cands@.take(cands.len() as int) =~= cands@);
    r
}

/// The first `k` entries of `s` whose score reaches `threshold`, in order.
pub fn take_reaching(s: &Vec<(u64, String)>, threshold: u64, k: usize) -> (r: Vec<(u64, String)>)
    ensures
        r@ == first_reaching(s@, threshold, k as nat),
{
    let mut r: Vec<(u64, String)> = Vec::new();
    let mut i: usize = 0;
    assert(s@.skip(0) =~= s@);
    assert(r@ + first_reaching(s@, threshold, k as nat) =~= first_reaching(s@, threshold, k as nat));
    while i < s.len() && r.len() < k
        invariant
            i <= s.len(),
            r.len() <= k,
            r@ + first_reaching(s@.skip(i as int), threshold, (k - r.len()) as nat)
                == first_reaching(s@, threshold, k as nat),
        decreases s.len() - i,
    {
        let ghost t = s@.skip(i as int);
        assert(t[0] == s@[i as int]);
        assert(t.drop_first() =~= s@.skip(i + 1));
        if s[i].0 >= threshold {
            let x = (s[i].0, s[i].1.clone());
            r.push(x);
            proof {
                assert(first_reaching(t, threshold, (k - r.len() + 1) as nat) == seq![t[0]]
                    + first_reaching(t.drop_first(), threshold, (k - r.len()) as nat));
            }
            assert(r@ + first_reaching(s@.skip(i + 1), threshold, (k - r.len()) as nat) =~= r@.drop_last()
                + (seq![t[0]] + first_reaching(t.drop_first(), threshold, (k - r.len()) as nat)));
        }
        i += 1;
    }
    proof {
        let t = s@.skip(i as int);
        if i == s.len() {
            assert(t.len() == 0);
        }
        assert(first_reaching(t, threshold, (k - r.len()) as nat) =~= Seq::empty());
        assert(r@ + Seq::<(u64, String)>::empty() =~= r@);
    }
    r
}

/// The first candidate with the best score, going through `s` in order (`None` entries stand
/// for shards with no candidate).
pub open spec fn first_best(s: Seq<Option<(u64, String)>>) -> Option<(u64, String)>
    decreases s.len(),
{
    if s.len() == 0 {
        None
    } else {
        let b = first_best(s.drop_last());
        match s.last() {
            None => b,
            Some(c) => if b matches Some(d) && c.0 <= d.0 {
                b
            } else {
                Some(c)
            },
        }
    }
}

/// The first candidate with the best score among those given (`None` entries stand for shards
/// with no candidate).
pub fn best_of(firsts: &Vec<Option<(u64, String)>>) -> (r: Option<(u64, String)>)
    ensures
        r == first_best(firsts@),
        r is None <==> (forall|i: int| 0 <= i < firsts@.len() ==> #[trigger] firsts@[i] is None),
        r matches Some(c) ==> exists|i: int|
            0 <= i < firsts@.len() && #[trigger] firsts@[i] == Some(c) && (forall|j: int|
                0 <= j < firsts@.len() ==> (#[trigger] firsts@[j] matches Some(d) ==> d.0 <= c.0))
                && (forall|j: int| 0 <= j < i ==> (#[trigger] firsts@[j] matches Some(d) ==> d.0 < c.0)),
{
    let mut best: Option<(u64, String)> = None;
    let ghost mut at: int = 0;
    let mut i: usize = 0;
    while i < firsts.len()
        invariant
            i <= firsts.len(),
            best == first_best(firsts@.take(i as int)),
            best is None <==> (forall|q: int| 0 <= q < i ==> #[trigger] firsts@[q] is None),
            best matches Some(c) ==> (0 <= at < i && firsts@[at] == Some(c) && (forall|j: int|
                0 <= j < i ==> (#[trigger] firsts@[j] matches Some(d) ==> d.0 <= c.0)) && (forall|j: int|
                0 <= j < at ==> (#[trigger] firsts@[j] matches Some(d) ==> d.0 < c.0))),
        decreases firsts.len() - i,
    {
        proof {
            assert(firsts@.take(i + 1).drop_last() =~= firsts@.take(i as int));
            assert(firsts@.take(i + 1).last() == firsts@[i as int]);
        }
        match &firsts[i] {
            Some(c) => {
                let better = match &best {
                    None => true,
                    Some(b) => c.0 > b.0,
                };
                if better {
                    proof {
                        at = i as int;
                    }
                    best = Some((c.0, c.1.clone()));
                }
            },
            None => {},
        }
        i += 1;
    }
    assert(firsts@.take(firsts.len() as int) =~= firsts@);
    best
}

} // verus!
