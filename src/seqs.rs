use vstd::prelude::*;

verus! {

/// The elements of `s` that satisfy `p`, in their order.
pub open spec fn keep<A>(s: Seq<A>, p: spec_fn(A) -> bool) -> Seq<A>
    decreases s.len(),
{
    if s.len() == 0 {
        s
    } else if p(s.last()) {
        keep(s.drop_last(), p).push(s.last())
    } else {
        keep(s.drop_last(), p)
    }
}

/// How many elements of `s` fail `p`: those that `keep` leaves out.
pub open spec fn dropped<A>(s: Seq<A>, p: spec_fn(A) -> bool) -> nat
    decreases s.len(),
{
    if s.len() == 0 {
        0
    } else if p(s.last()) {
        dropped(s.drop_last(), p)
    } else {
        dropped(s.drop_last(), p) + 1
    }
}

pub proof fn lemma_keep_push<A>(s: Seq<A>, p: spec_fn(A) -> bool, x: A)
    ensures
        keep(s.push(x), p) == (if p(x) { keep(s, p).push(x) } else { keep(s, p) }),
        dropped(s.push(x), p) == (if p(x) { dropped(s, p) } else { dropped(s, p) + 1 }),
{
    assert(s.push(x).drop_last() =~= s);
}

pub proof fn lemma_keep_prefix<A>(s: Seq<A>, p: spec_fn(A) -> bool, i: int)
    requires
        0 <= i < s.len(),
    ensures
        keep(s.subrange(0, i + 1), p) == (if p(s[i]) {
            keep(s.subrange(0, i), p).push(s[i])
        } else {
            keep(s.subrange(0, i), p)
        }),
        dropped(s.subrange(0, i + 1), p) == (if p(s[i]) {
            dropped(s.subrange(0, i), p)
        } else {
            dropped(s.subrange(0, i), p) + 1
        }),
{
    assert(s.subrange(0, i + 1) =~= s.subrange(0, i).push(s[i]));
    lemma_keep_push(s.subrange(0, i), p, s[i]);
}

/// Every kept element comes from `s` and satisfies `p`.
pub proof fn lemma_keep_members<A>(s: Seq<A>, p: spec_fn(A) -> bool)
    ensures
        forall|k: int|
            0 <= k < keep(s, p).len() ==> p(#[trigger] keep(s, p)[k]) && s.contains(keep(s, p)[k]),
    decreases s.len(),
{
    if s.len() > 0 {
        let d = s.drop_last();
        let kd = keep(d, p);
        let ks = keep(s, p);
        lemma_keep_members(d, p);
        assert forall|k: int| 0 <= k < ks.len() implies p(#[trigger] ks[k]) && s.contains(ks[k]) by {
            if k < kd.len() {
                assert(ks[k] == kd[k]);
                assert(p(kd[k]) && d.contains(kd[k]));
                let j = choose|j: int| 0 <= j < d.len() && d[j] == kd[k];
                assert(s[j] == ks[k]);
            } else {
                assert(s[s.len() - 1] == ks[k]);
            }
        }
    }
}

/// Every element of `s` that satisfies `p` is kept.
pub proof fn lemma_keep_contains<A>(s: Seq<A>, p: spec_fn(A) -> bool, j: int)
    requires
        0 <= j < s.len(),
        p(s[j]),
    ensures
        keep(s, p).contains(s[j]),
    decreases s.len(),
{
    if j < s.len() - 1 {
        lemma_keep_contains(s.drop_last(), p, j);
        let k = choose|k: int| 0 <= k < keep(s.drop_last(), p).len() && keep(s.drop_last(), p)[k] == s[j];
        assert(keep(s, p)[k] == s[j]);
    } else {
        assert(keep(s, p)[keep(s, p).len() - 1] == s[j]);
    }
}

/// Keeping preserves distinct keys.
pub proof fn lemma_keep_distinct<A>(s: Seq<A>, p: spec_fn(A) -> bool, key: spec_fn(A) -> u64)
    requires
        forall|i: int, j: int| 0 <= i < s.len() && 0 <= j < s.len() && i != j ==> key(s[i]) != key(s[j]),
    ensures
        forall|i: int, j: int|
            0 <= i < keep(s, p).len() && 0 <= j < keep(s, p).len() && i != j ==> key(keep(s, p)[i])
                != key(keep(s, p)[j]),
    decreases s.len(),
{
    if s.len() > 0 {
        let d = s.drop_last();
        lemma_keep_distinct(d, p, key);
        lemma_keep_members(d, p);
        let ks = keep(s, p);
        assert forall|i: int, j: int|
            0 <= i < ks.len() && 0 <= j < ks.len() && i != j implies key(ks[i]) != key(ks[j]) by {
            let kd = keep(d, p);
            if i < kd.len() && j < kd.len() {
            } else if i < kd.len() {
                assert(p(kd[i]));
                let m = choose|m: int| 0 <= m < d.len() && d[m] == kd[i];
                assert(s[m] == ks[i]);
            } else {
                assert(p(kd[j]));
                let m = choose|m: int| 0 <= m < d.len() && d[m] == kd[j];
                assert(s[m] == ks[j]);
            }
        }
    }
}

/// Kept and dropped elements together make up the whole sequence.
pub proof fn lemma_keep_dropped_len<A>(s: Seq<A>, p: spec_fn(A) -> bool)
    ensures
        keep(s, p).len() + dropped(s, p) == s.len(),
    decreases s.len(),
{
    if s.len() > 0 {
        lemma_keep_dropped_len(s.drop_last(), p);
    }
}

/// Where an element fails `p`, keeping shortens the sequence.
pub proof fn lemma_keep_len_eq<A>(s: Seq<A>, p: spec_fn(A) -> bool, j: int)
    requires
        0 <= j < s.len(),
        !p(s[j]),
    ensures
        keep(s, p).len() < s.len(),
    decreases s.len(),
{
    lemma_keep_dropped_len(s, p);
    lemma_dropped_pos(s, p, j);
}

proof fn lemma_dropped_pos<A>(s: Seq<A>, p: spec_fn(A) -> bool, j: int)
    requires
        0 <= j < s.len(),
        !p(s[j]),
    ensures
        dropped(s, p) > 0,
    decreases s.len(),
{
    if j < s.len() - 1 {
        lemma_dropped_pos(s.drop_last(), p, j);
    }
}

} // verus!
