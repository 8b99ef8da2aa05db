//! Ordering features by name, so that a baseline's snapshots come out in a
//! stable order.
use crate::model::{text_le, text_le_exec, FeatureStats};
use vstd::prelude::*;

verus! {

/// `a < b` in code-point order.
pub open spec fn text_lt(a: Seq<char>, b: Seq<char>) -> bool {
    !text_le(b, a)
}

/// Inserts a name before the first name greater than it.
pub open spec fn insert_name(s: Seq<Seq<char>>, x: Seq<char>) -> Seq<Seq<char>>
    decreases s.len(),
{
    if s.len() == 0 {
        seq![x]
    } else if text_lt(x, s[0]) {
        seq![x] + s
    } else {
        seq![s[0]] + insert_name(s.drop_first(), x)
    }
}

/// The names in code-point order (equal names keep their order).
pub open spec fn sort_names(s: Seq<Seq<char>>) -> Seq<Seq<char>>
    decreases s.len(),
{
    if s.len() == 0 {
        Seq::empty()
    } else {
        insert_name(sort_names(s.drop_first()), s[0])
    }
}

pub open spec fn insert_feature(s: Seq<FeatureStats>, x: FeatureStats) -> Seq<FeatureStats>
    decreases s.len(),
{
    if s.len() == 0 {
        seq![x]
    } else if text_lt(x.name@, s[0].name@) {
        seq![x] + s
    } else {
        seq![s[0]] + insert_feature(s.drop_first(), x)
    }
}

/// The features ordered by name.
pub open spec fn sort_features(s: Seq<FeatureStats>) -> Seq<FeatureStats>
    decreases s.len(),
{
    if s.len() == 0 {
        Seq::empty()
    } else {
        insert_feature(sort_features(s.drop_first()), s[0])
    }
}

pub open spec fn names_of(s: Seq<FeatureStats>) -> Seq<Seq<char>> {
    s.map_values(|f: FeatureStats| f.name@)
}

proof fn lemma_insert_at(s: Seq<FeatureStats>, x: FeatureStats, p: int)
    requires
        0 <= p <= s.len(),
        forall|j: int| 0 <= j < p ==> !text_lt(x.name@, (#[trigger] s[j]).name@),
        p == s.len() || text_lt(x.name@, s[p].name@),
    ensures
        insert_feature(s, x) == s.insert(p, x),
    decreases p,
{
    if p == 0 {
        if s.len() > 0 {
            assert(seq![x] + s =~= s.insert(0, x));
        } else {
            assert(seq![x] =~= s.insert(0, x));
        }
    } else {
        let t = s.drop_first();
        assert forall|j: int| 0 <= j < p - 1 implies !text_lt(x.name@, (#[trigger] t[j]).name@) by {
            assert(t[j] == s[j + 1]);
        }
        if p < s.len() {
            assert(t[p - 1] == s[p]);
        }
        assert(!text_lt(x.name@, s[0].name@));
        lemma_insert_at(t, x, p - 1);
        assert(seq![s[0]] + t.insert(p - 1, x) =~= s.insert(p, x));
    }
}

proof fn lemma_insert_names(s: Seq<FeatureStats>, x: FeatureStats)
    ensures
        names_of(insert_feature(s, x)) == insert_name(names_of(s), x.name@),
    decreases s.len(),
{
    if s.len() == 0 {
        assert(names_of(seq![x]) =~= seq![x.name@]);
    } else {
        assert(names_of(s)[0] == s[0].name@);
        assert(names_of(s).drop_first() =~= names_of(s.drop_first()));
        if text_lt(x.name@, s[0].name@) {
            assert(names_of(seq![x] + s) =~= seq![x.name@] + names_of(s));
        } else {
            lemma_insert_names(s.drop_first(), x);
            assert(names_of(seq![s[0]] + insert_feature(s.drop_first(), x)) =~= seq![s[0].name@]
                + names_of(insert_feature(s.drop_first(), x)));
        }
    }
}

/// Sorting features orders their names the same way.
pub proof fn lemma_sort_names(s: Seq<FeatureStats>)
    ensures
        names_of(sort_features(s)) == sort_names(names_of(s)),
    decreases s.len(),
{
    if s.len() == 0 {
        assert(names_of(Seq::<FeatureStats>::empty()) =~= Seq::<Seq<char>>::empty());
    } else {
        lemma_sort_names(s.drop_first());
        lemma_insert_names(sort_features(s.drop_first()), s[0]);
        assert(names_of(s).drop_first() =~= names_of(s.drop_first()));
        assert(names_of(s)[0] == s[0].name@);
    }
}

proof fn lemma_insert_members(s: Seq<FeatureStats>, x: FeatureStats)
    ensures
        forall|i: int| 0 <= i < insert_feature(s, x).len() ==> (#[trigger] insert_feature(s, x)[i] == x
            || s.contains(insert_feature(s, x)[i])),
        insert_feature(s, x).len() == s.len() + 1,
    decreases s.len(),
{
    if s.len() > 0 && !text_lt(x.name@, s[0].name@) {
        let t = s.drop_first();
        lemma_insert_members(t, x);
        let r = insert_feature(s, x);
        assert forall|i: int| 0 <= i < r.len() implies (#[trigger] r[i] == x || s.contains(r[i])) by {
            if i == 0 {
                assert(s[0] == r[0]);
            } else {
                let y = insert_feature(t, x)[i - 1];
                assert(r[i] == y);
                if y != x {
                    let j = choose|j: int| 0 <= j < t.len() && t[j] == y;
                    assert(s[j + 1] == y);
                }
            }
        }
    } else if s.len() > 0 {
        let r = insert_feature(s, x);
        assert forall|i: int| 0 <= i < r.len() implies (#[trigger] r[i] == x || s.contains(r[i])) by {
            if i > 0 {
                assert(r[i] == s[i - 1]);
            }
        }
    }
}

/// Every sorted feature is one of the features.
pub proof fn lemma_sort_members(s: Seq<FeatureStats>)
    ensures
        forall|i: int| 0 <= i < sort_features(s).len() ==> s.contains(#[trigger] sort_features(s)[i]),
        sort_features(s).len() == s.len(),
    decreases s.len(),
{
    if s.len() > 0 {
        let t = s.drop_first();
        lemma_sort_members(t);
        lemma_insert_members(sort_features(t), s[0]);
        let r = sort_features(s);
        assert forall|i: int| 0 <= i < r.len() implies s.contains(#[trigger] r[i]) by {
            if r[i] == s[0] {
                assert(s[0] == r[i]);
            } else {
                let k = choose|k: int| 0 <= k < sort_features(t).len() && sort_features(t)[k] == r[i];
                let j = choose|j: int| 0 <= j < t.len() && t[j] == sort_features(t)[k];
                assert(s[j + 1] == r[i]);
            }
        }
    }
}

/// Orders features by name; equal names keep their order.
pub fn sort_by_name(v: Vec<FeatureStats>) -> (r: Vec<FeatureStats>)
    ensures
        r@ == sort_features(v@),
{
    let ghost orig = v@;
    let mut rest = v;
    let mut out: Vec<FeatureStats> = Vec::new();
    assert(orig.skip(orig.len() as int) =~= Seq::<FeatureStats>::empty());
    while rest.len() > 0
        invariant
            rest@ == orig.take(rest.len() as int),
            rest.len() <= orig.len(),
            out@ == sort_features(orig.skip(rest.len() as int)),
        decreases rest.len(),
    {
        let ghost k = rest.len() as int;
        let x = rest.pop().unwrap();
        assert(x == orig[k - 1]);
        assert(rest@ =~= orig.take(k - 1));
        let mut p: usize = 0;
        while p < out.len() && text_le_exec(out[p].name.as_str(), x.name.as_str())
            invariant
                p <= out.len(),
                forall|j: int| 0 <= j < p ==> !text_lt(x.name@, (#[trigger] out@[j]).name@),
            decreases out.len() - p,
        {
            p = p + 1;
        }
        proof {
            lemma_insert_at(out@, x, p as int);
            let s = orig.skip(k - 1);
            assert(s[0] == x);
            assert(s.drop_first() =~= orig.skip(k));
        }
        out.insert(p, x);
    }
    assert(orig.skip(0) =~= orig);
    out
}

} // verus!
