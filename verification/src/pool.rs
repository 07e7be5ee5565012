//! Operations on pools of candidate solutions: deduplication by content,
//! ranking, and grouping by lineage key.

use vstd::prelude::*;
use vstd::multiset::Multiset;
use core::cmp::Ordering;
use crate::models::{IBehaviour, IIndividual, IMutation};
use crate::text::{lex_cmp, lemma_lex_cmp_eq, lemma_lex_cmp_flip, lemma_lex_cmp_trans};

verus! {

/// The ranking order a behaviour induces on individuals.
pub open spec fn le_of<M: IMutation, I: IIndividual<M>, B: IBehaviour<M, I>>(
    behaviour: &B,
) -> spec_fn(I, I) -> bool {
    |x: I, y: I| behaviour.score_le(&x, &y)
}

/// The ranking order refined by the textual tie-break: score-equivalent
/// individuals are ordered by their textual representation.
pub open spec fn tie_le_of<M: IMutation, I: IIndividual<M>, B: IBehaviour<M, I>>(
    behaviour: &B,
) -> spec_fn(I, I) -> bool {
    |x: I, y: I|
        behaviour.score_le(&x, &y) && (!behaviour.score_le(&y, &x) || lex_cmp(x.text(), y.text())
            != Ordering::Greater)
}

/// One of the two ranking orders, chosen by `tie`.
pub open spec fn order_of<M: IMutation, I: IIndividual<M>, B: IBehaviour<M, I>>(
    behaviour: &B,
    tie: bool,
) -> spec_fn(I, I) -> bool {
    if tie {
        tie_le_of(behaviour)
    } else {
        le_of(behaviour)
    }
}

/// The chosen order relates every pair of individuals.
pub proof fn lemma_order_total<M: IMutation, I: IIndividual<M>, B: IBehaviour<M, I>>(
    behaviour: &B,
    tie: bool,
    x: I,
    y: I,
)
    ensures
        order_of(behaviour, tie)(x, y) || order_of(behaviour, tie)(y, x),
{
    behaviour.lemma_score_le_total(&x, &y);
    if tie {
        if behaviour.score_le(&x, &y) && behaviour.score_le(&y, &x) {
            lemma_lex_cmp_flip(x.text(), y.text());
            lemma_lex_cmp_eq(x.text(), y.text());
        }
    }
}

/// The chosen order is transitive.
pub proof fn lemma_order_trans<M: IMutation, I: IIndividual<M>, B: IBehaviour<M, I>>(
    behaviour: &B,
    tie: bool,
    x: I,
    y: I,
    z: I,
)
    requires
        order_of(behaviour, tie)(x, y),
        order_of(behaviour, tie)(y, z),
    ensures
        order_of(behaviour, tie)(x, z),
{
    behaviour.lemma_score_le_trans(&x, &y, &z);
    if tie {
        if behaviour.score_le(&z, &x) {
            // All three are score-equivalent, so the text order decides.
            behaviour.lemma_score_le_trans(&z, &x, &y);
            behaviour.lemma_score_le_trans(&y, &z, &x);
            let tx = x.text();
            let ty = y.text();
            let tz = z.text();
            lemma_lex_cmp_flip(tx, ty);
            lemma_lex_cmp_flip(ty, tz);
            lemma_lex_cmp_flip(tx, tz);
            lemma_lex_cmp_eq(tx, ty);
            lemma_lex_cmp_eq(ty, tz);
            lemma_lex_cmp_eq(tx, tz);
            if lex_cmp(tx, ty) == Ordering::Less && lex_cmp(ty, tz) == Ordering::Less {
                lemma_lex_cmp_trans(tx, ty, tz);
            }
        }
    }
}

/// No two individuals of the sequence are content-equal.
pub open spec fn distinct_contents<M: IMutation, I: IIndividual<M>>(s: Seq<I>) -> bool {
    forall|i: int, j: int|
        0 <= i < j < s.len() ==> #[trigger] s[i].content() != #[trigger] s[j].content()
}

/// Some individual of the sequence has the given content.
pub open spec fn has_content<M: IMutation, I: IIndividual<M>>(s: Seq<I>, c: Seq<Seq<char>>) -> bool {
    exists|k: int| 0 <= k < s.len() && #[trigger] s[k].content() == c
}

/// Deduplication by content: of every set of content-equal individuals the
/// first stays, in order.
pub open spec fn dedup_spec<M: IMutation, I: IIndividual<M>>(s: Seq<I>) -> Seq<I>
    decreases s.len(),
{
    if s.len() == 0 {
        s
    } else {
        let rest = dedup_spec::<M, I>(s.drop_last());
        if has_content(s.drop_last(), s.last().content()) {
            rest
        } else {
            rest.push(s.last())
        }
    }
}

/// Deduplication keeps exactly the contents of its input.
pub proof fn lemma_dedup_contents<M: IMutation, I: IIndividual<M>>(s: Seq<I>)
    ensures
        forall|c: Seq<Seq<char>>| has_content(dedup_spec::<M, I>(s), c) <==> has_content(s, c),
    decreases s.len(),
{
    lemma_dedup_membership::<M, I>(s);
    let d = dedup_spec::<M, I>(s);
    assert forall|c: Seq<Seq<char>>| has_content(d, c) implies has_content(s, c) by {
        let k = choose|k: int| 0 <= k < d.len() && #[trigger] d[k].content() == c;
        assert(s.contains(d[k]));
        let m = choose|m: int| 0 <= m < s.len() && s[m] == d[k];
        assert(s[m].content() == c);
    }
    if s.len() > 0 {
        let t = s.drop_last();
        lemma_dedup_contents::<M, I>(t);
        let dt = dedup_spec::<M, I>(t);
        assert forall|c: Seq<Seq<char>>| has_content(s, c) implies has_content(d, c) by {
            let k = choose|k: int| 0 <= k < s.len() && #[trigger] s[k].content() == c;
            if k < s.len() - 1 {
                assert(t[k] == s[k]);
                assert(t[k].content() == c);
                assert(has_content(t, c));
                assert(has_content(dt, c));
                let j = choose|j: int| 0 <= j < dt.len() && #[trigger] dt[j].content() == c;
                if has_content(t, s.last().content()) {
                    assert(d == dt);
                    assert(d[j].content() == c);
                } else {
                    assert(d[j] == dt[j]);
                    assert(d[j].content() == c);
                }
            } else {
                assert(s[k] == s.last());
                if has_content(t, c) {
                    assert(has_content(dt, c));
                    let j = choose|j: int| 0 <= j < dt.len() && #[trigger] dt[j].content() == c;
                    if has_content(t, s.last().content()) {
                        assert(d == dt);
                        assert(d[j].content() == c);
                    } else {
                        assert(d[j] == dt[j]);
                        assert(d[j].content() == c);
                    }
                } else {
                    assert(d == dt.push(s.last()));
                    assert(d[d.len() - 1].content() == c);
                }
            }
        }
    }
}

/// Deduplication leaves no two content-equal individuals.
pub proof fn lemma_dedup_distinct<M: IMutation, I: IIndividual<M>>(s: Seq<I>)
    ensures
        distinct_contents(dedup_spec::<M, I>(s)),
    decreases s.len(),
{
    if s.len() > 0 {
        let t = s.drop_last();
        lemma_dedup_distinct::<M, I>(t);
        lemma_dedup_contents::<M, I>(t);
        let d = dedup_spec::<M, I>(s);
        let dt = dedup_spec::<M, I>(t);
        if !has_content(t, s.last().content()) {
            assert forall|i: int, j: int|
                0 <= i < j < d.len() implies #[trigger] d[i].content() != #[trigger] d[j].content() by {
                if j < dt.len() {
                    assert(d[i] == dt[i] && d[j] == dt[j]);
                } else {
                    assert(d[j] == s.last());
                    assert(d[i] == dt[i]);
                    assert(has_content(dt, dt[i].content()));
                    if d[i].content() == s.last().content() {
                        assert(has_content(t, s.last().content()));
                    }
                }
            }
        }
    }
}

/// A sequence already free of content duplicates deduplicates to itself.
pub proof fn lemma_dedup_of_distinct<M: IMutation, I: IIndividual<M>>(s: Seq<I>)
    requires
        distinct_contents(s),
    ensures
        dedup_spec::<M, I>(s) == s,
    decreases s.len(),
{
    if s.len() > 0 {
        let t = s.drop_last();
        assert forall|i: int, j: int|
            0 <= i < j < t.len() implies #[trigger] t[i].content() != #[trigger] t[j].content() by {
            assert(t[i] == s[i] && t[j] == s[j]);
        }
        lemma_dedup_of_distinct::<M, I>(t);
        if has_content(t, s.last().content()) {
            let k = choose|k: int| 0 <= k < t.len() && #[trigger] t[k].content() == s.last().content();
            assert(s[k].content() == s[s.len() - 1].content());
            assert(false);
        }
        assert(dedup_spec::<M, I>(s) =~= s);
    }
}

/// Deduplicating twice yields the same result as deduplicating once.
pub proof fn lemma_dedup_idempotent<M: IMutation, I: IIndividual<M>>(s: Seq<I>)
    ensures
        dedup_spec::<M, I>(dedup_spec::<M, I>(s)) == dedup_spec::<M, I>(s),
{
    lemma_dedup_distinct::<M, I>(s);
    lemma_dedup_of_distinct::<M, I>(dedup_spec::<M, I>(s));
}

/// Deduplication never grows a sequence and never empties a nonempty one.
pub proof fn lemma_dedup_len<M: IMutation, I: IIndividual<M>>(s: Seq<I>)
    ensures
        dedup_spec::<M, I>(s).len() <= s.len(),
        s.len() > 0 ==> dedup_spec::<M, I>(s).len() > 0,
    decreases s.len(),
{
    if s.len() > 0 {
        lemma_dedup_len::<M, I>(s.drop_last());
    }
}

/// Every member of the deduplicated sequence is a member of the input.
pub proof fn lemma_dedup_membership<M: IMutation, I: IIndividual<M>>(s: Seq<I>)
    ensures
        forall|j: int|
            0 <= j < dedup_spec::<M, I>(s).len() ==> s.contains(#[trigger] dedup_spec::<M, I>(s)[j]),
    decreases s.len(),
{
    if s.len() > 0 {
        let t = s.drop_last();
        lemma_dedup_membership::<M, I>(t);
        assert forall|j: int|
            0 <= j < dedup_spec::<M, I>(s).len() implies s.contains(
            #[trigger] dedup_spec::<M, I>(s)[j],
        ) by {
            let d = dedup_spec::<M, I>(s);
            let dt = dedup_spec::<M, I>(t);
            if j < dt.len() {
                assert(d[j] == dt[j]);
                assert(t.contains(dt[j]));
                let k = choose|k: int| 0 <= k < t.len() && t[k] == dt[j];
                assert(s[k] == t[k]);
            } else {
                assert(d[j] == s.last());
            }
        }
    }
}

/// Deduplication of a ranked sequence stays ranked.
pub proof fn lemma_dedup_sorted<M: IMutation, I: IIndividual<M>>(s: Seq<I>, leq: spec_fn(I, I) -> bool)
    requires
        vstd::relations::sorted_by(s, leq),
    ensures
        vstd::relations::sorted_by(dedup_spec::<M, I>(s), leq),
    decreases s.len(),
{
    if s.len() > 0 {
        let t = s.drop_last();
        assert(vstd::relations::sorted_by(t, leq)) by {
            assert forall|i: int, j: int| 0 <= i < j < t.len() implies leq(t[i], t[j]) by {
                assert(t[i] == s[i] && t[j] == s[j]);
            }
        }
        lemma_dedup_sorted::<M, I>(t, leq);
        lemma_dedup_membership::<M, I>(t);
        let d = dedup_spec::<M, I>(s);
        let dt = dedup_spec::<M, I>(t);
        if !has_content(t, s.last().content()) {
            assert forall|i: int, j: int| 0 <= i < j < d.len() implies leq(d[i], d[j]) by {
                if j < dt.len() {
                    assert(d[i] == dt[i] && d[j] == dt[j]);
                } else {
                    assert(d[j] == s.last());
                    assert(d[i] == dt[i]);
                    assert(t.contains(dt[i]));
                    let k = choose|k: int| 0 <= k < t.len() && t[k] == dt[i];
                    assert(s[k] == t[k]);
                    assert(leq(s[k], s[s.len() - 1]));
                }
            }
        }
    }
}

/// Does some individual of `v` have the same content as `x`?
fn contains_content<M: IMutation, I: IIndividual<M>>(v: &Vec<I>, x: &I) -> (r: bool)
    ensures
        r == has_content(v@, x.content()),
{
    let mut i: usize = 0;
    while i < v.len()
        invariant
            0 <= i <= v@.len(),
            forall|k: int| 0 <= k < i ==> #[trigger] v@[k].content() != x.content(),
        decreases v@.len() - i,
    {
        if v[i].content_eq(x) {
            return true;
        }
        i = i + 1;
    }
    false
}

/// Collapse content-equal individuals to their first representative.
pub fn dedup_by_content<M: IMutation, I: IIndividual<M>>(v: Vec<I>) -> (r: Vec<I>)
    ensures
        r@ == dedup_spec::<M, I>(v@),
{
    let ghost orig = v@;
    let mut input = v;
    let mut out: Vec<I> = Vec::new();
    proof {
        assert(orig.take(0) =~= Seq::<I>::empty());
        assert(out@ =~= dedup_spec::<M, I>(orig.take(0)));
    }
    while input.len() > 0
        invariant
            input@.len() <= orig.len(),
            input@ =~= orig.skip(orig.len() - input@.len()),
            out@ == dedup_spec::<M, I>(orig.take(orig.len() - input@.len())),
        decreases input@.len(),
    {
        let ghost k = orig.len() - input@.len();
        let x = input.remove(0);
        proof {
            assert(x == orig[k]);
            assert(input@ =~= orig.skip(k + 1));
            lemma_dedup_contents::<M, I>(orig.take(k));
        }
        let dup = contains_content(&out, &x);
        let ghost prefix = orig.take(k);
        proof {
            assert(orig.take(k + 1).drop_last() =~= prefix);
            assert(orig.take(k + 1).last() == orig[k]);
        }
        if !dup {
            out.push(x);
        }
        proof {
            assert(out@ == dedup_spec::<M, I>(orig.take(k + 1)));
        }
    }
    proof {
        assert(orig.take(orig.len() as int) =~= orig);
    }
    out
}

/// Content-distinctness depends only on the multiset of individuals: any
/// rearrangement of a duplicate-free pool is duplicate-free.
pub proof fn lemma_distinct_contents_multiset<M: IMutation, I: IIndividual<M>>(
    s1: Seq<I>,
    s2: Seq<I>,
)
    requires
        s1.to_multiset() == s2.to_multiset(),
        distinct_contents(s1),
    ensures
        distinct_contents(s2),
{
    broadcast use vstd::seq_lib::group_to_multiset_ensures;

    assert forall|i: int, j: int|
        0 <= i < j < s2.len() implies #[trigger] s2[i].content() != #[trigger] s2[j].content() by {
        let x = s2[i];
        let y = s2[j];
        if x.content() == y.content() {
            if x == y {
                let r = s2.remove(i);
                assert(r[j - 1] == s2[j]);
                assert(r.contains(x));
                assert(r.to_multiset() == s2.to_multiset().remove(x));
                assert(s2.contains(x));
                assert(s2.to_multiset().count(x) >= 2) by {
                    assert(r.to_multiset().count(x) > 0);
                    assert(r.to_multiset().count(x) == s2.to_multiset().count(x) - 1);
                }
                assert(s1.to_multiset().count(x) >= 2);
                assert(s1.contains(x));
                let k1 = choose|k: int| 0 <= k < s1.len() && s1[k] == x;
                let r1 = s1.remove(k1);
                assert(r1.to_multiset() == s1.to_multiset().remove(s1[k1]));
                assert(r1.to_multiset().count(x) >= 1);
                assert(r1.contains(x));
                let k2 = choose|k: int| 0 <= k < r1.len() && r1[k] == x;
                if k2 < k1 {
                    assert(s1[k2] == x);
                    assert(s1[k2].content() == s1[k1].content());
                } else {
                    assert(s1[k2 + 1] == x);
                    assert(s1[k1].content() == s1[k2 + 1].content());
                }
            } else {
                assert(s2.contains(x));
                assert(s2.contains(y));
                assert(s1.to_multiset().count(x) > 0);
                assert(s1.to_multiset().count(y) > 0);
                assert(s1.contains(x));
                assert(s1.contains(y));
                let k1 = choose|k: int| 0 <= k < s1.len() && s1[k] == x;
                let k2 = choose|k: int| 0 <= k < s1.len() && s1[k] == y;
                assert(k1 != k2);
                assert(s1[k1].content() == s1[k2].content());
            }
        }
    }
}

fn order_leq<M: IMutation, I: IIndividual<M>, B: IBehaviour<M, I>>(
    behaviour: &B,
    a: &I,
    b: &I,
    tie: bool,
) -> (r: bool)
    ensures
        r == order_of(behaviour, tie)(*a, *b),
{
    let c = behaviour.score_cmp(a, b);
    if tie {
        match c {
            Ordering::Less => true,
            Ordering::Greater => false,
            Ordering::Equal => {
                let t = a.text_cmp(b);
                !(matches!(t, Ordering::Greater))
            },
        }
    } else {
        !(matches!(c, Ordering::Greater))
    }
}

fn find_insert_pos<M: IMutation, I: IIndividual<M>, B: IBehaviour<M, I>>(
    behaviour: &B,
    out: &Vec<I>,
    x: &I,
    tie: bool,
) -> (idx: usize)
    ensures
        idx <= out@.len(),
        forall|k: int| 0 <= k < idx ==> #[trigger] order_of(behaviour, tie)(out@[k], *x),
        idx < out@.len() ==> !order_of(behaviour, tie)(out@[idx as int], *x),
{
    let mut idx: usize = 0;
    while idx < out.len()
        invariant
            idx <= out@.len(),
            forall|k: int| 0 <= k < idx ==> #[trigger] order_of(behaviour, tie)(out@[k], *x),
        decreases out@.len() - idx,
    {
        if !order_leq(behaviour, &out[idx], x, tie) {
            return idx;
        }
        idx = idx + 1;
    }
    idx
}

/// Rank a pool under the behaviour's scoring order; with `tie` set, break
/// score ties by the textual representation.  The result is a sorted
/// rearrangement of the input.
pub fn sort_population<M: IMutation, I: IIndividual<M>, B: IBehaviour<M, I>>(
    behaviour: &B,
    v: Vec<I>,
    tie: bool,
) -> (r: Vec<I>)
    ensures
        r@.to_multiset() == v@.to_multiset(),
        r@.len() == v@.len(),
        vstd::relations::sorted_by(r@, order_of(behaviour, tie)),
{
    broadcast use vstd::seq_lib::group_to_multiset_ensures;
    broadcast use vstd::multiset::group_multiset_axioms;

    let mut input = v;
    let mut out: Vec<I> = Vec::new();
    proof {
        assert(out@.to_multiset().add(input@.to_multiset()) =~= v@.to_multiset());
    }
    while input.len() > 0
        invariant
            out@.to_multiset().add(input@.to_multiset()) == v@.to_multiset(),
            out@.len() + input@.len() == v@.len(),
            vstd::relations::sorted_by(out@, order_of(behaviour, tie)),
        decreases input@.len(),
    {
        let ghost pre_input = input@;
        let ghost pre_out = out@;
        let x = input.remove(0);
        let idx = find_insert_pos(behaviour, &out, &x, tie);
        proof {
            assert(pre_input.contains(x));
            assert forall|k: int| idx <= k < pre_out.len() implies #[trigger] order_of(
                behaviour,
                tie,
            )(x, pre_out[k]) by {
                lemma_order_total(behaviour, tie, pre_out[idx as int], x);
                if k > idx {
                    lemma_order_trans(behaviour, tie, x, pre_out[idx as int], pre_out[k]);
                }
            }
        }
        out.insert(idx, x);
        proof {
            let ord = order_of(behaviour, tie);
            assert(out@ == pre_out.insert(idx as int, x));
            pre_out.insert_ensures(idx as int, x);
            assert forall|i: int, j: int| 0 <= i < j < out@.len() implies ord(out@[i], out@[j]) by {
                if j < idx {
                    assert(out@[i] == pre_out[i] && out@[j] == pre_out[j]);
                } else if j == idx {
                    assert(out@[j] == x);
                    assert(out@[i] == pre_out[i]);
                } else {
                    assert(out@[j] == pre_out[j - 1]);
                    if i < idx {
                        assert(out@[i] == pre_out[i]);
                    } else if i == idx {
                        assert(out@[i] == x);
                    } else {
                        assert(out@[i] == pre_out[i - 1]);
                    }
                }
            }
            assert(out@ == pre_out.insert(idx as int, x));
            assert(input@ == pre_input.remove(0));
            vstd::seq_lib::to_multiset_insert::<I>(pre_out, idx as int, x);
            vstd::seq_lib::to_multiset_remove::<I>(pre_input, 0);
            assert(out@.to_multiset() == pre_out.to_multiset().insert(x));
            assert(input@.to_multiset() == pre_input.to_multiset().remove(x));
            assert(pre_input[0] == x);
            assert(pre_input.contains(x));
            pre_input.to_multiset_ensures();
            assert(pre_input.to_multiset().count(x) > 0);
            assert forall|e: I|
                out@.to_multiset().add(input@.to_multiset()).count(e) == v@.to_multiset().count(
                e,
            ) by {
                assert(pre_out.to_multiset().add(pre_input.to_multiset()).count(e)
                    == v@.to_multiset().count(e));
                assert(out@.to_multiset().count(e) == pre_out.to_multiset().insert(x).count(e));
                assert(input@.to_multiset().count(e) == pre_input.to_multiset().remove(x).count(
                    e,
                ));
            }
            assert(out@.to_multiset().add(input@.to_multiset()) =~= v@.to_multiset());
        }
    }
    proof {
        assert(input@.to_multiset() =~= Multiset::<I>::empty());
        assert(out@.to_multiset() =~= v@.to_multiset());
    }
    out
}

/// The views of a sequence of groups.
pub open spec fn group_views<I>(gs: Seq<Vec<I>>) -> Seq<Seq<I>> {
    gs.map_values(|g: Vec<I>| g@)
}

/// Every member of the group carries the given lineage key.
pub open spec fn group_kind_is<M: IMutation, I: IIndividual<M>>(g: Seq<I>, kind: Seq<char>) -> bool {
    forall|i: int| 0 <= i < g.len() ==> #[trigger] g[i].kind_spec() == kind
}

/// A well-formed grouping: every group is a nonempty run of one lineage
/// key, and adjacent groups carry different keys.
pub open spec fn kind_grouped<M: IMutation, I: IIndividual<M>>(gs: Seq<Vec<I>>) -> bool {
    &&& forall|g: int| 0 <= g < gs.len() ==> #[trigger] gs[g]@.len() > 0
    &&& forall|g: int|
        0 <= g < gs.len() ==> group_kind_is(#[trigger] gs[g]@, gs[g]@[0].kind_spec())
    &&& forall|g: int|
        0 <= g < gs.len() - 1 ==> #[trigger] gs[g]@[0].kind_spec() != gs[g + 1]@[0].kind_spec()
}

/// Partition a ranked pool into the maximal contiguous runs that share a
/// lineage key.  Concatenating the groups gives back the input.
pub fn group_by_kind<M: IMutation, I: IIndividual<M>>(v: Vec<I>) -> (r: Vec<Vec<I>>)
    ensures
        group_views(r@).flatten() == v@,
        kind_grouped::<M, I>(r@),
{
    let ghost orig = v@;
    let mut input = v;
    let mut groups: Vec<Vec<I>> = Vec::new();
    let mut current: Vec<I> = Vec::new();
    proof {
        assert(group_views(groups@) =~= Seq::<Seq<I>>::empty());
        assert(group_views(groups@).flatten() + current@ =~= orig.take(0));
    }
    while input.len() > 0
        invariant
            input@.len() <= orig.len(),
            input@ =~= orig.skip(orig.len() - input@.len()),
            group_views(groups@).flatten() + current@ =~= orig.take(orig.len() - input@.len()),
            kind_grouped::<M, I>(groups@),
            current@.len() > 0 ==> group_kind_is(current@, current@[0].kind_spec()),
            groups@.len() > 0 && current@.len() > 0 ==> groups@[groups@.len() - 1]@[0].kind_spec()
                != current@[0].kind_spec(),
            current@.len() == 0 ==> groups@.len() == 0 && input@.len() == orig.len(),
        decreases input@.len(),
    {
        let ghost k = orig.len() - input@.len();
        let ghost pre_groups = groups@;
        let ghost pre_current = current@;
        let x = input.remove(0);
        proof {
            assert(x == orig[k]);
            assert(input@ =~= orig.skip(k + 1));
            assert(orig.take(k + 1) =~= orig.take(k).push(orig[k]));
        }
        if current.len() == 0 {
            current.push(x);
        } else {
            let same = {
                let ka = current[0].get_kind();
                let kb = x.get_kind();
                ka == kb
            };
            if same {
                current.push(x);
            } else {
                groups.push(current);
                current = Vec::new();
                current.push(x);
                proof {
                    assert(group_views(groups@) =~= group_views(pre_groups).push(pre_current));
                    group_views(pre_groups).lemma_flatten_push(pre_current);
                    assert(group_views(groups@).flatten() =~= group_views(pre_groups).flatten()
                        + pre_current);
                    assert forall|g: int| 0 <= g < groups@.len() implies #[trigger] groups@[g]@.len()
                        > 0 by {
                        if g < pre_groups.len() {
                            assert(groups@[g] == pre_groups[g]);
                        }
                    }
                    assert forall|g: int|
                        0 <= g < groups@.len() implies group_kind_is(
                        #[trigger] groups@[g]@,
                        groups@[g]@[0].kind_spec(),
                    ) by {
                        if g < pre_groups.len() {
                            assert(groups@[g] == pre_groups[g]);
                        }
                    }
                    assert forall|g: int|
                        0 <= g < groups@.len() - 1 implies #[trigger] groups@[g]@[0].kind_spec()
                        != groups@[g + 1]@[0].kind_spec() by {
                        if g < pre_groups.len() - 1 {
                            assert(groups@[g] == pre_groups[g]);
                            assert(groups@[g + 1] == pre_groups[g + 1]);
                        } else {
                            assert(groups@[g] == pre_groups[g]);
                            assert(groups@[g + 1]@ == pre_current);
                        }
                    }
                }
            }
        }
        proof {
            assert(group_views(groups@).flatten() + current@ =~= orig.take(k + 1));
        }
    }
    if current.len() > 0 {
        let ghost pre_groups = groups@;
        let ghost pre_current = current@;
        groups.push(current);
        proof {
            assert(group_views(groups@) =~= group_views(pre_groups).push(pre_current));
            group_views(pre_groups).lemma_flatten_push(pre_current);
            assert forall|g: int| 0 <= g < groups@.len() implies #[trigger] groups@[g]@.len()
                > 0 by {
                if g < pre_groups.len() {
                    assert(groups@[g] == pre_groups[g]);
                }
            }
            assert forall|g: int|
                0 <= g < groups@.len() implies group_kind_is(
                #[trigger] groups@[g]@,
                groups@[g]@[0].kind_spec(),
            ) by {
                if g < pre_groups.len() {
                    assert(groups@[g] == pre_groups[g]);
                }
            }
            assert forall|g: int|
                0 <= g < groups@.len() - 1 implies #[trigger] groups@[g]@[0].kind_spec() != groups@[g
                + 1]@[0].kind_spec() by {
                if g < pre_groups.len() - 1 {
                    assert(groups@[g] == pre_groups[g]);
                    assert(groups@[g + 1] == pre_groups[g + 1]);
                } else {
                    assert(groups@[g] == pre_groups[g]);
                    assert(groups@[g + 1]@ == pre_current);
                }
            }
        }
    }
    proof {
        assert(orig.take(orig.len() as int) =~= orig);
        assert(group_views(groups@).flatten() =~= orig);
    }
    groups
}

/// Updating one slot exchanges its element in the multiset.
pub proof fn lemma_update_multiset<T>(s: Seq<T>, i: int, x: T)
    requires
        0 <= i < s.len(),
    ensures
        s.update(i, x).to_multiset() == s.to_multiset().remove(s[i]).insert(x),
{
    broadcast use vstd::seq_lib::group_to_multiset_ensures;

    assert(s.remove(i).insert(i, x) =~= s.update(i, x));
    assert(s.remove(i).to_multiset() == s.to_multiset().remove(s[i]));
    vstd::seq_lib::to_multiset_insert::<T>(s.remove(i), i, x);
}

/// Mapping respects rearrangement: sequences with one multiset of elements
/// have one multiset of images.
pub proof fn lemma_map_values_multiset<T, X>(s1: Seq<T>, s2: Seq<T>, f: spec_fn(T) -> X)
    requires
        s1.to_multiset() == s2.to_multiset(),
    ensures
        s1.map_values(f).to_multiset() == s2.map_values(f).to_multiset(),
    decreases s1.len(),
{
    broadcast use vstd::seq_lib::group_to_multiset_ensures;
    broadcast use vstd::multiset::group_multiset_axioms;

    if s1.len() == 0 {
        assert(s2.to_multiset().len() == 0);
        assert(s2.len() == 0);
        assert(s1.map_values(f) =~= s2.map_values(f));
    } else {
        let x = s1.last();
        assert(s1.contains(x));
        assert(s1.to_multiset().count(x) > 0);
        assert(s2.to_multiset().count(x) > 0);
        assert(s2.contains(x));
        let i = choose|i: int| 0 <= i < s2.len() && s2[i] == x;
        let t1 = s1.drop_last();
        let t2 = s2.remove(i);
        assert(t1.to_multiset() == t2.to_multiset()) by {
            assert(s1.remove(s1.len() - 1) =~= t1);
            assert(s1.remove(s1.len() - 1).to_multiset() == s1.to_multiset().remove(x));
            assert(t2.to_multiset() == s2.to_multiset().remove(x));
        }
        lemma_map_values_multiset(t1, t2, f);
        assert(s1.map_values(f) =~= t1.map_values(f).push(f(x)));
        assert(t1.map_values(f).push(f(x)).to_multiset() == t1.map_values(f).to_multiset().insert(
            f(x),
        ));
        assert(s2.map_values(f).remove(i) =~= t2.map_values(f));
        assert(s2.map_values(f).remove(i).to_multiset() == s2.map_values(
            f,
        ).to_multiset().remove(s2.map_values(f)[i]));
        assert(s2.map_values(f)[i] == f(x));
        assert(s2.map_values(f).contains(f(x))) by {
            assert(s2.map_values(f)[i] == f(x));
        }
        assert(s2.map_values(f).to_multiset().count(f(x)) > 0);
        assert(s2.map_values(f).to_multiset() =~= t2.map_values(f).to_multiset().insert(f(x)));
        assert(s1.map_values(f).to_multiset() =~= s2.map_values(f).to_multiset());
    }
}

/// No two individuals of the sequence share a lineage key.
pub open spec fn distinct_kinds<M: IMutation, I: IIndividual<M>>(s: Seq<I>) -> bool {
    forall|i: int, j: int|
        0 <= i < j < s.len() ==> #[trigger] s[i].kind_spec() != #[trigger] s[j].kind_spec()
}

/// Lineage-key distinctness depends only on the multiset of individuals.
pub proof fn lemma_distinct_kinds_multiset<M: IMutation, I: IIndividual<M>>(s1: Seq<I>, s2: Seq<I>)
    requires
        s1.to_multiset() == s2.to_multiset(),
        distinct_kinds(s1),
    ensures
        distinct_kinds(s2),
{
    broadcast use vstd::seq_lib::group_to_multiset_ensures;

    assert forall|i: int, j: int|
        0 <= i < j < s2.len() implies #[trigger] s2[i].kind_spec()
        != #[trigger] s2[j].kind_spec() by {
        let x = s2[i];
        let y = s2[j];
        if x.kind_spec() == y.kind_spec() {
            if x == y {
                let r = s2.remove(i);
                assert(r[j - 1] == s2[j]);
                assert(r.contains(x));
                assert(r.to_multiset() == s2.to_multiset().remove(x));
                assert(s2.contains(x));
                assert(s2.to_multiset().count(x) >= 2) by {
                    assert(r.to_multiset().count(x) > 0);
                    assert(r.to_multiset().count(x) == s2.to_multiset().count(x) - 1);
                }
                assert(s1.to_multiset().count(x) >= 2);
                assert(s1.contains(x));
                let k1 = choose|k: int| 0 <= k < s1.len() && s1[k] == x;
                let r1 = s1.remove(k1);
                assert(r1.to_multiset() == s1.to_multiset().remove(s1[k1]));
                assert(r1.to_multiset().count(x) >= 1);
                assert(r1.contains(x));
                let k2 = choose|k: int| 0 <= k < r1.len() && r1[k] == x;
                if k2 < k1 {
                    assert(s1[k2] == x);
                    assert(s1[k2].kind_spec() == s1[k1].kind_spec());
                } else {
                    assert(s1[k2 + 1] == x);
                    assert(s1[k1].kind_spec() == s1[k2 + 1].kind_spec());
                }
            } else {
                assert(s2.contains(x));
                assert(s2.contains(y));
                assert(s1.to_multiset().count(x) > 0);
                assert(s1.to_multiset().count(y) > 0);
                assert(s1.contains(x));
                assert(s1.contains(y));
                let k1 = choose|k: int| 0 <= k < s1.len() && s1[k] == x;
                let k2 = choose|k: int| 0 <= k < s1.len() && s1[k] == y;
                assert(k1 != k2);
                assert(s1[k1].kind_spec() == s1[k2].kind_spec());
            }
        }
    }
}

/// Deduplication keeps lineage keys distinct.
pub proof fn lemma_dedup_distinct_kinds<M: IMutation, I: IIndividual<M>>(s: Seq<I>)
    requires
        distinct_kinds(s),
    ensures
        distinct_kinds(dedup_spec::<M, I>(s)),
{
    lemma_dedup_membership::<M, I>(s);
    lemma_dedup_distinct::<M, I>(s);
    let d = dedup_spec::<M, I>(s);
    assert forall|i: int, j: int|
        0 <= i < j < d.len() implies #[trigger] d[i].kind_spec()
        != #[trigger] d[j].kind_spec() by {
        if d[i].kind_spec() == d[j].kind_spec() {
            assert(s.contains(d[i]));
            assert(s.contains(d[j]));
            let k1 = choose|k: int| 0 <= k < s.len() && s[k] == d[i];
            let k2 = choose|k: int| 0 <= k < s.len() && s[k] == d[j];
            if k1 == k2 {
                assert(d[i] == d[j]);
                assert(d[i].content() == d[j].content());
            } else {
                assert(s[k1].kind_spec() == s[k2].kind_spec());
            }
        }
    }
}

/// Some individual of the sequence has this content and ranks at least as
/// well as `x`.
pub open spec fn holds_no_worse<M: IMutation, I: IIndividual<M>, B: IBehaviour<M, I>>(
    behaviour: &B,
    s: Seq<I>,
    x: I,
) -> bool {
    exists|k: int|
        0 <= k < s.len() && (#[trigger] s[k]).content() == x.content() && behaviour.score_le(
            &s[k],
            &x,
        )
}

/// A no-worse representative survives any rearrangement.
pub proof fn lemma_no_worse_multiset<M: IMutation, I: IIndividual<M>, B: IBehaviour<M, I>>(
    behaviour: &B,
    s1: Seq<I>,
    s2: Seq<I>,
    x: I,
)
    requires
        s1.to_multiset() == s2.to_multiset(),
        holds_no_worse(behaviour, s1, x),
    ensures
        holds_no_worse(behaviour, s2, x),
{
    broadcast use vstd::seq_lib::group_to_multiset_ensures;

    let k = choose|k: int|
        0 <= k < s1.len() && (#[trigger] s1[k]).content() == x.content() && behaviour.score_le(
            &s1[k],
            &x,
        );
    assert(s1.contains(s1[k]));
    assert(s1.to_multiset().count(s1[k]) > 0);
    assert(s2.contains(s1[k]));
    let j = choose|j: int| 0 <= j < s2.len() && s2[j] == s1[k];
    assert(s2[j].content() == x.content() && behaviour.score_le(&s2[j], &x));
}

/// A no-worse representative survives deduplication of a ranked pool: the
/// kept copy of its content ranks no later than it.
pub proof fn lemma_dedup_no_worse<M: IMutation, I: IIndividual<M>, B: IBehaviour<M, I>>(
    behaviour: &B,
    s: Seq<I>,
    x: I,
)
    requires
        vstd::relations::sorted_by(s, le_of(behaviour)),
        holds_no_worse(behaviour, s, x),
    ensures
        holds_no_worse(behaviour, dedup_spec::<M, I>(s), x),
    decreases s.len(),
{
    let d = dedup_spec::<M, I>(s);
    let t = s.drop_last();
    let dt = dedup_spec::<M, I>(t);
    let k = choose|k: int|
        0 <= k < s.len() && (#[trigger] s[k]).content() == x.content() && behaviour.score_le(
            &s[k],
            &x,
        );
    assert(vstd::relations::sorted_by(t, le_of(behaviour))) by {
        assert forall|i: int, j: int|
            0 <= i < j < t.len() implies le_of(behaviour)(t[i], t[j]) by {
            assert(t[i] == s[i] && t[j] == s[j]);
        }
    }
    if k < s.len() - 1 {
        assert(t[k] == s[k]);
        assert(t[k].content() == x.content() && behaviour.score_le(&t[k], &x));
        lemma_dedup_no_worse(behaviour, t, x);
        let j = choose|j: int|
            0 <= j < dt.len() && (#[trigger] dt[j]).content() == x.content()
                && behaviour.score_le(&dt[j], &x);
        if has_content(t, s.last().content()) {
            assert(d == dt);
            assert(d[j].content() == x.content() && behaviour.score_le(&d[j], &x));
        } else {
            assert(d[j] == dt[j]);
            assert(d[j].content() == x.content() && behaviour.score_le(&d[j], &x));
        }
    } else {
        assert(s[k] == s.last());
        if has_content(t, s.last().content()) {
            let m = choose|m: int|
                0 <= m < t.len() && #[trigger] t[m].content() == s.last().content();
            assert(t[m] == s[m]);
            assert(le_of(behaviour)(s[m], s[s.len() - 1]));
            behaviour.lemma_score_le_trans(&s[m], &s[s.len() - 1], &x);
            assert(t[m].content() == x.content() && behaviour.score_le(&t[m], &x));
            lemma_dedup_no_worse(behaviour, t, x);
            let j = choose|j: int|
                0 <= j < dt.len() && (#[trigger] dt[j]).content() == x.content()
                    && behaviour.score_le(&dt[j], &x);
            assert(d == dt);
            assert(d[j].content() == x.content() && behaviour.score_le(&d[j], &x));
        } else {
            assert(d == dt.push(s.last()));
            assert(d[d.len() - 1].content() == x.content() && behaviour.score_le(
                &d[d.len() - 1],
                &x,
            ));
        }
    }
}

} // verus!
