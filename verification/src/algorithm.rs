//! The genetic-algorithm engine: one generation step.

use vstd::prelude::*;
use core::marker::PhantomData;
use vstd::relations::sorted_by;
use crate::models::{Context, EngineError, IBehaviour, IIndividual, IMutation};
use crate::pool::{
    dedup_by_content, distinct_contents, distinct_kinds, group_by_kind, group_kind_is,
    group_views, holds_no_worse, kind_grouped, le_of, lemma_dedup_distinct,
    lemma_dedup_distinct_kinds, lemma_dedup_len, lemma_dedup_no_worse, lemma_dedup_sorted,
    lemma_distinct_kinds_multiset, lemma_no_worse_multiset, sort_population,
};

verus! {

/// The engine.  One `run` performs a full generation step: mutation
/// fan-out, pool union, ranking, deduplication by content, grouping by
/// lineage key, recombination inside each group, a second ranking and
/// deduplication, and truncation to the target population size.
pub struct GeneticAlgorithm<'a, M, I, B> {
    pub behaviour: &'a B,
    pub phantom_mutation: PhantomData<M>,
    pub phantom_individual: PhantomData<I>,
}

impl<'a, M: IMutation, I: IIndividual<M>, B: IBehaviour<M, I>> GeneticAlgorithm<'a, M, I, B> {
    pub fn new(behaviour: &'a B) -> (r: Self)
        ensures
            r.behaviour == behaviour,
    {
        GeneticAlgorithm {
            behaviour,
            phantom_mutation: PhantomData,
            phantom_individual: PhantomData,
        }
    }

    /// Recombine one lineage group: pair ranked neighbours in a sliding
    /// window, produce one crossed child per pair, and keep the whole group.
    /// The children come first, then the surviving members; every output
    /// stays in the group's lineage, and every child records at most the
    /// configured number of replayed edits.  A group of one produces no
    /// children.
    pub fn recombine(&self, collection: Vec<I>) -> (r: Result<Vec<I>, EngineError>)
        requires
            collection@.len() > 0,
            group_kind_is(collection@, collection@[0].kind_spec()),
        ensures
            (r matches Ok(out) ==> {
                &&& out@.len() == if collection@.len() == 1 {
                    1int
                } else {
                    2 * collection@.len() - 1
                }
                &&& out@.subrange(out@.len() - collection@.len(), out@.len() as int)
                    == collection@
                &&& group_kind_is(out@, collection@[0].kind_spec())
                &&& forall|j: int|
                    0 <= j < out@.len() - collection@.len()
                        ==> #[trigger] out@[j].mutation_count()
                        <= self.behaviour.spec_context().mutations_count
            }),
            collection@.len() == 1 ==> r is Ok,
            (r matches Err(e) ==> e == EngineError::IncompatibleMutation),
    {
        let ghost kind = collection@[0].kind_spec();
        if collection.len() == 1 {
            proof {
                assert(collection@.subrange(0, collection@.len() as int) =~= collection@);
            }
            return Ok(collection);
        }
        let mut crossed: Vec<I> = Vec::new();
        let mut i: usize = 0;
        let n = collection.len();
        while i + 1 < n
            invariant
                n == collection@.len(),
                i + 1 <= collection@.len(),
                crossed@.len() == i,
                group_kind_is(collection@, kind),
                forall|j: int| 0 <= j < i ==> #[trigger] crossed@[j].kind_spec() == kind,
                forall|j: int|
                    0 <= j < i ==> #[trigger] crossed@[j].mutation_count()
                        <= self.behaviour.spec_context().mutations_count,
            decreases collection@.len() - i,
        {
            proof {
                assert(collection@[i as int].kind_spec() == kind);
                assert(collection@[i as int + 1].kind_spec() == kind);
            }
            let child = match self.behaviour.cross(&collection[i], &collection[i + 1]) {
                Ok(c) => c,
                Err(e) => {
                    return Err(e);
                },
            };
            crossed.push(child);
            i = i + 1;
        }
        let ghost crosses = crossed@;
        let mut rest = collection;
        crossed.append(&mut rest);
        proof {
            assert(crossed@ =~= crosses + collection@);
            assert(crossed@.subrange(
                crossed@.len() - collection@.len(),
                crossed@.len() as int,
            ) =~= collection@);
            assert forall|j: int| 0 <= j < crossed@.len() implies #[trigger] crossed@[j].kind_spec()
                == kind by {
                if j >= crosses.len() {
                    assert(crossed@[j] == collection@[j - crosses.len()]);
                }
            }
        }
        Ok(crossed)
    }

    /// One generation step.
    ///
    /// On success the new population is ranked by the behaviour's scoring
    /// order, free of content duplicates, and holds between one and
    /// `population_size` individuals; and no parent is silently lost: for
    /// every input individual, either some survivor carries its content and
    /// ranks at least as well, or the population is full and every survivor
    /// ranks at least as well.  An empty input population, or a target size
    /// of zero, leaves no survivors: that is extinction, and it is the only
    /// way extinction can happen.  The only other failure is a
    /// recombination that hits an incompatible edit, which cannot happen
    /// when no crossover is due: with no children per parent and pairwise
    /// distinct lineage keys every group is a singleton, so the step is
    /// then owed success.
    pub fn run(&self, population: Vec<I>, context: &Context) -> (r: Result<Vec<I>, EngineError>)
        ensures
            (r matches Ok(out) ==> {
                &&& 1 <= out@.len() <= context.population_size
                &&& sorted_by(out@, le_of(self.behaviour))
                &&& distinct_contents(out@)
                &&& forall|p: int|
                    0 <= p < population@.len() ==> holds_no_worse(
                        self.behaviour,
                        out@,
                        #[trigger] population@[p],
                    ) || (out@.len() == context.population_size && forall|j: int|
                        0 <= j < out@.len() ==> self.behaviour.score_le(
                            &out@[j],
                            &population@[p],
                        ))
            }),
            population@.len() == 0 ==> r == Err::<Vec<I>, EngineError>(EngineError::Extinction),
            r == Err::<Vec<I>, EngineError>(EngineError::Extinction) ==> population@.len() == 0
                || context.population_size == 0,
            population@.len() > 0 && context.population_size >= 1 && context.children_count == 0
                && distinct_kinds::<M, I>(population@) ==> r is Ok,
    {
        let ghost input = population@;
        let children_count = context.children_count;

        // Mutation fan-out: every parent independently produces
        // `children_count` mutated children.
        let mut parents = population;
        let mut mutants: Vec<I> = Vec::new();
        let mut pi: usize = 0;
        while pi < parents.len()
            invariant
                pi <= parents@.len(),
                parents@ == input,
                input.len() == 0 ==> mutants@.len() == 0,
                children_count == 0 ==> mutants@.len() == 0,
            decreases parents@.len() - pi,
        {
            let mut ci: u32 = 0;
            while ci < children_count
                invariant
                    parents@ == input,
                    pi < parents@.len(),
                    children_count == 0 ==> mutants@.len() == 0,
                    input.len() == 0 ==> mutants@.len() == 0,
                decreases children_count - ci,
            {
                mutants.push(self.behaviour.mutate(&parents[pi]));
                ci = ci + 1;
            }
            pi = pi + 1;
        }

        // Pool union: the unmutated parents stay eligible.
        let ghost n_mutants = mutants@.len();
        let ghost pre_mutants = mutants@;
        mutants.append(&mut parents);
        let pool = mutants;
        proof {
            assert(pool@.len() == n_mutants + input.len());
            assert(pool@ == pre_mutants + input);
            if context.children_count == 0 {
                assert(pool@ =~= input);
            }
            assert forall|p: int|
                0 <= p < input.len() implies holds_no_worse(
                self.behaviour,
                pool@,
                #[trigger] input[p],
            ) by {
                assert(pool@[n_mutants + p] == input[p]);
                self.behaviour.lemma_score_le_total(&input[p], &input[p]);
                assert((pool@[n_mutants + p]).content() == input[p].content()
                    && self.behaviour.score_le(&pool@[n_mutants + p], &input[p]));
            }
        }

        // Rank, then collapse content-equal candidates.
        let sorted = sort_population(self.behaviour, pool, false);
        let deduped = dedup_by_content(sorted);
        proof {
            lemma_dedup_len::<M, I>(sorted@);
            lemma_dedup_sorted::<M, I>(sorted@, le_of(self.behaviour));
            lemma_dedup_distinct::<M, I>(sorted@);
            assert(input.len() > 0 ==> deduped@.len() > 0);
            assert(input.len() == 0 ==> deduped@.len() == 0);
            assert forall|p: int|
                0 <= p < input.len() implies holds_no_worse(
                self.behaviour,
                deduped@,
                #[trigger] input[p],
            ) by {
                lemma_no_worse_multiset(self.behaviour, pool@, sorted@, input[p]);
                lemma_dedup_no_worse(self.behaviour, sorted@, input[p]);
            }
            if context.children_count == 0 && distinct_kinds::<M, I>(input) {
                lemma_distinct_kinds_multiset::<M, I>(input, sorted@);
                lemma_dedup_distinct_kinds::<M, I>(sorted@);
            }
        }
        let ghost n_deduped = deduped@.len();

        // Group by lineage key and recombine inside each group.
        let mut groups = group_by_kind(deduped);
        let mut next: Vec<I> = Vec::new();
        let ghost flat0 = group_views(groups@).flatten();
        proof {
            assert(flat0.len() == n_deduped);
            assert(flat0 == deduped@);
            if input.len() == 0 && groups@.len() > 0 {
                assert(flat0 == group_views(groups@).first() + group_views(
                    groups@,
                ).drop_first().flatten());
                assert(group_views(groups@).first() == groups@[0]@);
                assert(groups@[0]@.len() > 0);
                assert(false);
            }
            assert(next@ + flat0 =~= deduped@);
        }
        while groups.len() > 0
            invariant
                input == population@,
                kind_grouped::<M, I>(groups@),
                next@.len() + group_views(groups@).flatten().len() >= n_deduped,
                input.len() == 0 ==> groups@.len() == 0 && next@.len() == 0,
                context.children_count == 0 && distinct_kinds::<M, I>(input)
                    ==> distinct_kinds::<M, I>(group_views(groups@).flatten()),
                forall|p: int|
                    0 <= p < input.len() ==> holds_no_worse(
                        self.behaviour,
                        next@ + group_views(groups@).flatten(),
                        #[trigger] input[p],
                    ),
            decreases groups@.len(),
        {
            let ghost pre_groups = groups@;
            let group = groups.remove(0);
            proof {
                assert(group == pre_groups[0]);
                assert(group_views(pre_groups).flatten() =~= group@ + group_views(
                    groups@,
                ).flatten()) by {
                    assert(group_views(pre_groups).len() > 0);
                    assert(group_views(pre_groups).first() == group@);
                    assert(group_views(pre_groups).drop_first() =~= group_views(groups@));
                }
                assert forall|g: int| 0 <= g < groups@.len() implies #[trigger] groups@[g]@.len()
                    > 0 by {
                    assert(groups@[g] == pre_groups[g + 1]);
                }
                assert forall|g: int|
                    0 <= g < groups@.len() implies group_kind_is(
                    #[trigger] groups@[g]@,
                    groups@[g]@[0].kind_spec(),
                ) by {
                    assert(groups@[g] == pre_groups[g + 1]);
                }
                assert forall|g: int|
                    0 <= g < groups@.len() - 1 implies #[trigger] groups@[g]@[0].kind_spec()
                    != groups@[g + 1]@[0].kind_spec() by {
                    assert(groups@[g] == pre_groups[g + 1]);
                    assert(groups@[g + 1] == pre_groups[g + 2]);
                }
            }
            let ghost pre_next = next@;
            let ghost pre_flat = group_views(pre_groups).flatten();
            let ghost rest_flat = group_views(groups@).flatten();
            proof {
                // With no crossover due, every group is a singleton, so the
                // recombination below cannot fail.
                if context.children_count == 0 && distinct_kinds::<M, I>(input)
                    && group@.len() >= 2 {
                    assert(pre_flat[0] == group@[0]);
                    assert(pre_flat[1] == group@[1]);
                    assert(group@[0].kind_spec() == group@[1].kind_spec());
                    assert(false);
                }
            }
            let recombined = match self.recombine(group) {
                Ok(r) => r,
                Err(e) => {
                    proof {
                        assert(group@.len() != 1);
                        assert(group@.len() >= 2);
                    }
                    return Err(e);
                },
            };
            let mut recombined = recombined;
            let ghost out_view = recombined@;
            next.append(&mut recombined);
            proof {
                assert(next@ == pre_next + out_view);
                // Relocate every no-worse witness across the regrouping.
                assert forall|p: int|
                    0 <= p < input.len() implies holds_no_worse(
                    self.behaviour,
                    next@ + rest_flat,
                    #[trigger] input[p],
                ) by {
                    let old_seq = pre_next + pre_flat;
                    assert(holds_no_worse(self.behaviour, old_seq, input[p]));
                    let w = choose|w: int|
                        0 <= w < old_seq.len() && (#[trigger] old_seq[w]).content()
                            == input[p].content() && self.behaviour.score_le(
                            &old_seq[w],
                            &input[p],
                        );
                    let new_seq = next@ + rest_flat;
                    let g_len = group@.len();
                    let o_len = out_view.len();
                    if w < pre_next.len() {
                        assert(new_seq[w] == old_seq[w]);
                        assert((new_seq[w]).content() == input[p].content()
                            && self.behaviour.score_le(&new_seq[w], &input[p]));
                    } else if w < pre_next.len() + g_len {
                        let gi = w - pre_next.len();
                        assert(old_seq[w] == group@[gi]);
                        assert(out_view.subrange(o_len - g_len, o_len as int)[gi]
                            == group@[gi]);
                        assert(out_view[o_len - g_len + gi] == group@[gi]);
                        let ni = pre_next.len() + (o_len - g_len) + gi;
                        assert(new_seq[ni] == out_view[o_len - g_len + gi]);
                        assert((new_seq[ni]).content() == input[p].content()
                            && self.behaviour.score_le(&new_seq[ni], &input[p]));
                    } else {
                        let ri = w - pre_next.len() - g_len;
                        assert(old_seq[w] == pre_flat[g_len + ri]);
                        assert(pre_flat == group@ + rest_flat);
                        assert(pre_flat[g_len + ri] == rest_flat[ri]);
                        let ni = next@.len() + ri;
                        assert(new_seq[ni] == rest_flat[ri]);
                        assert((new_seq[ni]).content() == input[p].content()
                            && self.behaviour.score_le(&new_seq[ni], &input[p]));
                    }
                }
                // Dropping the leading group keeps the rest's keys distinct.
                if context.children_count == 0 && distinct_kinds::<M, I>(input) {
                    assert forall|i: int, j: int|
                        0 <= i < j < rest_flat.len() implies #[trigger] rest_flat[i].kind_spec()
                        != #[trigger] rest_flat[j].kind_spec() by {
                        assert(pre_flat[group@.len() + i] == rest_flat[i]);
                        assert(pre_flat[group@.len() + j] == rest_flat[j]);
                    }
                }
            }
        }
        proof {
            assert(group_views(groups@) =~= Seq::<Seq<I>>::empty());
            assert(next@.len() >= n_deduped);
            if input.len() == 0 {
                assert(next@.len() == 0);
            }
            assert forall|p: int|
                0 <= p < input.len() implies holds_no_worse(
                self.behaviour,
                next@,
                #[trigger] input[p],
            ) by {
                assert(next@ + group_views(groups@).flatten() =~= next@);
                assert(holds_no_worse(
                    self.behaviour,
                    next@ + group_views(groups@).flatten(),
                    input[p],
                ));
            }
        }

        // Rank and deduplicate once more, then keep the best.
        let sorted_next = sort_population(self.behaviour, next, false);
        let mut result = dedup_by_content(sorted_next);
        proof {
            lemma_dedup_len::<M, I>(sorted_next@);
            lemma_dedup_sorted::<M, I>(sorted_next@, le_of(self.behaviour));
            lemma_dedup_distinct::<M, I>(sorted_next@);
        }
        proof {
            assert forall|p: int|
                0 <= p < input.len() implies holds_no_worse(
                self.behaviour,
                result@,
                #[trigger] input[p],
            ) by {
                lemma_no_worse_multiset(self.behaviour, next@, sorted_next@, input[p]);
                lemma_dedup_no_worse(self.behaviour, sorted_next@, input[p]);
            }
        }
        let ghost before_truncate = result@;
        result.truncate(context.population_size);
        proof {
            if context.population_size <= before_truncate.len() {
                assert(result@ == before_truncate.subrange(0, context.population_size as int));
            }
            assert forall|i: int, j: int|
                0 <= i < j < result@.len() implies le_of(self.behaviour)(result@[i], result@[j])
                    && #[trigger] result@[i].content() != #[trigger] result@[j].content() by {
                assert(result@[i] == before_truncate[i]);
                assert(result@[j] == before_truncate[j]);
            }
            // Truncation either keeps the no-worse representative or cuts
            // only behind a full, everywhere-no-worse population.
            assert forall|p: int|
                0 <= p < input.len() implies holds_no_worse(
                self.behaviour,
                result@,
                #[trigger] input[p],
            ) || (result@.len() == context.population_size && forall|j: int|
                0 <= j < result@.len() ==> self.behaviour.score_le(&result@[j], &input[p])) by {
                let w = choose|w: int|
                    0 <= w < before_truncate.len() && (#[trigger] before_truncate[w]).content()
                        == input[p].content() && self.behaviour.score_le(
                        &before_truncate[w],
                        &input[p],
                    );
                if w < result@.len() {
                    assert(result@[w] == before_truncate[w]);
                    assert((result@[w]).content() == input[p].content()
                        && self.behaviour.score_le(&result@[w], &input[p]));
                } else {
                    assert(context.population_size <= before_truncate.len());
                    assert(result@.len() == context.population_size);
                    assert forall|j: int|
                        0 <= j < result@.len() implies self.behaviour.score_le(
                        &result@[j],
                        &input[p],
                    ) by {
                        assert(result@[j] == before_truncate[j]);
                        assert(le_of(self.behaviour)(before_truncate[j], before_truncate[w]));
                        self.behaviour.lemma_score_le_trans(
                            &before_truncate[j],
                            &before_truncate[w],
                            &input[p],
                        );
                    }
                }
            }
        }
        if result.len() == 0 {
            return Err(EngineError::Extinction);
        }
        Ok(result)
    }
}

} // verus!
