//! The driver: seeds a population, runs generation steps, tracks whether
//! the top-ranked result set has stabilised, and decides when to stop.

use vstd::prelude::*;
use vstd::relations::sorted_by;
use crate::algorithm::GeneticAlgorithm;
use crate::models::{EngineError, IBehaviour, IIndividual, IMutation};
use crate::pool::{
    distinct_contents, le_of, lemma_distinct_contents_multiset, sort_population, tie_le_of,
};

verus! {

/// Failures that abort a whole run.
#[derive(PartialEq, Eq, Structural, Clone, Copy, Debug)]
pub enum RunError {
    /// A generation step left no survivors.
    Extinction,
    /// A recombination replayed an edit that no longer matches its ancestor
    /// snapshot.
    IncompatibleMutation,
    /// The persistence collaborator failed to load or save.
    Persist,
}

/// What a finished run reports.
pub struct RunOutcome<I> {
    /// The final ranked population.
    pub population: Vec<I>,
    /// How many generation steps ran.
    pub generations: u32,
    /// The repeat counter when the run stopped.
    pub repeats: u16,
    /// Whether the run stopped because the result set had stabilised, as
    /// opposed to exhausting the generation budget.
    pub converged: bool,
}

/// The views of a sequence of strings.
pub open spec fn views_of(v: Seq<String>) -> Seq<Seq<char>> {
    v.map_values(|s: String| s@)
}

/// The repeat counter after one convergence check: an unchanged result set
/// advances it (saturating at the counter type's maximum), a changed one
/// resets it.
pub open spec fn next_repeats(repeats: u16, same: bool) -> u16 {
    if same {
        if repeats == u16::MAX {
            u16::MAX
        } else {
            (repeats + 1) as u16
        }
    } else {
        0
    }
}

/// Does the driver stop after a check that left the counter at `repeats`?
pub open spec fn stops(repeats: u16, max_repeats: u16) -> bool {
    repeats == max_repeats
}

/// The repeat counter after `k` consecutive unchanged checks, starting
/// from zero.
pub open spec fn repeats_after(k: nat) -> u16
    decreases k,
{
    if k == 0 {
        0
    } else {
        next_repeats(repeats_after((k - 1) as nat), true)
    }
}

/// Convergence stops the driver neither early nor late: with a result set
/// that never changes, the repeat counter after `k` consecutive unchanged
/// checks is exactly `k`, and the driver stops at the `max_repeats`-th such
/// check and at none before it.
pub proof fn lemma_convergence_exact(max_repeats: u16, k: nat)
    requires
        1 <= k <= max_repeats,
    ensures
        repeats_after(k) == k,
        stops(repeats_after(k), max_repeats) <==> k == max_repeats,
    decreases k,
{
    if k > 1 {
        lemma_convergence_exact(max_repeats, (k - 1) as nat);
        assert(repeats_after(k) == next_repeats(repeats_after((k - 1) as nat), true));
    } else {
        assert(repeats_after(0) == 0);
        assert(repeats_after(1) == next_repeats(repeats_after(0), true));
    }
}

/// Are two rendered result sets the same, element for element?
fn texts_equal(a: &Vec<String>, b: &Vec<String>) -> (r: bool)
    ensures
        r == (views_of(a@) == views_of(b@)),
{
    if a.len() != b.len() {
        proof {
            assert(views_of(a@).len() != views_of(b@).len());
        }
        return false;
    }
    let mut i: usize = 0;
    while i < a.len()
        invariant
            0 <= i <= a@.len(),
            a@.len() == b@.len(),
            forall|k: int| 0 <= k < i ==> #[trigger] a@[k]@ == b@[k]@,
        decreases a@.len() - i,
    {
        if !(a[i] == b[i]) {
            proof {
                assert(views_of(a@)[i as int] == a@[i as int]@);
                assert(views_of(b@)[i as int] == b@[i as int]@);
            }
            return false;
        }
        i = i + 1;
    }
    proof {
        assert(views_of(a@) =~= views_of(b@));
    }
    true
}

/// A prefix re-ranked by the tie-break order still leaves the whole
/// population ranked by score.
proof fn lemma_prefix_resort_sorted<M: IMutation, I: IIndividual<M>, B: IBehaviour<M, I>>(
    behaviour: &B,
    orig: Seq<I>,
    new_prefix: Seq<I>,
    k: int,
)
    requires
        0 <= k <= orig.len(),
        sorted_by(orig, le_of(behaviour)),
        new_prefix.to_multiset() == orig.subrange(0, k).to_multiset(),
        sorted_by(new_prefix, tie_le_of(behaviour)),
    ensures
        sorted_by(new_prefix + orig.subrange(k, orig.len() as int), le_of(behaviour)),
{
    broadcast use vstd::seq_lib::group_to_multiset_ensures;

    let prefix = orig.subrange(0, k);
    let suffix = orig.subrange(k, orig.len() as int);
    let s = new_prefix + suffix;
    assert(new_prefix.len() == k) by {
        assert(new_prefix.to_multiset().len() == prefix.to_multiset().len());
    }
    assert forall|i: int, j: int| 0 <= i < j < s.len() implies le_of(behaviour)(s[i], s[j]) by {
        if j < k {
            assert(tie_le_of(behaviour)(new_prefix[i], new_prefix[j]));
        } else if i >= k {
            assert(s[i] == orig[i] && s[j] == orig[j]);
        } else {
            assert(s[i] == new_prefix[i]);
            assert(s[j] == orig[j]);
            assert(new_prefix.to_multiset().count(new_prefix[i]) > 0) by {
                assert(new_prefix.contains(new_prefix[i]));
            }
            assert(prefix.to_multiset().count(new_prefix[i]) > 0);
            assert(prefix.contains(new_prefix[i]));
            let p = choose|p: int| 0 <= p < prefix.len() && prefix[p] == new_prefix[i];
            assert(prefix[p] == orig[p]);
            assert(le_of(behaviour)(orig[p], orig[j]));
        }
    }
}

/// One convergence check.
///
/// Takes the top `results_count` individuals of the ranked population,
/// re-ranks them with the textual tie-break so that the rendered result set
/// is deterministic, and compares it with the previous generation's set:
/// unchanged advances the repeat counter, changed resets it to zero.  The
/// driver is told to continue exactly until the counter reaches
/// `max_repeats_count`.  The population comes back with its top prefix in
/// tie-break order and is otherwise untouched.
pub fn need_to_continue<M: IMutation, I: IIndividual<M>, B: IBehaviour<M, I>>(
    repeats_counter: u16,
    prev_result: &Vec<String>,
    population: Vec<I>,
    results_count: usize,
    max_repeats_count: u16,
    behaviour: &B,
) -> (r: (u16, Vec<String>, bool, Vec<I>))
    ensures
        r.0 == next_repeats(repeats_counter, views_of(r.1@) == views_of(prev_result@)),
        r.2 == !stops(r.0, max_repeats_count),
        r.1@.len() == if results_count <= population@.len() {
            results_count as int
        } else {
            population@.len() as int
        },
        forall|i: int| 0 <= i < r.1@.len() ==> #[trigger] r.1@[i]@ == r.3@[i].text(),
        r.3@.len() == population@.len(),
        r.3@.to_multiset() == population@.to_multiset(),
        r.3@.subrange(0, r.1@.len() as int).to_multiset() == population@.subrange(
            0,
            r.1@.len() as int,
        ).to_multiset(),
        sorted_by(r.3@.subrange(0, r.1@.len() as int), tie_le_of(behaviour)),
        r.3@.subrange(r.1@.len() as int, r.3@.len() as int) == population@.subrange(
            r.1@.len() as int,
            population@.len() as int,
        ),
        sorted_by(population@, le_of(behaviour)) ==> sorted_by(r.3@, le_of(behaviour)),
        distinct_contents(population@) ==> distinct_contents(r.3@),
{
    broadcast use vstd::seq_lib::group_to_multiset_ensures;

    let n = if results_count <= population.len() {
        results_count
    } else {
        population.len()
    };
    let ghost pop = population@;
    let mut prefix = population;
    let rest = prefix.split_off(n);
    proof {
        assert(prefix@ == pop.subrange(0, n as int));
        assert(rest@ == pop.subrange(n as int, pop.len() as int));
    }
    let mut tops = sort_population(behaviour, prefix, true);
    let mut texts: Vec<String> = Vec::new();
    let mut i: usize = 0;
    while i < tops.len()
        invariant
            0 <= i <= tops@.len(),
            texts@.len() == i,
            forall|k: int| 0 <= k < i ==> #[trigger] texts@[k]@ == tops@[k].text(),
        decreases tops@.len() - i,
    {
        texts.push(tops[i].to_string());
        i = i + 1;
    }
    let same = texts_equal(&texts, prev_result);
    let new_repeats: u16 = if same {
        if repeats_counter == u16::MAX {
            u16::MAX
        } else {
            repeats_counter + 1
        }
    } else {
        0
    };
    let to_continue = new_repeats != max_repeats_count;
    let ghost tops_view = tops@;
    let mut rest = rest;
    tops.append(&mut rest);
    proof {
        assert(tops_view.len() == n as int) by {
            assert(tops_view.to_multiset().len() == pop.subrange(0, n as int).to_multiset().len());
        }
        assert(tops@ == tops_view + pop.subrange(n as int, pop.len() as int));
        assert(tops@.subrange(0, n as int) =~= tops_view);
        assert(tops@.subrange(n as int, tops@.len() as int) =~= pop.subrange(
            n as int,
            pop.len() as int,
        ));
        if sorted_by(pop, le_of(behaviour)) {
            lemma_prefix_resort_sorted(behaviour, pop, tops_view, n as int);
        }
        assert(tops@.to_multiset() =~= pop.to_multiset()) by {
            lemma_concat_multiset::<I>(tops_view, pop.subrange(n as int, pop.len() as int));
            lemma_concat_multiset::<I>(
                pop.subrange(0, n as int),
                pop.subrange(n as int, pop.len() as int),
            );
            assert(pop.subrange(0, n as int) + pop.subrange(n as int, pop.len() as int) =~= pop);
        }
        if distinct_contents(pop) {
            lemma_distinct_contents_multiset::<M, I>(pop, tops@);
        }
    }
    (new_repeats, texts, to_continue, tops)
}

/// The multiset of a concatenation is the sum of the parts' multisets.
proof fn lemma_concat_multiset<T>(a: Seq<T>, b: Seq<T>)
    ensures
        (a + b).to_multiset() == a.to_multiset().add(b.to_multiset()),
{
    vstd::seq_lib::lemma_multiset_commutative(a, b);
}

/// Run a whole search: seed, evolve, check, persist.
///
/// The population is seeded with `population_size` fresh individuals plus
/// whatever the behaviour loads from a prior run.  A generation budget of
/// zero is a pass-through: the seeded population is persisted unevolved.
/// Otherwise the driver repeatedly runs the engine, pushes each ranked
/// snapshot to the behaviour's sink, and stops early once the rendered top
/// `results_count` results have come back unchanged from `repeats_count`
/// consecutive checks.  Extinction, an incompatible replayed edit, and a
/// persistence failure abort the run; with a positive population size
/// extinction cannot happen.
pub fn run<M: IMutation, I: IIndividual<M>, B: IBehaviour<M, I>>(behaviour: &B) -> (r: Result<
    RunOutcome<I>,
    RunError,
>)
    ensures
        (r matches Ok(out) ==> {
            &&& out.generations <= behaviour.spec_context().generations_count
            &&& (behaviour.spec_context().generations_count == 0 ==> out.generations == 0
                && !out.converged)
            &&& (behaviour.spec_context().generations_count > 0 ==> {
                &&& 1 <= out.population@.len() <= behaviour.spec_context().population_size
                &&& sorted_by(out.population@, le_of(behaviour))
                &&& distinct_contents(out.population@)
                &&& (out.converged ==> stops(out.repeats, behaviour.spec_context().repeats_count))
                &&& (!out.converged ==> out.generations
                    == behaviour.spec_context().generations_count)
            })
        }),
        behaviour.spec_context().population_size >= 1 ==> r != Err::<RunOutcome<I>, RunError>(
            RunError::Extinction,
        ),
{
    let context = behaviour.get_context();

    // Seed: fresh individuals up to the target size, plus prior results.
    let mut population: Vec<I> = Vec::new();
    let mut i: usize = 0;
    while i < context.population_size
        invariant
            population@.len() == i,
            i <= context.population_size,
        decreases context.population_size - i,
    {
        population.push(behaviour.generate());
        i = i + 1;
    }
    let mut loaded = match behaviour.load() {
        Ok(v) => v,
        Err(_) => {
            return Err(RunError::Persist);
        },
    };
    population.append(&mut loaded);

    // A generation budget of zero only scores and persists the seeds.
    if context.generations_count == 0 {
        match behaviour.save(&population) {
            Ok(_) => {},
            Err(_) => {
                return Err(RunError::Persist);
            },
        }
        return Ok(RunOutcome { population, generations: 0, repeats: 0, converged: false });
    }

    let algorithm = GeneticAlgorithm::new(behaviour);
    let mut prev_top: Vec<String> = Vec::new();
    let mut repeats: u16 = 0;
    let mut index: u32 = 0;
    let mut converged = false;
    while index < context.generations_count
        invariant_except_break
            *context == behaviour.spec_context(),
            algorithm.behaviour == behaviour,
            context.generations_count > 0,
            index <= context.generations_count,
            !converged,
            context.population_size >= 1 ==> population@.len() >= 1,
            index > 0 ==> 1 <= population@.len() <= context.population_size,
            index > 0 ==> sorted_by(population@, le_of(behaviour)),
            index > 0 ==> distinct_contents(population@),
        ensures
            *context == behaviour.spec_context(),
            1 <= index <= context.generations_count,
            1 <= population@.len() <= context.population_size,
            sorted_by(population@, le_of(behaviour)),
            distinct_contents(population@),
            converged ==> stops(repeats, context.repeats_count),
            !converged ==> index == context.generations_count,
        decreases context.generations_count - index,
    {
        population = match algorithm.run(population, context) {
            Ok(p) => p,
            Err(e) => {
                match e {
                    EngineError::Extinction => {
                        return Err(RunError::Extinction);
                    },
                    EngineError::IncompatibleMutation => {
                        return Err(RunError::IncompatibleMutation);
                    },
                }
            },
        };
        index = index + 1;
        let (new_repeats, tops, to_continue, checked) = need_to_continue(
            repeats,
            &prev_top,
            population,
            context.results_count,
            context.repeats_count,
            behaviour,
        );
        repeats = new_repeats;
        prev_top = tops;
        population = checked;

        // Push the ranked top results to the sink.
        let ghost whole = population@;
        let top_count = if context.results_count <= population.len() {
            context.results_count
        } else {
            population.len()
        };
        let rest = population.split_off(top_count);
        match behaviour.save(&population) {
            Ok(_) => {},
            Err(_) => {
                return Err(RunError::Persist);
            },
        }
        let mut rest = rest;
        population.append(&mut rest);
        proof {
            assert(population@ =~= whole);
        }
        if !to_continue {
            converged = true;
            break;
        }
    }
    Ok(RunOutcome { population, generations: index, repeats, converged })
}

} // verus!
