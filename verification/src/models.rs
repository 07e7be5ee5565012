//! Capability contracts consumed by the engine, the engine configuration,
//! and the fatal error taxonomy.

use vstd::prelude::*;
use core::cmp::Ordering;
use crate::shared::CliSettings;

verus! {

/// Fatal failures of a generation step.
#[derive(PartialEq, Eq, Structural, Clone, Copy, Debug)]
pub enum EngineError {
    /// The population emptied after deduplication and truncation.
    Extinction,
    /// A replayed edit referenced state that does not match the recorded
    /// ancestor snapshot.
    IncompatibleMutation,
}

/// Failure of the persistence collaborator (`load`/`save`).
#[derive(PartialEq, Eq, Structural, Clone, Copy, Debug)]
pub struct PersistError;

/// Engine and driver configuration.
pub struct Context {
    pub mutations_count: usize,
    pub population_size: usize,
    pub children_count: u32,
    pub generations_count: u32,
    pub results_count: usize,
    pub left_count: usize,
    pub repeats_count: u16,
}

impl Context {
    pub fn new(settings: &CliSettings) -> (r: Context)
        requires
            settings.mutations_count >= 1,
        ensures
            r.mutations_count == settings.mutations_count,
            r.population_size == settings.population_size,
            r.children_count == settings.children_count,
            r.generations_count == settings.generations_count,
            r.results_count == settings.results_count,
            r.left_count == settings.left_count,
            r.repeats_count == settings.repeats_count,
    {
        Context {
            mutations_count: settings.mutations_count as usize,
            population_size: settings.population_size as usize,
            children_count: settings.children_count as u32,
            generations_count: settings.generations_count as u32,
            results_count: settings.results_count as usize,
            left_count: settings.left_count as usize,
            repeats_count: settings.repeats_count,
        }
    }
}

/// An opaque edit descriptor; the engine never interprets its content.
pub trait IMutation: Sized {
}

/// A candidate solution together with its lineage metadata.
///
/// `content` is the mathematical representation used for structural
/// equality: two individuals are the same solution exactly when their
/// contents are equal, regardless of version, lineage or mutation history.
pub trait IIndividual<M: IMutation>: Sized {
    /// The solution content, as a sequence of component character sequences.
    spec fn content(&self) -> Seq<Seq<char>>;

    /// The lineage key: the version of the ancestor snapshot this
    /// individual's mutation sequence is relative to.
    spec fn kind_spec(&self) -> Seq<char>;

    /// The unique version token of this individual.
    spec fn version_spec(&self) -> Seq<char>;

    /// How many mutations the individual records relative to its ancestor.
    spec fn mutation_count(&self) -> nat;

    /// The textual representation.
    spec fn text(&self) -> Seq<char>;

    /// The kind of individual (its lineage key).
    fn get_kind(&self) -> (r: String)
        ensures
            r@ == self.kind_spec(),
    ;

    /// Text representation.
    fn to_string(&self) -> (r: String)
        ensures
            r@ == self.text(),
    ;

    /// Structural equality of solution content.
    fn content_eq(&self, other: &Self) -> (r: bool)
        ensures
            r == (self.content() == other.content()),
    ;

    /// Total order on textual representations, used as a stable tie-break.
    fn text_cmp(&self, other: &Self) -> (r: Ordering)
        ensures
            r == crate::text::lex_cmp(self.text(), other.text()),
    ;
}

/// The problem-specific rule set: generation, scoring, mutation, crossover
/// and persistence.  This is the engine's sole extension point.
pub trait IBehaviour<M: IMutation, I: IIndividual<M>>: Sized {
    /// The configuration this behaviour was built with.
    spec fn spec_context(&self) -> Context;

    /// The scoring order: `score_le(a, b)` means `a` ranks at least as well
    /// as `b` (it comes no later in the ranked population).  Whether a
    /// higher or a lower raw score is better is the behaviour's decision.
    spec fn score_le(&self, a: &I, b: &I) -> bool;

    /// `score_le` relates every pair of individuals.
    proof fn lemma_score_le_total(&self, a: &I, b: &I)
        ensures
            self.score_le(a, b) || self.score_le(b, a),
    ;

    /// `score_le` is transitive.
    proof fn lemma_score_le_trans(&self, a: &I, b: &I, c: &I)
        requires
            self.score_le(a, b),
            self.score_le(b, c),
        ensures
            self.score_le(a, c),
    ;

    fn get_context(&self) -> (r: &Context)
        ensures
            *r == self.spec_context(),
    ;

    /// Produce a fresh individual.  Its lineage key equals its own version
    /// (so that children can later recombine with it), and it records no
    /// mutations.
    fn generate(&self) -> (r: I)
        ensures
            r.kind_spec() == r.version_spec(),
            r.mutation_count() == 0,
    ;

    /// Produce a mutated child.  The child's lineage key is its parent's
    /// version, and it records at most `mutations_count` edits.
    fn mutate(&self, individual: &I) -> (r: I)
        ensures
            r.kind_spec() == individual.version_spec(),
            r.mutation_count() <= self.spec_context().mutations_count,
    ;

    /// Recombine two individuals that share a lineage key.  The child stays
    /// in the same lineage and records at most `mutations_count` replayed
    /// edits; a replayed edit that does not match the ancestor snapshot is
    /// reported as `IncompatibleMutation`.
    fn cross(&self, individual: &I, partner: &I) -> (r: Result<I, EngineError>)
        requires
            individual.kind_spec() == partner.kind_spec(),
        ensures
            (r matches Ok(child) ==> child.kind_spec() == individual.kind_spec()
                && child.mutation_count() <= self.spec_context().mutations_count),
            (r matches Err(e) ==> e == EngineError::IncompatibleMutation),
    ;

    /// Compare two individuals under the scoring order.
    fn score_cmp(&self, a: &I, b: &I) -> (r: Ordering)
        ensures
            (r == Ordering::Less <==> self.score_le(a, b) && !self.score_le(b, a)),
            (r == Ordering::Equal <==> self.score_le(a, b) && self.score_le(b, a)),
            (r == Ordering::Greater <==> self.score_le(b, a) && !self.score_le(a, b)),
    ;

    /// Load individuals persisted by a prior run.  Nothing is promised of
    /// the result: the driver treats whatever comes back as extra seeds.
    fn load(&self) -> (r: Result<Vec<I>, PersistError>);

    /// Persist a ranked snapshot.
    fn save(&self, individuals: &Vec<I>) -> (r: Result<(), PersistError>);
}

/// A comparison capability for boxed candidates.
pub trait Individual<T> {
    fn score_cmp(a: &Box<T>, b: &Box<T>) -> Ordering;
}

} // verus!
