//! The simplest rule set: a candidate carries one number, which is both
//! its content and its score.  Mutation and recombination reproduce the
//! ancestor's number, so the search is deterministic; this grounds the
//! capability contracts and lets the engine and the driver be exercised
//! end to end.

use vstd::prelude::*;
use core::cmp::Ordering;
use crate::models::{Context, EngineError, IBehaviour, IIndividual, IMutation, PersistError};
use crate::shared::get_version;
use crate::text::{chars_cmp, chars_to_string, dec_digits, u64_digits};

verus! {

/// An edit of a basic candidate.  The deterministic rule set never issues
/// one.
#[derive(Debug, Clone, Copy)]
pub struct BasicMutation {
}

impl IMutation for BasicMutation {
}

/// A candidate carrying one number.
#[derive(Debug)]
pub struct BasicIndividual {
    pub version: String,
    pub value: u64,
    pub mutations: Vec<BasicMutation>,
    pub parent_version: String,
    pub parent_value: u64,
}

impl IIndividual<BasicMutation> for BasicIndividual {
    /// The content is the number, encoded as one component whose length is
    /// the number itself.
    open spec fn content(&self) -> Seq<Seq<char>> {
        seq![Seq::new(self.value as nat, |i: int| 'x')]
    }

    open spec fn kind_spec(&self) -> Seq<char> {
        self.parent_version@
    }

    open spec fn version_spec(&self) -> Seq<char> {
        self.version@
    }

    open spec fn mutation_count(&self) -> nat {
        self.mutations@.len()
    }

    open spec fn text(&self) -> Seq<char> {
        dec_digits(self.value as nat)
    }

    fn get_kind(&self) -> (r: String) {
        self.parent_version.clone()
    }

    fn to_string(&self) -> (r: String) {
        let digits = u64_digits(self.value);
        chars_to_string(&digits)
    }

    fn content_eq(&self, other: &Self) -> (r: bool) {
        let same = self.value == other.value;
        proof {
            if same {
                assert(self.content() =~= other.content());
            }
            if self.content() == other.content() {
                assert(self.content()[0] == other.content()[0]);
                assert(self.content()[0].len() == other.content()[0].len());
            }
        }
        same
    }

    fn text_cmp(&self, other: &Self) -> (r: Ordering) {
        let a = u64_digits(self.value);
        let b = u64_digits(other.value);
        chars_cmp(&a, &b)
    }
}

/// The deterministic rule set: candidates start at `start_value`, children
/// and crossed children reproduce their ancestor's value, and the
/// comparison direction is the behaviour's choice, not the engine's.
pub struct BasicBehaviour {
    pub context: Context,
    pub start_value: u64,
    pub higher_is_better: bool,
}

impl IBehaviour<BasicMutation, BasicIndividual> for BasicBehaviour {
    open spec fn spec_context(&self) -> Context {
        self.context
    }

    open spec fn score_le(&self, a: &BasicIndividual, b: &BasicIndividual) -> bool {
        if self.higher_is_better {
            b.value <= a.value
        } else {
            a.value <= b.value
        }
    }

    proof fn lemma_score_le_total(&self, a: &BasicIndividual, b: &BasicIndividual) {
    }

    proof fn lemma_score_le_trans(
        &self,
        a: &BasicIndividual,
        b: &BasicIndividual,
        c: &BasicIndividual,
    ) {
    }

    fn get_context(&self) -> (r: &Context) {
        &self.context
    }

    fn generate(&self) -> (r: BasicIndividual)
        ensures
            r.value == self.start_value,
            r.parent_value == self.start_value,
    {
        let version = get_version();
        let parent_version = version.clone();
        BasicIndividual {
            version,
            value: self.start_value,
            mutations: Vec::new(),
            parent_version,
            parent_value: self.start_value,
        }
    }

    fn mutate(&self, individual: &BasicIndividual) -> (r: BasicIndividual)
        ensures
            r.value == individual.value,
            r.parent_value == individual.value,
    {
        BasicIndividual {
            version: get_version(),
            value: individual.value,
            mutations: Vec::new(),
            parent_version: individual.version.clone(),
            parent_value: individual.value,
        }
    }

    fn cross(&self, individual: &BasicIndividual, partner: &BasicIndividual) -> (r: Result<
        BasicIndividual,
        EngineError,
    >)
        ensures
            r matches Ok(child) ==> child.value == individual.parent_value
                && child.parent_value == individual.parent_value,
            r is Ok,
    {
        Ok(
            BasicIndividual {
                version: get_version(),
                value: individual.parent_value,
                mutations: Vec::new(),
                parent_version: individual.parent_version.clone(),
                parent_value: individual.parent_value,
            },
        )
    }

    fn score_cmp(&self, a: &BasicIndividual, b: &BasicIndividual) -> (r: Ordering) {
        if self.higher_is_better {
            if b.value < a.value {
                Ordering::Less
            } else if a.value < b.value {
                Ordering::Greater
            } else {
                Ordering::Equal
            }
        } else {
            if a.value < b.value {
                Ordering::Less
            } else if b.value < a.value {
                Ordering::Greater
            } else {
                Ordering::Equal
            }
        }
    }

    fn load(&self) -> (r: Result<Vec<BasicIndividual>, PersistError>) {
        Ok(Vec::new())
    }

    fn save(&self, individuals: &Vec<BasicIndividual>) -> (r: Result<(), PersistError>) {
        Ok(())
    }
}

} // verus!
