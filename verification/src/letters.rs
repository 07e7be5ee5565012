//! The letter-split domain: a candidate assigns each letter to the left or
//! the right hand, scored by a table of digraph weights.

use vstd::prelude::*;
use core::cmp::Ordering;
use crate::models::{Context, EngineError, IBehaviour, IIndividual, IMutation, PersistError};
use crate::shared::{get_version, shuffle};
use crate::text::{
    chars_cmp, chars_eq, chars_sorted, chars_to_string, contains_char, copy_chars, dec_int,
    i64_digits, read_char, sort_chars,
};

verus! {

/// One edit: the letter `left` moved from the left hand to the right, and
/// `right` the other way.
#[derive(Debug, Hash, Clone, Copy)]
pub struct Mutation {
    pub left: char,
    pub right: char,
}

impl IMutation for Mutation {
}

impl PartialEq for Mutation {
    fn eq(&self, other: &Self) -> (r: bool) {
        self.left == other.left && self.right == other.right
    }
}

impl vstd::std_specs::cmp::PartialEqSpecImpl for Mutation {
    open spec fn obeys_eq_spec() -> bool {
        true
    }

    open spec fn eq_spec(&self, other: &Mutation) -> bool {
        self.left == other.left && self.right == other.right
    }
}

impl Eq for Mutation {
}

/// A candidate letter split, with its lineage metadata: the version of the
/// ancestor snapshot it derives from, the edits applied since, and the
/// ancestor's own letter lists, kept so that crossover can replay edits.
#[derive(Debug)]
pub struct Letters {
    pub version: String,
    pub left: Vec<char>,
    pub right: Vec<char>,
    pub left_score: i64,
    pub right_score: i64,
    pub mutations: Vec<Mutation>,
    pub parent_version: String,
    pub parent_left: Vec<char>,
    pub parent_right: Vec<char>,
}

/// The textual representation of a letter split.
pub open spec fn letters_text(
    left: Seq<char>,
    right: Seq<char>,
    left_score: int,
    right_score: int,
) -> Seq<char> {
    left + seq![';'] + right + seq![';'] + dec_int(left_score) + seq![';'] + dec_int(right_score)
}

impl IIndividual<Mutation> for Letters {
    open spec fn content(&self) -> Seq<Seq<char>> {
        seq![self.left@, self.right@]
    }

    open spec fn kind_spec(&self) -> Seq<char> {
        self.parent_version@
    }

    open spec fn version_spec(&self) -> Seq<char> {
        self.version@
    }

    open spec fn mutation_count(&self) -> nat {
        self.mutations@.len()
    }

    open spec fn text(&self) -> Seq<char> {
        letters_text(self.left@, self.right@, self.left_score as int, self.right_score as int)
    }

    fn get_kind(&self) -> (r: String) {
        self.parent_version.clone()
    }

    fn to_string(&self) -> (r: String) {
        let chars = self.text_chars();
        chars_to_string(&chars)
    }

    fn content_eq(&self, other: &Self) -> (r: bool) {
        let same = chars_eq(&self.left, &other.left) && chars_eq(&self.right, &other.right);
        proof {
            if same {
                assert(self.content() =~= other.content());
            }
            if self.content() == other.content() {
                assert(self.content()[0] == other.content()[0]);
                assert(self.content()[1] == other.content()[1]);
            }
        }
        same
    }

    fn text_cmp(&self, other: &Self) -> (r: Ordering) {
        let a = self.text_chars();
        let b = other.text_chars();
        chars_cmp(&a, &b)
    }
}

impl Letters {
    /// The characters of the textual representation.
    fn text_chars(&self) -> (r: Vec<char>)
        ensures
            r@ == self.text(),
    {
        let mut v = copy_chars(&self.left);
        v.push(';');
        let mut right = copy_chars(&self.right);
        v.append(&mut right);
        v.push(';');
        let mut ls = i64_digits(self.left_score);
        v.append(&mut ls);
        v.push(';');
        let mut rs = i64_digits(self.right_score);
        v.append(&mut rs);
        proof {
            assert(v@ =~= self.text());
        }
        v
    }

    /// Assemble a candidate: the letter lists are sorted, then scored.
    pub fn ctor(
        version: String,
        left: &Vec<char>,
        right: &Vec<char>,
        mutations: Vec<Mutation>,
        parent_version: String,
        parent_left: Vec<char>,
        parent_right: Vec<char>,
        digraphs: &Digraphs,
    ) -> (r: Letters)
        ensures
            r.version@ == version@,
            r.left@.to_multiset() == left@.to_multiset(),
            chars_sorted(r.left@),
            r.right@.to_multiset() == right@.to_multiset(),
            chars_sorted(r.right@),
            r.left_score as int == digraph_score(digraphs.pairs_spec(), r.left@),
            r.right_score as int == digraph_score(digraphs.pairs_spec(), r.right@),
            r.mutations@ == mutations@,
            r.parent_version@ == parent_version@,
            r.parent_left@ == parent_left@,
            r.parent_right@ == parent_right@,
    {
        let sorted_left = sort_chars(copy_chars(left));
        let sorted_right = sort_chars(copy_chars(right));
        let left_score = digraphs.calculate_score(&sorted_left);
        let right_score = digraphs.calculate_score(&sorted_right);
        Letters {
            version,
            left: sorted_left,
            right: sorted_right,
            left_score,
            right_score,
            mutations,
            parent_version,
            parent_left,
            parent_right,
        }
    }

    /// A fresh candidate holding the same data.
    pub fn copy(&self) -> (r: Letters)
        ensures
            r.version@ == self.version@,
            r.left@ == self.left@,
            r.right@ == self.right@,
            r.left_score == self.left_score,
            r.right_score == self.right_score,
            r.mutations@ == self.mutations@,
            r.parent_version@ == self.parent_version@,
            r.parent_left@ == self.parent_left@,
            r.parent_right@ == self.parent_right@,
    {
        Letters {
            version: self.version.clone(),
            left: copy_chars(&self.left),
            right: copy_chars(&self.right),
            left_score: self.left_score,
            right_score: self.right_score,
            mutations: copy_mutations(&self.mutations),
            parent_version: self.parent_version.clone(),
            parent_left: copy_chars(&self.parent_left),
            parent_right: copy_chars(&self.parent_right),
        }
    }

    /// A fresh random candidate under the behaviour's rules.
    pub fn new(behaviour: &Behaviour) -> (r: Letters)
        ensures
            r.kind_spec() == r.version_spec(),
            r.mutation_count() == 0,
    {
        behaviour.generate()
    }

    pub fn get_mutations(&self) -> (r: &Vec<Mutation>)
        ensures
            r@ == self.mutations@,
    {
        &self.mutations
    }
}

impl PartialEq for Letters {
    /// Two candidates are the same solution exactly when their letter lists
    /// agree; versions, scores and history do not matter.
    fn eq(&self, other: &Self) -> (r: bool) {
        chars_eq(&self.left, &other.left) && chars_eq(&self.right, &other.right)
    }
}

impl vstd::std_specs::cmp::PartialEqSpecImpl for Letters {
    open spec fn obeys_eq_spec() -> bool {
        true
    }

    open spec fn eq_spec(&self, other: &Letters) -> bool {
        self.left@ == other.left@ && self.right@ == other.right@
    }
}

impl Eq for Letters {
}

/// The sum of the weights of every ordered letter pair that the hand can
/// type: both letters of the pair lie in the given list.
pub open spec fn digraph_score(pairs: Seq<(char, char, i32)>, letters: Seq<char>) -> int
    decreases pairs.len(),
{
    if pairs.len() == 0 {
        0
    } else {
        let rest = digraph_score(pairs.drop_last(), letters);
        let p = pairs.last();
        if letters.contains(p.0) && letters.contains(p.1) {
            rest + p.2
        } else {
            rest
        }
    }
}

proof fn lemma_digraph_score_bound(pairs: Seq<(char, char, i32)>, letters: Seq<char>)
    ensures
        -0x8000_0000 * pairs.len() <= digraph_score(pairs, letters) <= 0x8000_0000 * pairs.len(),
    decreases pairs.len(),
{
    if pairs.len() > 0 {
        lemma_digraph_score_bound(pairs.drop_last(), letters);
        assert(-0x8000_0000 * (pairs.len() - 1) - 0x8000_0000 == -0x8000_0000 * pairs.len())
            by (nonlinear_arith);
        assert(0x8000_0000 * (pairs.len() - 1) + 0x8000_0000 == 0x8000_0000 * pairs.len())
            by (nonlinear_arith);
    }
}

/// A table of digraph weights.  The table is bounded so that every total it
/// can produce fits the score type.
pub struct Digraphs {
    pairs: Vec<(char, char, i32)>,
}

impl Digraphs {
    #[verifier::type_invariant]
    spec fn inv(self) -> bool {
        self.pairs@.len() <= 0x8000_0000
    }

    /// The weight table.
    pub closed spec fn pairs_spec(&self) -> Seq<(char, char, i32)> {
        self.pairs@
    }

    pub fn new(pairs: Vec<(char, char, i32)>) -> (r: Digraphs)
        requires
            pairs@.len() <= 0x8000_0000,
        ensures
            r.pairs_spec() == pairs@,
    {
        Digraphs { pairs }
    }

    /// Score one hand's letter list.
    pub fn calculate_score(&self, letters: &Vec<char>) -> (r: i64)
        ensures
            r as int == digraph_score(self.pairs_spec(), letters@),
    {
        proof {
            use_type_invariant(self);
        }
        let mut total: i64 = 0;
        let mut i: usize = 0;
        while i < self.pairs.len()
            invariant
                self.inv(),
                0 <= i <= self.pairs@.len(),
                total as int == digraph_score(self.pairs@.subrange(0, i as int), letters@),
            decreases self.pairs@.len() - i,
        {
            let ghost prefix = self.pairs@.subrange(0, i as int);
            proof {
                lemma_digraph_score_bound(prefix, letters@);
                assert(prefix.len() <= 0x8000_0000);
                assert(-0x8000_0000 * 0x8000_0000 <= -0x8000_0000 * prefix.len()) by (nonlinear_arith)
                    requires prefix.len() <= 0x8000_0000;
                assert(0x8000_0000 * prefix.len() <= 0x8000_0000 * 0x8000_0000) by (nonlinear_arith)
                    requires prefix.len() <= 0x8000_0000;
                assert(self.pairs@.subrange(0, i as int + 1).drop_last() =~= prefix);
                assert(self.pairs@.subrange(0, i as int + 1).last() == self.pairs@[i as int]);
            }
            let (a, b, w) = self.pairs[i];
            let in_both = contains_char(letters, a) && contains_char(letters, b);
            if in_both {
                total = total + w as i64;
            }
            i = i + 1;
        }
        proof {
            assert(self.pairs@.subrange(0, self.pairs@.len() as int) =~= self.pairs@);
        }
        total
    }
}

/// A fresh vector holding the same mutations.
pub fn copy_mutations(v: &Vec<Mutation>) -> (r: Vec<Mutation>)
    ensures
        r@ == v@,
{
    let mut out: Vec<Mutation> = Vec::new();
    let mut i: usize = 0;
    while i < v.len()
        invariant
            0 <= i <= v@.len(),
            out@ == v@.subrange(0, i as int),
        decreases v@.len() - i,
    {
        out.push(v[i]);
        proof {
            assert(out@ =~= v@.subrange(0, i as int + 1));
        }
        i = i + 1;
    }
    proof {
        assert(v@.subrange(0, v@.len() as int) =~= v@);
    }
    out
}


/// Read one mutation of the vector.
pub fn read_mutation(v: &Vec<Mutation>, i: usize) -> (m: Mutation)
    requires
        i < v@.len(),
    ensures
        m == v@[i as int],
{
    v[i]
}

/// Overwrite one character of the vector.
fn set_char(v: &mut Vec<char>, i: usize, c: char)
    requires
        i < old(v)@.len(),
    ensures
        final(v)@ == old(v)@.update(i as int, c),
{
    v[i] = c;
}

/// Swap the first `count` letters of the two hands, recording each swap:
/// the letter that leaves the left hand and the letter that leaves the
/// right hand.
fn swap_prefix(left: &mut Vec<char>, right: &mut Vec<char>, count: usize) -> (r: Vec<Mutation>)
    requires
        count <= old(left)@.len(),
        count <= old(right)@.len(),
    ensures
        r@.len() == count,
        final(left)@.len() == old(left)@.len(),
        final(right)@.len() == old(right)@.len(),
        forall|k: int|
            0 <= k < count ==> #[trigger] r@[k] == (Mutation {
                left: old(left)@[k],
                right: old(right)@[k],
            }),
        forall|k: int| 0 <= k < count ==> #[trigger] final(left)@[k] == old(right)@[k],
        forall|k: int| 0 <= k < count ==> #[trigger] final(right)@[k] == old(left)@[k],
        forall|k: int|
            count <= k < old(left)@.len() ==> #[trigger] final(left)@[k] == old(left)@[k],
        forall|k: int|
            count <= k < old(right)@.len() ==> #[trigger] final(right)@[k] == old(right)@[k],
{
    let mut mutations: Vec<Mutation> = Vec::new();
    let mut index: usize = 0;
    while index < count
        invariant
            0 <= index <= count,
            count <= left@.len(),
            count <= right@.len(),
            left@.len() == old(left)@.len(),
            right@.len() == old(right)@.len(),
            mutations@.len() == index,
            forall|k: int|
                0 <= k < index ==> #[trigger] mutations@[k] == (Mutation {
                    left: old(left)@[k],
                    right: old(right)@[k],
                }),
            forall|k: int| 0 <= k < index ==> #[trigger] left@[k] == old(right)@[k],
            forall|k: int| 0 <= k < index ==> #[trigger] right@[k] == old(left)@[k],
            forall|k: int| index <= k < left@.len() ==> #[trigger] left@[k] == old(left)@[k],
            forall|k: int| index <= k < right@.len() ==> #[trigger] right@[k] == old(right)@[k],
        decreases count - index,
    {
        let ghost pre_left = left@;
        let ghost pre_right = right@;
        let left_char = read_char(left, index);
        let right_char = read_char(right, index);
        proof {
            assert(left_char == old(left)@[index as int]);
            assert(right_char == old(right)@[index as int]);
        }
        set_char(left, index, right_char);
        set_char(right, index, left_char);
        proof {
            assert(left@ == pre_left.update(index as int, right_char));
            assert(right@ == pre_right.update(index as int, left_char));
            assert(left@[index as int] == old(right)@[index as int]);
            assert(right@[index as int] == old(left)@[index as int]);
            assert forall|k: int| 0 <= k < index implies #[trigger] left@[k] == old(right)@[k] by {
                assert(left@[k] == pre_left[k]);
            }
            assert forall|k: int| 0 <= k < index implies #[trigger] right@[k] == old(left)@[k] by {
                assert(right@[k] == pre_right[k]);
            }
        }
        mutations.push(Mutation { left: left_char, right: right_char });
        index = index + 1;
    }
    mutations
}

/// Does the vector hold the mutation?
fn contains_mutation(v: &Vec<Mutation>, m: Mutation) -> (r: bool)
    ensures
        r == v@.contains(m),
{
    let mut i: usize = 0;
    while i < v.len()
        invariant
            0 <= i <= v@.len(),
            forall|k: int| 0 <= k < i ==> v@[k] != m,
        decreases v@.len() - i,
    {
        if v[i] == m {
            return true;
        }
        i = i + 1;
    }
    false
}

/// The lower-case alphabet.
fn alphabet() -> (r: Vec<char>)
    ensures
        r@ == seq![
            'a', 'b', 'c', 'd', 'e', 'f', 'g', 'h', 'i', 'j', 'k', 'l', 'm', 'n', 'o', 'p', 'q',
            'r', 's', 't', 'u', 'v', 'w', 'x', 'y', 'z',
        ],
{
    let mut v: Vec<char> = Vec::new();
    v.push('a');
    v.push('b');
    v.push('c');
    v.push('d');
    v.push('e');
    v.push('f');
    v.push('g');
    v.push('h');
    v.push('i');
    v.push('j');
    v.push('k');
    v.push('l');
    v.push('m');
    v.push('n');
    v.push('o');
    v.push('p');
    v.push('q');
    v.push('r');
    v.push('s');
    v.push('t');
    v.push('u');
    v.push('v');
    v.push('w');
    v.push('x');
    v.push('y');
    v.push('z');
    proof {
        assert(v@ =~= seq![
            'a', 'b', 'c', 'd', 'e', 'f', 'g', 'h', 'i', 'j', 'k', 'l', 'm', 'n', 'o', 'p', 'q',
            'r', 's', 't', 'u', 'v', 'w', 'x', 'y', 'z',
        ]);
    }
    v
}

/// The characters that are not excluded, in order.
pub open spec fn free_chars(s: Seq<char>, excluded: Seq<char>) -> Seq<char>
    decreases s.len(),
{
    if s.len() == 0 {
        s
    } else {
        let rest = free_chars(s.drop_last(), excluded);
        if excluded.contains(s.last()) {
            rest
        } else {
            rest.push(s.last())
        }
    }
}

/// Keep the characters that are not excluded.
fn filter_not_in(v: &Vec<char>, exclude: &Vec<char>) -> (r: Vec<char>)
    ensures
        r@ == free_chars(v@, exclude@),
        r@.len() <= v@.len(),
{
    let mut out: Vec<char> = Vec::new();
    proof {
        assert(v@.subrange(0, 0) =~= Seq::<char>::empty());
        assert(out@ =~= free_chars(v@.subrange(0, 0), exclude@));
    }
    let mut i: usize = 0;
    while i < v.len()
        invariant
            0 <= i <= v@.len(),
            out@.len() <= i,
            out@ == free_chars(v@.subrange(0, i as int), exclude@),
        decreases v@.len() - i,
    {
        proof {
            assert(v@.subrange(0, i as int + 1).drop_last() =~= v@.subrange(0, i as int));
            assert(v@.subrange(0, i as int + 1).last() == v@[i as int]);
        }
        if !contains_char(exclude, v[i]) {
            out.push(v[i]);
        }
        i = i + 1;
    }
    proof {
        assert(v@.subrange(0, v@.len() as int) =~= v@);
    }
    out
}

/// The least of three counts.
pub open spec fn min3(a: int, b: int, c: int) -> int {
    let m = if b < a {
        b
    } else {
        a
    };
    if c < m {
        c
    } else {
        m
    }
}

/// Swapping a common prefix between two hands keeps the pooled letters.
proof fn lemma_swap_prefix_multiset(
    l0: Seq<char>,
    r0: Seq<char>,
    l1: Seq<char>,
    r1: Seq<char>,
    count: int,
)
    requires
        l1.len() == l0.len(),
        r1.len() == r0.len(),
        0 <= count <= l0.len(),
        count <= r0.len(),
        forall|k: int| 0 <= k < count ==> l1[k] == r0[k],
        forall|k: int| 0 <= k < count ==> r1[k] == l0[k],
        forall|k: int| count <= k < l0.len() ==> l1[k] == l0[k],
        forall|k: int| count <= k < r0.len() ==> r1[k] == r0[k],
    ensures
        (l1 + r1).to_multiset() == (l0 + r0).to_multiset(),
{
    broadcast use vstd::multiset::group_multiset_axioms;

    let la = l0.subrange(0, count);
    let lb = l0.subrange(count, l0.len() as int);
    let ra = r0.subrange(0, count);
    let rb = r0.subrange(count, r0.len() as int);
    assert(l1 =~= ra + lb);
    assert(r1 =~= la + rb);
    assert(l0 =~= la + lb);
    assert(r0 =~= ra + rb);
    vstd::seq_lib::lemma_multiset_commutative(ra, lb);
    vstd::seq_lib::lemma_multiset_commutative(la, rb);
    vstd::seq_lib::lemma_multiset_commutative(la, lb);
    vstd::seq_lib::lemma_multiset_commutative(ra, rb);
    vstd::seq_lib::lemma_multiset_commutative(l1, r1);
    vstd::seq_lib::lemma_multiset_commutative(l0, r0);
    assert((l1 + r1).to_multiset() =~= (l0 + r0).to_multiset());
}

/// The rule set of the letter-split domain.  Scores come from the digraph
/// table; a higher total is better.
pub struct Behaviour {
    pub context: Context,
    pub digraphs: Digraphs,
    pub frozen_left: Vec<char>,
    pub frozen_right: Vec<char>,
}

/// The total score of a candidate: the sum of both hands' scores.
pub open spec fn total_score(a: &Letters) -> int {
    a.left_score + a.right_score
}

impl IBehaviour<Mutation, Letters> for Behaviour {
    open spec fn spec_context(&self) -> Context {
        self.context
    }

    /// A higher total score ranks earlier.
    open spec fn score_le(&self, a: &Letters, b: &Letters) -> bool {
        total_score(b) <= total_score(a)
    }

    proof fn lemma_score_le_total(&self, a: &Letters, b: &Letters) {
    }

    proof fn lemma_score_le_trans(&self, a: &Letters, b: &Letters, c: &Letters) {
    }

    fn get_context(&self) -> (r: &Context) {
        &self.context
    }

    fn generate(&self) -> (r: Letters)
        ensures
            chars_sorted(r.left@),
            chars_sorted(r.right@),
            r.left@.to_multiset() == r.parent_left@.to_multiset(),
            r.right@.to_multiset() == r.parent_right@.to_multiset(),
    {
        let alpha = alphabet();
        let mut all = filter_not_in(&alpha, &self.frozen_right);
        let mut all = filter_not_in(&all, &self.frozen_left);
        shuffle(&mut all);

        let mut left = copy_chars(&self.frozen_left);
        let need: usize = if self.context.left_count > left.len() {
            self.context.left_count - left.len()
        } else {
            0
        };
        let split: usize = if need <= all.len() {
            need
        } else {
            all.len()
        };
        let mut i: usize = 0;
        while i < split
            invariant
                0 <= i <= split <= all@.len(),
            decreases split - i,
        {
            left.push(all[i]);
            i = i + 1;
        }

        let mut right = copy_chars(&self.frozen_right);
        let mut j: usize = split;
        while j < all.len()
            invariant
                split <= j <= all@.len(),
            decreases all@.len() - j,
        {
            right.push(all[j]);
            j = j + 1;
        }

        let version = get_version();
        // Versions match so that children can recombine with their parent.
        Letters::ctor(
            version.clone(),
            &left,
            &right,
            Vec::new(),
            version,
            copy_chars(&left),
            copy_chars(&right),
            &self.digraphs,
        )
    }

    fn mutate(&self, individual: &Letters) -> (r: Letters)
        ensures
            r.parent_left@ == individual.left@,
            r.parent_right@ == individual.right@,
            chars_sorted(r.left@),
            chars_sorted(r.right@),
            r.mutations@.len() == min3(
                self.context.mutations_count as int,
                free_chars(individual.left@, self.frozen_left@).len() as int,
                free_chars(individual.right@, self.frozen_right@).len() as int,
            ),
            (r.left@ + r.right@).to_multiset() == (free_chars(individual.left@, self.frozen_left@)
                + self.frozen_left@ + free_chars(individual.right@, self.frozen_right@)
                + self.frozen_right@).to_multiset(),
    {
        broadcast use vstd::multiset::group_multiset_axioms;

        let ghost fl = free_chars(individual.left@, self.frozen_left@);
        let ghost fr = free_chars(individual.right@, self.frozen_right@);
        let mut left = filter_not_in(&individual.left, &self.frozen_left);
        shuffle(&mut left);
        let mut right = filter_not_in(&individual.right, &self.frozen_right);
        shuffle(&mut right);
        proof {
            broadcast use vstd::seq_lib::group_to_multiset_ensures;

            assert(left@.len() == fl.len());
            assert(right@.len() == fr.len());
        }
        let ghost shuffled_left = left@;
        let ghost shuffled_right = right@;

        let mut count = self.context.mutations_count;
        if left.len() < count {
            count = left.len();
        }
        if right.len() < count {
            count = right.len();
        }
        proof {
            assert(count == min3(
                self.context.mutations_count as int,
                fl.len() as int,
                fr.len() as int,
            ));
        }

        let mutations = swap_prefix(&mut left, &mut right, count);
        proof {
            lemma_swap_prefix_multiset(shuffled_left, shuffled_right, left@, right@, count as int);
            vstd::seq_lib::lemma_multiset_commutative(shuffled_left, shuffled_right);
            vstd::seq_lib::lemma_multiset_commutative(fl, fr);
            assert((left@ + right@).to_multiset() =~= (fl + fr).to_multiset());
        }
        let ghost swapped_left = left@;
        let ghost swapped_right = right@;

        let mut frozen = copy_chars(&self.frozen_left);
        left.append(&mut frozen);
        let mut frozen = copy_chars(&self.frozen_right);
        right.append(&mut frozen);
        proof {
            assert(left@ == swapped_left + self.frozen_left@);
            assert(right@ == swapped_right + self.frozen_right@);
        }

        let child = Letters::ctor(
            get_version(),
            &left,
            &right,
            mutations,
            individual.version.clone(),
            copy_chars(&individual.left),
            copy_chars(&individual.right),
            &self.digraphs,
        );
        proof {
            broadcast use vstd::seq_lib::group_to_multiset_ensures;

            vstd::seq_lib::lemma_multiset_commutative(child.left@, child.right@);
            vstd::seq_lib::lemma_multiset_commutative(swapped_left, self.frozen_left@);
            vstd::seq_lib::lemma_multiset_commutative(swapped_right, self.frozen_right@);
            vstd::seq_lib::lemma_multiset_commutative(swapped_left, swapped_right);
            vstd::seq_lib::lemma_multiset_commutative(
                fl + self.frozen_left@,
                fr + self.frozen_right@,
            );
            vstd::seq_lib::lemma_multiset_commutative(fl, self.frozen_left@);
            vstd::seq_lib::lemma_multiset_commutative(fr, self.frozen_right@);
            vstd::seq_lib::lemma_multiset_commutative(
                fl + self.frozen_left@ + fr,
                self.frozen_right@,
            );
            vstd::seq_lib::lemma_multiset_commutative(fl + self.frozen_left@, fr);
            assert forall|e: char|
                (child.left@ + child.right@).to_multiset().count(e) == (fl + self.frozen_left@
                    + fr + self.frozen_right@).to_multiset().count(e) by {
                assert((child.left@ + child.right@).to_multiset().count(e)
                    == child.left@.to_multiset().count(e) + child.right@.to_multiset().count(e));
                assert(child.left@.to_multiset().count(e) == swapped_left.to_multiset().count(e)
                    + self.frozen_left@.to_multiset().count(e));
                assert(child.right@.to_multiset().count(e) == swapped_right.to_multiset().count(e)
                    + self.frozen_right@.to_multiset().count(e));
                assert(swapped_left.to_multiset().count(e) + swapped_right.to_multiset().count(e)
                    == fl.to_multiset().count(e) + fr.to_multiset().count(e)) by {
                    assert((swapped_left + swapped_right).to_multiset().count(e) == (fl
                        + fr).to_multiset().count(e));
                }
                assert((fl + self.frozen_left@ + fr + self.frozen_right@).to_multiset().count(e)
                    == fl.to_multiset().count(e) + self.frozen_left@.to_multiset().count(e)
                    + fr.to_multiset().count(e) + self.frozen_right@.to_multiset().count(e));
            }
            assert((child.left@ + child.right@).to_multiset() =~= (fl + self.frozen_left@ + fr
                + self.frozen_right@).to_multiset());
        }
        child
    }

    fn cross(&self, individual: &Letters, partner: &Letters) -> (r: Result<Letters, EngineError>)
        ensures
            (r matches Ok(child) ==> {
                &&& child.parent_version@ == individual.parent_version@
                &&& child.parent_left@ == individual.parent_left@
                &&& child.parent_right@ == individual.parent_right@
                &&& child.mutations@.no_duplicates()
                &&& forall|k: int|
                    0 <= k < child.mutations@.len() ==> individual.mutations@.contains(
                        #[trigger] child.mutations@[k],
                    ) || partner.mutations@.contains(child.mutations@[k])
                &&& replay_letters(
                    individual.parent_left@,
                    individual.parent_right@,
                    child.mutations@,
                ) matches Some(h) && child.left@.to_multiset() == h.0.to_multiset()
                    && child.right@.to_multiset() == h.1.to_multiset()
                &&& chars_sorted(child.left@)
                &&& chars_sorted(child.right@)
            }),
            individual.mutations@.len() == 0 && partner.mutations@.len() == 0 ==> r is Ok,
    {
        broadcast use vstd::seq_lib::group_to_multiset_ensures;

        // The deduplicated union of both parents' edits, replayed in a
        // random order, capped at the configured count.
        let mut union: Vec<Mutation> = Vec::new();
        let mut i: usize = 0;
        while i < individual.mutations.len()
            invariant
                0 <= i <= individual.mutations@.len(),
                union@.no_duplicates(),
                forall|k: int|
                    0 <= k < union@.len() ==> individual.mutations@.contains(
                        #[trigger] union@[k],
                    ),
                individual.mutations@.len() == 0 ==> union@.len() == 0,
            decreases individual.mutations@.len() - i,
        {
            let m = read_mutation(&individual.mutations, i);
            if !contains_mutation(&union, m) {
                let ghost pre = union@;
                union.push(m);
                proof {
                    assert(individual.mutations@.contains(individual.mutations@[i as int]));
                    assert forall|a: int, b: int|
                        0 <= a < b < union@.len() implies union@[a] != union@[b] by {
                        if b == union@.len() - 1 {
                            assert(pre.contains(pre[a]));
                            assert(!pre.contains(m));
                        }
                    }
                }
            }
            i = i + 1;
        }
        let mut i: usize = 0;
        while i < partner.mutations.len()
            invariant
                0 <= i <= partner.mutations@.len(),
                union@.no_duplicates(),
                forall|k: int|
                    0 <= k < union@.len() ==> individual.mutations@.contains(#[trigger] union@[k])
                        || partner.mutations@.contains(union@[k]),
                individual.mutations@.len() == 0 && partner.mutations@.len() == 0
                    ==> union@.len() == 0,
            decreases partner.mutations@.len() - i,
        {
            let m = read_mutation(&partner.mutations, i);
            if !contains_mutation(&union, m) {
                let ghost pre = union@;
                union.push(m);
                proof {
                    assert(partner.mutations@.contains(partner.mutations@[i as int]));
                    assert forall|a: int, b: int|
                        0 <= a < b < union@.len() implies union@[a] != union@[b] by {
                        if b == union@.len() - 1 {
                            assert(pre.contains(pre[a]));
                            assert(!pre.contains(m));
                        }
                    }
                }
            }
            i = i + 1;
        }
        let ghost pre_shuffle = union@;
        shuffle(&mut union);
        proof {
            pre_shuffle.lemma_multiset_has_no_duplicates();
            union@.lemma_multiset_has_no_duplicates_conv();
            assert forall|k: int|
                0 <= k < union@.len() implies individual.mutations@.contains(#[trigger] union@[k])
                || partner.mutations@.contains(union@[k]) by {
                assert(union@.contains(union@[k]));
                assert(union@.to_multiset().count(union@[k]) > 0);
                assert(pre_shuffle.to_multiset().count(union@[k]) > 0);
                assert(pre_shuffle.contains(union@[k]));
                let j = choose|j: int| 0 <= j < pre_shuffle.len() && pre_shuffle[j] == union@[k];
                assert(individual.mutations@.contains(pre_shuffle[j]) || partner.mutations@.contains(
                    pre_shuffle[j],
                ));
            }
        }
        let ghost pre_truncate = union@;
        union.truncate(self.context.mutations_count);
        proof {
            if self.context.mutations_count <= pre_truncate.len() {
                assert(union@ == pre_truncate.subrange(0, self.context.mutations_count as int));
            }
            assert forall|a: int, b: int|
                0 <= a < b < union@.len() implies union@[a] != union@[b] by {
                assert(union@[a] == pre_truncate[a] && union@[b] == pre_truncate[b]);
            }
            assert forall|k: int|
                0 <= k < union@.len() implies individual.mutations@.contains(#[trigger] union@[k])
                || partner.mutations@.contains(union@[k]) by {
                assert(union@[k] == pre_truncate[k]);
            }
        }

        let ghost pl = individual.parent_left@;
        let ghost pr = individual.parent_right@;
        let mut left = copy_chars(&individual.parent_left);
        let mut right = copy_chars(&individual.parent_right);
        proof {
            assert(union@.take(0) =~= Seq::<Mutation>::empty());
        }
        let mut i: usize = 0;
        while i < union.len()
            invariant
                0 <= i <= union@.len(),
                replay_letters(pl, pr, union@.take(i as int)) == Some((left@, right@)),
                union@.len() <= self.context.mutations_count,
                union@.no_duplicates(),
                forall|k: int|
                    0 <= k < union@.len() ==> individual.mutations@.contains(#[trigger] union@[k])
                        || partner.mutations@.contains(union@[k]),
                individual.mutations@.len() == 0 && partner.mutations@.len() == 0
                    ==> union@.len() == 0,
                pl == individual.parent_left@,
                pr == individual.parent_right@,
            decreases union@.len() - i,
        {
            let m = read_mutation(&union, i);
            proof {
                assert(union@.take(i as int + 1).drop_last() =~= union@.take(i as int));
                assert(union@.take(i as int + 1).last() == union@[i as int]);
            }
            let left_index = index_of_char(&left, m.left);
            let right_index = index_of_char(&right, m.right);
            match (left_index, right_index) {
                (Some(li), Some(ri)) => {
                    let ghost pre_left = left@;
                    let ghost pre_right = right@;
                    // Replay the edit positionally: the two referenced
                    // letters swap hands.
                    set_char(&mut left, li, m.right);
                    set_char(&mut right, ri, m.left);
                    proof {
                        assert(left@ == pre_left.update(li as int, m.right));
                        assert(right@ == pre_right.update(ri as int, m.left));
                        assert(replay_letters(pl, pr, union@.take(i as int + 1)) == Some(
                            (left@, right@),
                        ));
                    }
                },
                _ => {
                    return Err(EngineError::IncompatibleMutation);
                },
            }
            i = i + 1;
        }
        proof {
            assert(union@.take(union@.len() as int) =~= union@);
        }

        // The child stays in its parents' lineage: its edits are the
        // replayed subset, relative to the same ancestor snapshot.
        Ok(
            Letters::ctor(
                get_version(),
                &left,
                &right,
                union,
                individual.parent_version.clone(),
                copy_chars(&individual.parent_left),
                copy_chars(&individual.parent_right),
                &self.digraphs,
            ),
        )
    }

    fn score_cmp(&self, a: &Letters, b: &Letters) -> (r: Ordering) {
        let a_total: i128 = a.left_score as i128 + a.right_score as i128;
        let b_total: i128 = b.left_score as i128 + b.right_score as i128;
        if b_total < a_total {
            Ordering::Less
        } else if a_total < b_total {
            Ordering::Greater
        } else {
            Ordering::Equal
        }
    }

    fn load(&self) -> (r: Result<Vec<Letters>, PersistError>) {
        Ok(Vec::new())
    }

    fn save(&self, individuals: &Vec<Letters>) -> (r: Result<(), PersistError>) {
        Ok(())
    }
}

/// The first slot holding a character, or a negative sentinel for none.
pub open spec fn char_index(s: Seq<char>, c: char) -> int
    decreases s.len(),
{
    if s.len() == 0 {
        -1
    } else if s[0] == c {
        0
    } else {
        let r = char_index(s.drop_first(), c);
        if r < 0 {
            -1
        } else {
            r + 1
        }
    }
}

proof fn lemma_char_index_some(s: Seq<char>, c: char, i: int)
    requires
        0 <= i < s.len(),
        s[i] == c,
        forall|j: int| 0 <= j < i ==> s[j] != c,
    ensures
        char_index(s, c) == i,
    decreases s.len(),
{
    if s[0] != c {
        let t = s.drop_first();
        assert(t[i - 1] == s[i]);
        assert(forall|j: int| 0 <= j < i - 1 ==> t[j] == s[j + 1]);
        lemma_char_index_some(t, c, i - 1);
    }
}

proof fn lemma_char_index_none(s: Seq<char>, c: char)
    requires
        !s.contains(c),
    ensures
        char_index(s, c) == -1,
    decreases s.len(),
{
    if s.len() > 0 {
        let t = s.drop_first();
        assert(!t.contains(c)) by {
            assert(forall|j: int| 0 <= j < t.len() ==> t[j] == s[j + 1]);
        }
        lemma_char_index_none(t, c);
    }
}

/// Replay edits onto the two hands, in order: each edit swaps its left
/// letter out of the left hand and its right letter out of the right hand;
/// an edit whose letters are not both present is incompatible, and spoils
/// the whole replay.
pub open spec fn replay_letters(
    left: Seq<char>,
    right: Seq<char>,
    edits: Seq<Mutation>,
) -> Option<(Seq<char>, Seq<char>)>
    decreases edits.len(),
{
    if edits.len() == 0 {
        Some((left, right))
    } else {
        match replay_letters(left, right, edits.drop_last()) {
            Option::None => None,
            Option::Some(h) => {
                let m = edits.last();
                let li = char_index(h.0, m.left);
                let ri = char_index(h.1, m.right);
                if li < 0 || ri < 0 {
                    None
                } else {
                    Some((h.0.update(li, m.right), h.1.update(ri, m.left)))
                }
            },
        }
    }
}

/// Where is the character first found in the vector?
fn index_of_char(v: &Vec<char>, c: char) -> (r: Option<usize>)
    ensures
        (r matches Some(i) ==> i < v@.len() && v@[i as int] == c && char_index(v@, c) == i as int),
        (r is None ==> !v@.contains(c) && char_index(v@, c) == -1),
{
    let mut i: usize = 0;
    while i < v.len()
        invariant
            0 <= i <= v@.len(),
            forall|k: int| 0 <= k < i ==> v@[k] != c,
        decreases v@.len() - i,
    {
        if v[i] == c {
            proof {
                lemma_char_index_some(v@, c, i as int);
            }
            return Some(i);
        }
        i = i + 1;
    }
    proof {
        lemma_char_index_none(v@, c);
    }
    None
}

} // verus!
