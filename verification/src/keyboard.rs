//! The keyboard domain: a candidate assigns characters to key positions.
//! Positions 0 to 14 are the left half, 15 to 29 the right half; `_` marks
//! a skipped key.

use vstd::prelude::*;
use core::cmp::Ordering;
use vstd::string::StrSliceExecFns;
use crate::models::{EngineError, IIndividual, IMutation};
use crate::shared::{get_version, random_u32, shuffle};
use crate::text::{chars_cmp, chars_to_string, dec_digits, read_char, u64_digits};

verus! {

/// A key position on the board.
pub type Position = u8;

/// One edit: the characters on the two positions swapped places.
#[derive(Debug, Hash, Clone, Copy)]
pub struct Mutation {
    pub first: Position,
    pub second: Position,
}

impl IMutation for Mutation {
}

impl PartialEq for Mutation {
    fn eq(&self, other: &Self) -> (r: bool) {
        self.first == other.first && self.second == other.second
    }
}

impl vstd::std_specs::cmp::PartialEqSpecImpl for Mutation {
    open spec fn obeys_eq_spec() -> bool {
        true
    }

    open spec fn eq_spec(&self, other: &Mutation) -> bool {
        self.first == other.first && self.second == other.second
    }
}

impl Eq for Mutation {
}

/// A layout: which character sits on which position.  Kept as an
/// association list; a well-formed layout lists each character and each
/// position at most once.
pub type Keys = Vec<(char, Position)>;

/// The characters of a string, in order.
pub fn str_to_chars(s: &str) -> (r: Vec<char>)
    ensures
        r@ == s@,
{
    let n = s.unicode_len();
    let mut v: Vec<char> = Vec::new();
    let mut i: usize = 0;
    while i < n
        invariant
            0 <= i <= n,
            n == s@.len(),
            v@ == s@.subrange(0, i as int),
        decreases n - i,
    {
        v.push(s.get_char(i));
        proof {
            assert(v@ =~= s@.subrange(0, i as int + 1));
        }
        i = i + 1;
    }
    proof {
        assert(s@.subrange(0, s@.len() as int) =~= s@);
    }
    v
}

/// Is the character a decimal digit?
pub open spec fn is_ascii_digit(c: char) -> bool {
    ('0' as int) <= (c as int) && (c as int) <= ('9' as int)
}

/// The value of a digit character.
pub open spec fn digit_value(c: char) -> int {
    (c as int) - ('0' as int)
}

/// The value of a digit string, most significant digit first.
pub open spec fn digits_value(s: Seq<char>) -> int
    decreases s.len(),
{
    if s.len() == 0 {
        0
    } else {
        digits_value(s.drop_last()) * 10 + digit_value(s.last())
    }
}

pub open spec fn all_digits(s: Seq<char>) -> bool {
    forall|i: int| 0 <= i < s.len() ==> is_ascii_digit(#[trigger] s[i])
}

/// The numeral behind an optional leading plus sign.
pub open spec fn numeral_of(s: Seq<char>) -> Seq<char> {
    if s.len() > 0 && s[0] == '+' {
        s.drop_first()
    } else {
        s
    }
}

/// What parsing a position out of a string yields: the string must be an
/// optionally plus-signed, nonempty run of digits whose value fits.
pub open spec fn parse_u8_spec(s: Seq<char>) -> Option<u8> {
    let t = numeral_of(s);
    if t.len() > 0 && all_digits(t) && digits_value(t) <= 255 {
        Some(digits_value(t) as u8)
    } else {
        None
    }
}

proof fn lemma_digits_value_nonneg(s: Seq<char>)
    requires
        all_digits(s),
    ensures
        digits_value(s) >= 0,
    decreases s.len(),
{
    if s.len() > 0 {
        assert(all_digits(s.drop_last())) by {
            assert(forall|i: int|
                0 <= i < s.len() - 1 ==> #[trigger] s.drop_last()[i] == s[i]);
        }
        lemma_digits_value_nonneg(s.drop_last());
    }
}

/// Extending a digit string never shrinks its value.
proof fn lemma_digits_value_monotone(s: Seq<char>, k: int)
    requires
        all_digits(s),
        0 <= k <= s.len(),
    ensures
        digits_value(s) >= digits_value(s.take(k)),
    decreases s.len() - k,
{
    if k < s.len() {
        assert(all_digits(s.drop_last())) by {
            assert(forall|i: int|
                0 <= i < s.len() - 1 ==> #[trigger] s.drop_last()[i] == s[i]);
        }
        if k == s.len() - 1 {
            assert(s.take(k) =~= s.drop_last());
            lemma_digits_value_nonneg(s.drop_last());
            assert(digits_value(s) == digits_value(s.drop_last()) * 10 + digit_value(s.last()));
        } else {
            lemma_digits_value_monotone(s.drop_last(), k);
            assert(s.drop_last().take(k) =~= s.take(k));
            lemma_digits_value_nonneg(s.drop_last());
        }
    } else {
        assert(s.take(k) =~= s);
    }
}

/// Parse a position from its decimal representation.
pub fn parse_u8(str: &String) -> (r: Option<Position>)
    ensures
        r == parse_u8_spec(str@),
{
    let chars = str_to_chars(str.as_str());
    let n = chars.len();
    let mut start: usize = 0;
    if n > 0 && read_char(&chars, 0) == '+' {
        start = 1;
    }
    let ghost t = numeral_of(str@);
    proof {
        assert(t =~= chars@.skip(start as int));
    }
    if start == n {
        return None;
    }
    let mut acc: u32 = 0;
    let mut j: usize = start;
    while j < n
        invariant
            start <= j <= n,
            n == chars@.len(),
            t == chars@.skip(start as int),
            t == numeral_of(str@),
            t.len() > 0,
            all_digits(t.take(j - start)),
            acc == digits_value(t.take(j - start)),
            acc <= 255,
        decreases n - j,
    {
        let c = read_char(&chars, j);
        proof {
            assert(t[j - start] == chars@[j as int]);
        }
        if !(c >= '0' && c <= '9') {
            proof {
                assert(!is_ascii_digit(t[j - start]));
            }
            return None;
        }
        let d: u32 = (c as u32) - ('0' as u32);
        proof {
            assert(c as int >= '0' as int && c as int <= '9' as int);
            assert(d == digit_value(t[j - start]));
        }
        let next: u32 = acc * 10 + d;
        proof {
            assert(t.take(j - start + 1).drop_last() =~= t.take(j - start));
            assert(t.take(j - start + 1).last() == t[j - start]);
            assert(all_digits(t.take(j - start + 1)));
        }
        if next > 255 {
            proof {
                assert(digits_value(t.take(j - start + 1)) == next);
                if all_digits(t) {
                    lemma_digits_value_monotone(t, j - start + 1);
                    assert(digits_value(t) > 255);
                }
            }
            return None;
        }
        acc = next;
        j = j + 1;
    }
    proof {
        assert(t.take((n - start) as int) =~= t);
    }
    Some(acc as u8)
}

/// Push one key pair.
fn push_key(v: &mut Keys, c: char, p: Position)
    ensures
        final(v)@ == old(v)@.push((c, p)),
{
    v.push((c, p));
}

/// Read one key pair.
fn read_key(v: &Keys, i: usize) -> (r: (char, Position))
    requires
        i < v@.len(),
    ensures
        r == v@[i as int],
{
    v[i]
}

/// Overwrite one key pair.
fn set_key(v: &mut Keys, i: usize, c: char, p: Position)
    requires
        i < old(v)@.len(),
    ensures
        final(v)@ == old(v)@.update(i as int, (c, p)),
{
    v[i] = (c, p);
}

/// Push one mutation.
fn push_kb_mutation(v: &mut Vec<Mutation>, first: Position, second: Position)
    ensures
        final(v)@ == old(v)@.push(Mutation { first, second }),
{
    v.push(Mutation { first, second });
}

/// Read one mutation.
fn read_kb_mutation(v: &Vec<Mutation>, i: usize) -> (m: Mutation)
    requires
        i < v@.len(),
    ensures
        m == v@[i as int],
{
    v[i]
}

/// A fresh list holding the same keys.
pub fn copy_keys(v: &Keys) -> (r: Keys)
    ensures
        r@ == v@,
{
    let mut out: Keys = Vec::new();
    let mut i: usize = 0;
    while i < v.len()
        invariant
            0 <= i <= v@.len(),
            out@ == v@.subrange(0, i as int),
        decreases v@.len() - i,
    {
        let k = read_key(v, i);
        push_key(&mut out, k.0, k.1);
        proof {
            assert(out@ =~= v@.subrange(0, i as int + 1));
        }
        i = i + 1;
    }
    proof {
        assert(v@.subrange(0, v@.len() as int) =~= v@);
    }
    out
}

/// Everything before the first semicolon.
pub open spec fn before_semicolon(s: Seq<char>) -> Seq<char>
    decreases s.len(),
{
    if s.len() == 0 || s[0] == ';' {
        Seq::empty()
    } else {
        seq![s[0]] + before_semicolon(s.drop_first())
    }
}

fn take_before_semi(chars: &Vec<char>, i: usize) -> (r: Vec<char>)
    requires
        i <= chars@.len(),
    ensures
        r@ == before_semicolon(chars@.skip(i as int)),
    decreases chars@.len() - i,
{
    if i == chars.len() {
        let r: Vec<char> = Vec::new();
        proof {
            assert(chars@.skip(i as int).len() == 0);
            assert(r@ =~= before_semicolon(chars@.skip(i as int)));
        }
        return r;
    }
    let c = read_char(chars, i);
    proof {
        assert(chars@.skip(i as int)[0] == chars@[i as int]);
    }
    if c == ';' {
        let r: Vec<char> = Vec::new();
        proof {
            assert(r@ =~= before_semicolon(chars@.skip(i as int)));
        }
        return r;
    }
    let mut rest = take_before_semi(chars, i + 1);
    rest.insert(0, c);
    proof {
        assert(chars@.skip(i as int).drop_first() =~= chars@.skip(i as int + 1));
        assert(rest@ =~= seq![c] + before_semicolon(chars@.skip(i as int + 1)));
    }
    rest
}

/// An ASCII whitespace separator.
pub open spec fn is_space(c: char) -> bool {
    c == ' ' || c == '\t' || c == '\n' || c == '\r'
}

/// The leading run of non-space characters.
pub open spec fn word_prefix(s: Seq<char>) -> Seq<char>
    decreases s.len(),
{
    if s.len() == 0 || is_space(s[0]) {
        Seq::empty()
    } else {
        seq![s[0]] + word_prefix(s.drop_first())
    }
}

proof fn lemma_word_prefix_len(s: Seq<char>)
    ensures
        word_prefix(s).len() <= s.len(),
        s.len() > 0 && !is_space(s[0]) ==> word_prefix(s).len() >= 1,
    decreases s.len(),
{
    if s.len() > 0 && !is_space(s[0]) {
        lemma_word_prefix_len(s.drop_first());
    }
}

/// The space-separated words.
pub open spec fn split_words(s: Seq<char>) -> Seq<Seq<char>>
    decreases s.len(),
    via split_words_decreases
{
    if s.len() == 0 {
        Seq::empty()
    } else if is_space(s[0]) {
        split_words(s.drop_first())
    } else {
        seq![word_prefix(s)] + split_words(s.skip(word_prefix(s).len() as int))
    }
}

#[via_fn]
proof fn split_words_decreases(s: Seq<char>) {
    if s.len() > 0 && !is_space(s[0]) {
        lemma_word_prefix_len(s);
    }
}

fn exec_is_space(c: char) -> (r: bool)
    ensures
        r == is_space(c),
{
    c == ' ' || c == '\t' || c == '\n' || c == '\r'
}

fn take_word(chars: &Vec<char>, i: usize) -> (r: Vec<char>)
    requires
        i <= chars@.len(),
    ensures
        r@ == word_prefix(chars@.skip(i as int)),
        i + r@.len() <= chars@.len(),
    decreases chars@.len() - i,
{
    proof {
        lemma_word_prefix_len(chars@.skip(i as int));
    }
    if i == chars.len() {
        let r: Vec<char> = Vec::new();
        proof {
            assert(chars@.skip(i as int).len() == 0);
            assert(r@ =~= word_prefix(chars@.skip(i as int)));
        }
        return r;
    }
    let c = read_char(chars, i);
    proof {
        assert(chars@.skip(i as int)[0] == chars@[i as int]);
    }
    if exec_is_space(c) {
        let r: Vec<char> = Vec::new();
        proof {
            assert(r@ =~= word_prefix(chars@.skip(i as int)));
        }
        return r;
    }
    let mut rest = take_word(chars, i + 1);
    rest.insert(0, c);
    proof {
        assert(chars@.skip(i as int).drop_first() =~= chars@.skip(i as int + 1));
        assert(rest@ =~= seq![c] + word_prefix(chars@.skip(i as int + 1)));
    }
    rest
}

fn split_words_exec(chars: &Vec<char>, i: usize) -> (r: Vec<Vec<char>>)
    requires
        i <= chars@.len(),
    ensures
        crate::pool::group_views(r@) == split_words(chars@.skip(i as int)),
    decreases chars@.len() - i,
{
    if i == chars.len() {
        let r: Vec<Vec<char>> = Vec::new();
        proof {
            assert(chars@.skip(i as int).len() == 0);
            assert(crate::pool::group_views(r@) =~= split_words(chars@.skip(i as int)));
        }
        return r;
    }
    let c = read_char(chars, i);
    proof {
        assert(chars@.skip(i as int)[0] == chars@[i as int]);
    }
    if exec_is_space(c) {
        let r = split_words_exec(chars, i + 1);
        proof {
            assert(chars@.skip(i as int).drop_first() =~= chars@.skip(i as int + 1));
        }
        return r;
    }
    let word = take_word(chars, i);
    let word_len = word.len();
    proof {
        lemma_word_prefix_len(chars@.skip(i as int));
        assert(word_len >= 1);
    }
    let mut rest = split_words_exec(chars, i + word_len);
    let ghost pre_rest = rest@;
    rest.insert(0, word);
    proof {
        assert(chars@.skip(i as int).skip(word_len as int) =~= chars@.skip(i as int + word_len));
        assert(crate::pool::group_views(rest@) =~= seq![word@] + crate::pool::group_views(
            pre_rest,
        ));
    }
    rest
}

/// The keys with their positions, shifted; positions wrap like an `as u8`
/// cast.
pub open spec fn pairs_of(chars: Seq<char>, shift: int) -> Seq<(char, Position)> {
    Seq::new(chars.len(), |i: int| (chars[i], (((i + shift) % 256) as u8)))
}

/// Drop the placeholder pairs: `_` marks a skipped key.
pub open spec fn keep_keys(s: Seq<(char, Position)>) -> Seq<(char, Position)>
    decreases s.len(),
{
    if s.len() == 0 {
        s
    } else {
        let rest = keep_keys(s.drop_last());
        if s.last().0 == '_' {
            rest
        } else {
            rest.push(s.last())
        }
    }
}

/// What reading a layout line yields: the part before the first semicolon
/// is split into words; the first three words are the left half, on
/// positions counted from zero, and the remaining words are the right
/// half, each word reversed, on positions counted from fifteen; placeholder
/// keys are dropped.
pub open spec fn line_to_keys_spec(line: Seq<char>) -> Seq<(char, Position)> {
    let words = split_words(before_semicolon(line));
    let left = if words.len() <= 3 {
        words.flatten()
    } else {
        words.take(3).flatten()
    };
    let right = if words.len() <= 3 {
        Seq::<Seq<char>>::empty().flatten()
    } else {
        words.skip(3).map_values(|w: Seq<char>| w.reverse()).flatten()
    };
    keep_keys(pairs_of(left, 0) + pairs_of(right, 15))
}

/// Reverse a word.
fn reverse_chars(v: &Vec<char>) -> (r: Vec<char>)
    ensures
        r@ == v@.reverse(),
{
    let mut out: Vec<char> = Vec::new();
    let mut i: usize = v.len();
    while i > 0
        invariant
            0 <= i <= v@.len(),
            out@.len() == v@.len() - i,
            forall|k: int| 0 <= k < out@.len() ==> out@[k] == v@[v@.len() - 1 - k],
        decreases i,
    {
        i = i - 1;
        out.push(read_char(v, i));
    }
    proof {
        assert(out@ =~= v@.reverse());
    }
    out
}

/// Read a layout line into keys.
#[verifier::rlimit(100)]
pub fn line_to_keys(line: &str) -> (r: Keys)
    ensures
        r@ == line_to_keys_spec(line@),
{
    let chars = str_to_chars(line);
    proof {
        assert(chars@.skip(0) =~= chars@);
    }
    let head = take_before_semi(&chars, 0);
    proof {
        assert(head@.skip(0) =~= head@);
    }
    let words = split_words_exec(&head, 0);
    let ghost ws = crate::pool::group_views(words@);

    // The left half: the first three words, concatenated.
    let left_count: usize = if words.len() <= 3 {
        words.len()
    } else {
        3
    };
    let mut left: Vec<char> = Vec::new();
    let mut wi: usize = 0;
    proof {
        assert(ws.take(0) =~= Seq::<Seq<char>>::empty());
        assert(left@ =~= ws.take(0).flatten());
    }
    while wi < left_count
        invariant
            0 <= wi <= left_count <= ws.len(),
            ws == crate::pool::group_views(words@),
            words@.len() == ws.len(),
            left@ == ws.take(wi as int).flatten(),
        decreases left_count - wi,
    {
        let ghost pre = left@;
        let word = &words[wi];
        let mut copy: Vec<char> = crate::text::copy_chars(word);
        left.append(&mut copy);
        proof {
            assert(ws.take(wi as int).push(ws[wi as int]) =~= ws.take(wi as int + 1));
            ws.take(wi as int).lemma_flatten_push(ws[wi as int]);
            assert(left@ =~= ws.take(wi as int + 1).flatten());
        }
        wi = wi + 1;
    }

    // The right half: the remaining words, each reversed.
    let ghost rws = ws.skip(3).map_values(|w: Seq<char>| w.reverse());
    let mut right: Vec<char> = Vec::new();
    let mut wi: usize = left_count;
    proof {
        if ws.len() > 3 {
            assert(rws.take(0) =~= Seq::<Seq<char>>::empty());
            assert(right@ =~= rws.take(0).flatten());
        }
    }
    while wi < words.len()
        invariant
            left_count <= wi <= words@.len(),
            ws == crate::pool::group_views(words@),
            words@.len() == ws.len(),
            rws == ws.skip(3).map_values(|w: Seq<char>| w.reverse()),
            left_count == if ws.len() <= 3 { ws.len() as int } else { 3int },
            ws.len() > 3 ==> right@ == rws.take(wi - 3).flatten(),
            ws.len() <= 3 ==> right@ == Seq::<char>::empty(),
        decreases words@.len() - wi,
    {
        let ghost pre = right@;
        let word = &words[wi];
        let mut rev = reverse_chars(word);
        right.append(&mut rev);
        proof {
            assert(ws.len() > 3);
            assert(rws[wi - 3] == ws[wi as int].reverse());
            assert(rws.take(wi - 3).push(rws[wi - 3]) =~= rws.take(wi - 3 + 1));
            rws.take(wi - 3).lemma_flatten_push(rws[wi - 3]);
            assert(right@ =~= rws.take(wi - 3 + 1).flatten());
        }
        wi = wi + 1;
    }
    proof {
        if ws.len() > 3 {
            assert(rws.take(ws.len() - 3) =~= rws);
        }
    }

    // Attach positions and drop placeholders.
    let ghost all = pairs_of(left@, 0) + pairs_of(right@, 15);
    let mut out: Keys = Vec::new();
    let mut k: usize = 0;
    proof {
        assert(all.take(0) =~= Seq::<(char, Position)>::empty());
        assert(out@ =~= keep_keys(all.take(0)));
    }
    while k < left.len()
        invariant
            0 <= k <= left@.len(),
            all == pairs_of(left@, 0) + pairs_of(right@, 15),
            all.len() == left@.len() + right@.len(),
            out@ == keep_keys(all.take(k as int)),
        decreases left@.len() - k,
    {
        let c = read_char(&left, k);
        proof {
            assert(all[k as int] == (left@[k as int], ((k % 256) as u8)));
            assert(all.take(k as int + 1).drop_last() =~= all.take(k as int));
            assert(all.take(k as int + 1).last() == all[k as int]);
        }
        if c != '_' {
            push_key(&mut out, c, (k % 256) as u8);
        }
        k = k + 1;
    }
    let mut k2: usize = 0;
    while k2 < right.len()
        invariant
            0 <= k2 <= right@.len(),
            all == pairs_of(left@, 0) + pairs_of(right@, 15),
            all.len() == left@.len() + right@.len(),
            out@ == keep_keys(all.take(left@.len() + k2)),
        decreases right@.len() - k2,
    {
        let c = read_char(&right, k2);
        proof {
            assert(all[left@.len() + k2] == (right@[k2 as int], (((k2 + 15) % 256) as u8)));
            assert(all.take(left@.len() + k2 + 1).drop_last() =~= all.take(left@.len() + k2));
            assert(all.take(left@.len() + k2 + 1).last() == all[left@.len() + k2]);
        }
        if c != '_' {
            let p: usize = ((k2 % 256) + 15) % 256;
            proof {
                vstd::arithmetic::div_mod::lemma_add_mod_noop(k2 as int, 15int, 256int);
            }
            push_key(&mut out, c, p as u8);
        }
        k2 = k2 + 1;
    }
    proof {
        assert(all.take(all.len() as int) =~= all);
        assert(head@ == before_semicolon(line@)) by {
            assert(chars@ == line@);
        }
        let spec_words = split_words(before_semicolon(line@));
        assert(spec_words == ws);
        if ws.len() <= 3 {
            assert(ws.take(left_count as int) =~= ws);
            assert(left@ == spec_words.flatten());
            assert(Seq::<Seq<char>>::empty().flatten() =~= Seq::<char>::empty());
            assert(right@ == Seq::<Seq<char>>::empty().flatten());
        } else {
            assert(left@ == spec_words.take(3).flatten());
            assert(right@ == spec_words.skip(3).map_values(|w: Seq<char>| w.reverse()).flatten());
        }
        assert(out@ == line_to_keys_spec(line@));
    }
    out
}

/// The tallied score components of a layout: weighted effort, the
/// same-hand pair counters for each hand, the hand-switch counter, and the
/// per-hand efforts.
pub type Score = (i64, u32, u32, u32, i64, i64);

/// A candidate layout, with its lineage metadata: the version of the
/// ancestor snapshot it derives from, the edits applied since, and the
/// ancestor's own keys, kept so that crossover can replay edits.
#[derive(Debug)]
pub struct Keyboard {
    pub version: String,

    /// A list of up to 30 placed characters.  Positions 0 to 14 are the
    /// left part, 15 to 29 the right part, numbered row by row; the right
    /// part mirrors the left.
    pub keys: Keys,
    pub score: Score,
    pub mutations: Vec<Mutation>,
    pub parent_version: String,
    pub parent: Keys,
}

/// The character on a position: the first listed, as a one-character
/// sequence, or empty for a free position.
pub open spec fn char_at(keys: Seq<(char, Position)>, p: int) -> Seq<char>
    decreases keys.len(),
{
    if keys.len() == 0 {
        Seq::empty()
    } else if keys[0].1 == p {
        seq![keys[0].0]
    } else {
        char_at(keys.drop_first(), p)
    }
}

/// The solution content of a layout: the board's 30 positions in order,
/// each holding its character or nothing.  Two layouts are the same
/// solution exactly when every position agrees.
pub open spec fn keys_content(keys: Seq<(char, Position)>) -> Seq<Seq<char>> {
    Seq::new(30, |p: int| char_at(keys, p))
}

/// The character shown for a position: the placed character, or the
/// placeholder for a free position.
pub open spec fn cell(keys: Seq<(char, Position)>, p: int) -> char {
    if char_at(keys, p).len() == 0 {
        '_'
    } else {
        char_at(keys, p)[0]
    }
}

/// One displayed row of five positions; right-half rows read outward, so
/// they are rendered in reverse.
pub open spec fn row_text(keys: Seq<(char, Position)>, base: int, reversed: bool) -> Seq<char> {
    Seq::new(5, |i: int| if reversed { cell(keys, base + 4 - i) } else { cell(keys, base + i) })
}

/// The textual representation of a layout: the six rows, then the score
/// components.
pub open spec fn keyboard_text(keys: Seq<(char, Position)>, score: Score) -> Seq<char> {
    row_text(keys, 0, false) + seq![' '] + row_text(keys, 5, false) + seq![' '] + row_text(
        keys,
        10,
        false,
    ) + seq![' ', ' '] + row_text(keys, 15, true) + seq![' '] + row_text(keys, 20, true)
        + seq![' '] + row_text(keys, 25, true) + seq![';'] + crate::text::dec_int(score.0 as int)
        + seq![';'] + dec_digits(score.1 as nat) + seq![';'] + dec_digits(score.2 as nat)
        + seq![';'] + dec_digits(score.3 as nat) + seq![';'] + crate::text::dec_int(score.4 as int)
        + seq![';'] + crate::text::dec_int(score.5 as int)
}

/// The first character on a position, if the position is taken.
pub fn find_char_at(keys: &Keys, p: Position) -> (r: Option<char>)
    ensures
        (r is None ==> char_at(keys@, p as int) == Seq::<char>::empty()),
        (r matches Some(c) ==> char_at(keys@, p as int) == seq![c]),
{
    let mut i: usize = 0;
    proof {
        assert(keys@.skip(0) =~= keys@);
    }
    while i < keys.len()
        invariant
            0 <= i <= keys@.len(),
            char_at(keys@, p as int) == char_at(keys@.skip(i as int), p as int),
        decreases keys@.len() - i,
    {
        let k = read_key(keys, i);
        proof {
            assert(keys@.skip(i as int)[0] == keys@[i as int]);
            assert(keys@.skip(i as int).drop_first() =~= keys@.skip(i as int + 1));
        }
        if k.1 == p {
            return Some(k.0);
        }
        i = i + 1;
    }
    proof {
        assert(keys@.skip(keys@.len() as int).len() == 0);
    }
    None
}

impl IIndividual<Mutation> for Keyboard {
    open spec fn content(&self) -> Seq<Seq<char>> {
        keys_content(self.keys@)
    }

    open spec fn kind_spec(&self) -> Seq<char> {
        self.parent_version@
    }

    open spec fn version_spec(&self) -> Seq<char> {
        self.version@
    }

    open spec fn mutation_count(&self) -> nat {
        self.mutations@.len()
    }

    open spec fn text(&self) -> Seq<char> {
        keyboard_text(self.keys@, self.score)
    }

    fn get_kind(&self) -> (r: String) {
        self.parent_version.clone()
    }

    fn to_string(&self) -> (r: String) {
        let chars = self.text_chars();
        chars_to_string(&chars)
    }

    fn content_eq(&self, other: &Self) -> (r: bool) {
        let mut p: u8 = 0;
        while p < 30
            invariant
                0 <= p <= 30,
                forall|q: int|
                    0 <= q < p ==> char_at(self.keys@, q) == char_at(other.keys@, q),
            decreases 30 - p,
        {
            let a = find_char_at(&self.keys, p);
            let b = find_char_at(&other.keys, p);
            let same = match (a, b) {
                (Option::None, Option::None) => true,
                (Option::Some(x), Option::Some(y)) => x == y,
                _ => false,
            };
            if !same {
                proof {
                    let ca = char_at(self.keys@, p as int);
                    let cb = char_at(other.keys@, p as int);
                    match (a, b) {
                        (Option::None, Option::Some(y)) => {
                            assert(ca.len() == 0 && cb.len() == 1);
                        },
                        (Option::Some(x), Option::None) => {
                            assert(ca.len() == 1 && cb.len() == 0);
                        },
                        (Option::Some(x), Option::Some(y)) => {
                            assert(ca[0] == x && cb[0] == y);
                        },
                        _ => {
                        },
                    }
                    assert(ca != cb);
                    assert(self.content()[p as int] != other.content()[p as int]);
                }
                return false;
            }
            p = p + 1;
        }
        proof {
            assert(self.content() =~= other.content());
        }
        true
    }

    fn text_cmp(&self, other: &Self) -> (r: Ordering) {
        let a = self.text_chars();
        let b = other.text_chars();
        chars_cmp(&a, &b)
    }
}

impl Keyboard {
    pub fn new(
        version: String,
        keys: Keys,
        score: Score,
        mutations: Vec<Mutation>,
        parent_version: String,
        parent: Keys,
    ) -> (r: Keyboard)
        ensures
            r.version@ == version@,
            r.keys@ == keys@,
            r.score == score,
            r.mutations@ == mutations@,
            r.parent_version@ == parent_version@,
            r.parent@ == parent@,
    {
        Keyboard { version, keys, score, mutations, parent_version, parent }
    }

    /// The characters of the textual representation.
    #[verifier::rlimit(100)]
    fn text_chars(&self) -> (r: Vec<char>)
        ensures
            r@ == self.text(),
    {
        let mut v: Vec<char> = Vec::new();
        push_row(&mut v, &self.keys, 0, false);
        v.push(' ');
        push_row(&mut v, &self.keys, 5, false);
        v.push(' ');
        push_row(&mut v, &self.keys, 10, false);
        v.push(' ');
        v.push(' ');
        push_row(&mut v, &self.keys, 15, true);
        v.push(' ');
        push_row(&mut v, &self.keys, 20, true);
        v.push(' ');
        push_row(&mut v, &self.keys, 25, true);
        v.push(';');
        let mut d = crate::text::i64_digits(self.score.0);
        v.append(&mut d);
        v.push(';');
        let mut d = u64_digits(self.score.1 as u64);
        v.append(&mut d);
        v.push(';');
        let mut d = u64_digits(self.score.2 as u64);
        v.append(&mut d);
        v.push(';');
        let mut d = u64_digits(self.score.3 as u64);
        v.append(&mut d);
        v.push(';');
        let mut d = crate::text::i64_digits(self.score.4);
        v.append(&mut d);
        v.push(';');
        let mut d = crate::text::i64_digits(self.score.5);
        v.append(&mut d);
        proof {
            assert(v@ =~= self.text());
        }
        v
    }

    pub fn get_score(&self) -> (r: i64)
        ensures
            r == self.score.0,
    {
        self.score.0
    }

    /// Assemble a mutated child: its lineage key is its parent's version,
    /// and its ancestor snapshot is its parent's keys.
    pub fn mutant(parent: &Keyboard, keys: Keys, score: Score, mutations: Vec<Mutation>) -> (r:
        Keyboard)
        ensures
            r.keys@ == keys@,
            r.score == score,
            r.mutations@ == mutations@,
            r.parent_version@ == parent.version@,
            r.parent@ == parent.keys@,
            r.version@.len() == 10,
    {
        Keyboard {
            version: get_version(),
            keys,
            score,
            mutations,
            parent_version: parent.version.clone(),
            parent: copy_keys(&parent.keys),
        }
    }

    /// Assemble a crossed child: it stays in its parents' lineage, keeping
    /// their shared lineage key and ancestor snapshot, so it remains a
    /// sibling of both for future recombination rounds.
    pub fn crossed(parent: &Keyboard, keys: Keys, score: Score, mutations: Vec<Mutation>) -> (r:
        Keyboard)
        ensures
            r.keys@ == keys@,
            r.score == score,
            r.mutations@ == mutations@,
            r.parent_version@ == parent.parent_version@,
            r.parent@ == parent.parent@,
            r.version@.len() == 10,
    {
        Keyboard {
            version: get_version(),
            keys,
            score,
            mutations,
            parent_version: parent.parent_version.clone(),
            parent: copy_keys(&parent.parent),
        }
    }
}

/// Append one displayed row.
fn push_row(out: &mut Vec<char>, keys: &Keys, base: u8, reversed: bool)
    requires
        base <= 25,
    ensures
        final(out)@ == old(out)@ + row_text(keys@, base as int, reversed),
{
    let ghost pre = out@;
    let mut i: u8 = 0;
    while i < 5
        invariant
            0 <= i <= 5,
            base <= 25,
            out@.len() == pre.len() + i,
            forall|k: int|
                0 <= k < pre.len() ==> #[trigger] out@[k] == pre[k],
            forall|k: int|
                pre.len() <= k < out@.len() ==> #[trigger] out@[k] == row_text(
                    keys@,
                    base as int,
                    reversed,
                )[k - pre.len()],
        decreases 5 - i,
    {
        let p: u8 = if reversed {
            base + 4 - i
        } else {
            base + i
        };
        let c = match find_char_at(keys, p) {
            Option::Some(c) => c,
            Option::None => '_',
        };
        proof {
            assert(c == cell(keys@, p as int));
        }
        out.push(c);
        i = i + 1;
    }
    proof {
        assert(out@ =~= pre + row_text(keys@, base as int, reversed));
    }
}

impl PartialEq for Keyboard {
    /// Two layouts are the same solution exactly when every position holds
    /// the same character; versions, scores and history do not matter.
    fn eq(&self, other: &Self) -> (r: bool) {
        self.content_eq(other)
    }
}

impl vstd::std_specs::cmp::PartialEqSpecImpl for Keyboard {
    open spec fn obeys_eq_spec() -> bool {
        true
    }

    open spec fn eq_spec(&self, other: &Keyboard) -> bool {
        keys_content(self.keys@) == keys_content(other.keys@)
    }
}

impl Eq for Keyboard {
}

/// Does the layout place this character?
pub open spec fn has_key_char(keys: Seq<(char, Position)>, c: char) -> bool {
    exists|i: int| 0 <= i < keys.len() && (#[trigger] keys[i]).0 == c
}

/// Does the layout use this position?
pub open spec fn has_position(keys: Seq<(char, Position)>, p: Position) -> bool {
    exists|i: int| 0 <= i < keys.len() && (#[trigger] keys[i]).1 == p
}

fn contains_key_char(keys: &Keys, c: char) -> (r: bool)
    ensures
        r == has_key_char(keys@, c),
{
    let mut i: usize = 0;
    while i < keys.len()
        invariant
            0 <= i <= keys@.len(),
            forall|k: int| 0 <= k < i ==> (#[trigger] keys@[k]).0 != c,
        decreases keys@.len() - i,
    {
        let k = read_key(keys, i);
        if k.0 == c {
            return true;
        }
        i = i + 1;
    }
    false
}

fn contains_position_value(keys: &Keys, p: Position) -> (r: bool)
    ensures
        r == has_position(keys@, p),
{
    let mut i: usize = 0;
    while i < keys.len()
        invariant
            0 <= i <= keys@.len(),
            forall|k: int| 0 <= k < i ==> (#[trigger] keys@[k]).1 != p,
        decreases keys@.len() - i,
    {
        let k = read_key(keys, i);
        if k.1 == p {
            return true;
        }
        i = i + 1;
    }
    false
}

fn contains_blocked(blocked: &Vec<Position>, p: Position) -> (r: bool)
    ensures
        r == blocked@.contains(p),
{
    let mut i: usize = 0;
    while i < blocked.len()
        invariant
            0 <= i <= blocked@.len(),
            forall|k: int| 0 <= k < i ==> blocked@[k] != p,
        decreases blocked@.len() - i,
    {
        if blocked[i] == p {
            return true;
        }
        i = i + 1;
    }
    false
}

/// The lower-case alphabet.
pub open spec fn alphabet_seq() -> Seq<char> {
    seq![
        'a', 'b', 'c', 'd', 'e', 'f', 'g', 'h', 'i', 'j', 'k', 'l', 'm', 'n', 'o', 'p', 'q', 'r',
        's', 't', 'u', 'v', 'w', 'x', 'y', 'z',
    ]
}

fn exec_alphabet() -> (r: Vec<char>)
    ensures
        r@ == alphabet_seq(),
{
    let mut v: Vec<char> = Vec::new();
    v.push('a');
    v.push('b');
    v.push('c');
    v.push('d');
    v.push('e');
    v.push('f');
    v.push('g');
    v.push('h');
    v.push('i');
    v.push('j');
    v.push('k');
    v.push('l');
    v.push('m');
    v.push('n');
    v.push('o');
    v.push('p');
    v.push('q');
    v.push('r');
    v.push('s');
    v.push('t');
    v.push('u');
    v.push('v');
    v.push('w');
    v.push('x');
    v.push('y');
    v.push('z');
    proof {
        assert(v@ =~= alphabet_seq());
    }
    v
}

/// How many of the given letters are not frozen.
pub open spec fn free_letter_count(alpha: Seq<char>, frozen: Seq<(char, Position)>) -> int
    decreases alpha.len(),
{
    if alpha.len() == 0 {
        0
    } else {
        free_letter_count(alpha.drop_last(), frozen) + if has_key_char(frozen, alpha.last()) {
            0int
        } else {
            1int
        }
    }
}

/// How many board positions below the limit are free: neither blocked nor
/// taken by a frozen key.
pub open spec fn free_position_count(
    limit: int,
    frozen: Seq<(char, Position)>,
    blocked: Seq<Position>,
) -> int
    decreases limit,
{
    if limit <= 0 {
        0
    } else {
        free_position_count(limit - 1, frozen, blocked) + if blocked.contains(
            ((limit - 1) % 256) as Position,
        ) || has_position(frozen, ((limit - 1) % 256) as Position) {
            0int
        } else {
            1int
        }
    }
}

/// Generate a fresh layout: the letters that are not frozen land, in a
/// random order, on the positions that are neither blocked nor taken by a
/// frozen key; the frozen keys come last, unchanged.
pub fn generate_keys(frozen_keys: &Keys, blocked_keys: &Vec<Position>) -> (r: Keys)
    ensures
        r@.len() <= 26 + frozen_keys@.len(),
        r@.len() == frozen_keys@.len() + if free_letter_count(alphabet_seq(), frozen_keys@)
            <= free_position_count(30, frozen_keys@, blocked_keys@) {
            free_letter_count(alphabet_seq(), frozen_keys@)
        } else {
            free_position_count(30, frozen_keys@, blocked_keys@)
        },
        forall|a: int, b: int|
            0 <= a < b < r@.len() - frozen_keys@.len() ==> (#[trigger] r@[a]).0 != (
            #[trigger] r@[b]).0 && r@[a].1 != r@[b].1,
        r@.subrange(r@.len() - frozen_keys@.len(), r@.len() as int) == frozen_keys@,
        forall|j: int|
            0 <= j < r@.len() - frozen_keys@.len() ==> {
                &&& alphabet_seq().contains((#[trigger] r@[j]).0)
                &&& !has_key_char(frozen_keys@, r@[j].0)
                &&& r@[j].1 <= 29
                &&& !blocked_keys@.contains(r@[j].1)
                &&& !has_position(frozen_keys@, r@[j].1)
            },
{
    let alpha = exec_alphabet();
    let mut letters: Vec<char> = Vec::new();
    let mut i: usize = 0;
    while i < alpha.len()
        invariant
            0 <= i <= alpha@.len(),
            alpha@ == alphabet_seq(),
            letters@.len() <= i,
            letters@.len() == free_letter_count(alpha@.subrange(0, i as int), frozen_keys@),
            forall|k: int|
                0 <= k < letters@.len() ==> alphabet_seq().contains(#[trigger] letters@[k])
                    && !has_key_char(frozen_keys@, letters@[k]),
            forall|k: int|
                0 <= k < letters@.len() ==> alpha@.subrange(0, i as int).contains(
                    #[trigger] letters@[k],
                ),
            letters@.no_duplicates(),
        decreases alpha@.len() - i,
    {
        let c = read_char(&alpha, i);
        proof {
            assert(alpha@.subrange(0, i as int + 1).drop_last() =~= alpha@.subrange(0, i as int));
            assert(alpha@.subrange(0, i as int + 1).last() == alpha@[i as int]);
        }
        if !contains_key_char(frozen_keys, c) {
            let ghost pre = letters@;
            proof {
                assert(alphabet_seq().contains(alpha@[i as int]));
            }
            letters.push(c);
            proof {
                // The alphabet has no repeats, so a letter not seen in the
                // scanned prefix is new to the list.
                assert(!pre.contains(c)) by {
                    if pre.contains(c) {
                        let k = choose|k: int| 0 <= k < pre.len() && pre[k] == c;
                        let j = choose|j: int|
                            0 <= j < i && alpha@.subrange(0, i as int)[j] == pre[k];
                        assert(alpha@[j] == c && alpha@[i as int] == c && j < i);
                        assert(alphabet_seq().no_duplicates());
                    }
                }
                assert forall|a: int, b: int|
                    0 <= a < b < letters@.len() implies letters@[a] != letters@[b] by {
                    if b == letters@.len() - 1 {
                        assert(pre.contains(pre[a]));
                    }
                }
                assert forall|k: int|
                    0 <= k < letters@.len() implies alpha@.subrange(0, i as int + 1).contains(
                    #[trigger] letters@[k],
                ) by {
                    if k < pre.len() {
                        let j = choose|j: int|
                            0 <= j < i && alpha@.subrange(0, i as int)[j] == pre[k];
                        assert(alpha@.subrange(0, i as int + 1)[j] == letters@[k]);
                    } else {
                        assert(alpha@.subrange(0, i as int + 1)[i as int] == c);
                    }
                }
            }
        } else {
            proof {
                assert forall|k: int|
                    0 <= k < letters@.len() implies alpha@.subrange(0, i as int + 1).contains(
                    #[trigger] letters@[k],
                ) by {
                    let j = choose|j: int|
                        0 <= j < i && alpha@.subrange(0, i as int)[j] == letters@[k];
                    assert(alpha@.subrange(0, i as int + 1)[j] == letters@[k]);
                }
            }
        }
        i = i + 1;
    }
    proof {
        assert(alpha@.subrange(0, alpha@.len() as int) =~= alpha@);
    }
    let ghost pre_letters = letters@;
    shuffle(&mut letters);
    proof {
        broadcast use vstd::seq_lib::group_to_multiset_ensures;

        pre_letters.lemma_multiset_has_no_duplicates();
        letters@.lemma_multiset_has_no_duplicates_conv();
        assert forall|k: int|
            0 <= k < letters@.len() implies alphabet_seq().contains(#[trigger] letters@[k])
            && !has_key_char(frozen_keys@, letters@[k]) by {
            assert(letters@.contains(letters@[k]));
            assert(letters@.to_multiset().count(letters@[k]) > 0);
            assert(pre_letters.to_multiset().count(letters@[k]) > 0);
            assert(pre_letters.contains(letters@[k]));
            let m = choose|m: int| 0 <= m < pre_letters.len() && pre_letters[m] == letters@[k];
            assert(alphabet_seq().contains(pre_letters[m]));
        }
        assert(letters@.len() <= 26) by {
            assert(letters@.to_multiset().len() == letters@.len());
            assert(pre_letters.to_multiset().len() == pre_letters.len());
        }
    }

    let mut positions: Vec<Position> = Vec::new();
    let mut p: u8 = 0;
    while p < 30
        invariant
            0 <= p <= 30,
            positions@.len() == free_position_count(p as int, frozen_keys@, blocked_keys@),
            forall|k: int|
                0 <= k < positions@.len() ==> #[trigger] positions@[k] <= 29
                    && !blocked_keys@.contains(positions@[k]) && !has_position(
                    frozen_keys@,
                    positions@[k],
                ),
            forall|k: int| 0 <= k < positions@.len() ==> (#[trigger] positions@[k]) < p,
            positions@.no_duplicates(),
        decreases 30 - p,
    {
        proof {
            assert((((p + 1) - 1) % 256) as Position == p);
        }
        if !contains_blocked(blocked_keys, p) && !contains_position_value(frozen_keys, p) {
            positions.push(p);
        }
        p = p + 1;
    }
    let ghost pre_positions = positions@;
    shuffle(&mut positions);
    proof {
        broadcast use vstd::seq_lib::group_to_multiset_ensures;

        pre_positions.lemma_multiset_has_no_duplicates();
        positions@.lemma_multiset_has_no_duplicates_conv();
        assert forall|k: int|
            0 <= k < positions@.len() implies #[trigger] positions@[k] <= 29
            && !blocked_keys@.contains(positions@[k]) && !has_position(
            frozen_keys@,
            positions@[k],
        ) by {
            assert(positions@.contains(positions@[k]));
            assert(positions@.to_multiset().count(positions@[k]) > 0);
            assert(pre_positions.to_multiset().count(positions@[k]) > 0);
            assert(pre_positions.contains(positions@[k]));
            let m = choose|m: int|
                0 <= m < pre_positions.len() && pre_positions[m] == positions@[k];
        }
    }

    let n = if letters.len() <= positions.len() {
        letters.len()
    } else {
        positions.len()
    };
    let mut out: Keys = Vec::new();
    let mut j: usize = 0;
    while j < n
        invariant
            0 <= j <= n,
            n <= letters@.len(),
            n <= positions@.len(),
            out@.len() == j,
            forall|k: int|
                0 <= k < letters@.len() ==> alphabet_seq().contains(#[trigger] letters@[k])
                    && !has_key_char(frozen_keys@, letters@[k]),
            forall|k: int|
                0 <= k < positions@.len() ==> #[trigger] positions@[k] <= 29
                    && !blocked_keys@.contains(positions@[k]) && !has_position(
                    frozen_keys@,
                    positions@[k],
                ),
            letters@.no_duplicates(),
            positions@.no_duplicates(),
            forall|k: int| 0 <= k < j ==> (#[trigger] out@[k]).0 == letters@[k],
            forall|k: int| 0 <= k < j ==> (#[trigger] out@[k]).1 == positions@[k],
            forall|k: int|
                0 <= k < j ==> {
                    &&& alphabet_seq().contains((#[trigger] out@[k]).0)
                    &&& !has_key_char(frozen_keys@, out@[k].0)
                    &&& out@[k].1 <= 29
                    &&& !blocked_keys@.contains(out@[k].1)
                    &&& !has_position(frozen_keys@, out@[k].1)
                },
        decreases n - j,
    {
        let c = read_char(&letters, j);
        let q = positions[j];
        push_key(&mut out, c, q);
        j = j + 1;
    }
    let ghost fresh = out@;
    let mut frozen = copy_keys(frozen_keys);
    out.append(&mut frozen);
    proof {
        assert(out@.subrange(out@.len() - frozen_keys@.len(), out@.len() as int)
            =~= frozen_keys@);
        assert(letters@.len() == pre_letters.len()) by {
            broadcast use vstd::seq_lib::group_to_multiset_ensures;

        }
        assert(positions@.len() == pre_positions.len()) by {
            broadcast use vstd::seq_lib::group_to_multiset_ensures;

        }
        assert(out@.len() <= 26 + frozen_keys@.len());
    }
    out
}

/// The keys that are not frozen, in order.
pub open spec fn movable_keys(
    keys: Seq<(char, Position)>,
    frozen: Seq<(char, Position)>,
) -> Seq<(char, Position)>
    decreases keys.len(),
{
    if keys.len() == 0 {
        keys
    } else {
        let rest = movable_keys(keys.drop_last(), frozen);
        if has_key_char(frozen, keys.last().0) {
            rest
        } else {
            rest.push(keys.last())
        }
    }
}

/// Mutate a layout's keys: shuffle the unfrozen keys, then swap the
/// positions of one to `mutations_count` pairs, drawn from the two ends of
/// the shuffled order.  The movable keys keep their characters and only
/// trade positions among themselves; the frozen keys come back unchanged
/// at the end.
pub fn mutate_keys(keys: &Keys, frozen_keys: &Keys, mutations_count: usize) -> (r: (
    Keys,
    Vec<Mutation>,
))
    requires
        mutations_count >= 1,
    ensures
        r.1@.len() <= mutations_count,
        r.0@.len() == movable_keys(keys@, frozen_keys@).len() + frozen_keys@.len(),
        movable_keys(keys@, frozen_keys@).len() >= 2 ==> r.1@.len() >= 1,
        r.0@.subrange(r.0@.len() - frozen_keys@.len(), r.0@.len() as int) == frozen_keys@,
        key_chars(r.0@.subrange(0, r.0@.len() - frozen_keys@.len())).to_multiset() == key_chars(
            movable_keys(keys@, frozen_keys@),
        ).to_multiset(),
        key_positions(r.0@.subrange(0, r.0@.len() - frozen_keys@.len())).to_multiset()
            == key_positions(movable_keys(keys@, frozen_keys@)).to_multiset(),
        forall|k: int|
            0 <= k < r.1@.len() ==> key_positions(movable_keys(keys@, frozen_keys@)).contains(
                (#[trigger] r.1@[k]).first,
            ) && key_positions(movable_keys(keys@, frozen_keys@)).contains(r.1@[k].second),
{
    broadcast use vstd::seq_lib::group_to_multiset_ensures;

    let ghost movable_spec = movable_keys(keys@, frozen_keys@);
    let mut movable: Keys = Vec::new();
    let mut i: usize = 0;
    while i < keys.len()
        invariant
            0 <= i <= keys@.len(),
            movable@.len() <= i,
            movable@ == movable_keys(keys@.subrange(0, i as int), frozen_keys@),
        decreases keys@.len() - i,
    {
        let k = read_key(keys, i);
        proof {
            assert(keys@.subrange(0, i as int + 1).drop_last() =~= keys@.subrange(0, i as int));
            assert(keys@.subrange(0, i as int + 1).last() == keys@[i as int]);
        }
        if !contains_key_char(frozen_keys, k.0) {
            push_key(&mut movable, k.0, k.1);
        }
        i = i + 1;
    }
    proof {
        assert(keys@.subrange(0, keys@.len() as int) =~= keys@);
        assert(movable@ == movable_spec);
    }
    let ghost filtered_len = movable@.len();
    shuffle(&mut movable);
    proof {
        assert(movable@.len() == filtered_len);
        crate::pool::lemma_map_values_multiset(
            movable@,
            movable_spec,
            |k: (char, Position)| k.0,
        );
        crate::pool::lemma_map_values_multiset(
            movable@,
            movable_spec,
            |k: (char, Position)| k.1,
        );
        assert(key_chars(movable@).to_multiset() == key_chars(movable_spec).to_multiset());
        assert(key_positions(movable@).to_multiset() == key_positions(movable_spec).to_multiset());
    }

    let cap32: u32 = if mutations_count > 0xffff_ffff {
        0xffff_ffff
    } else {
        mutations_count as u32
    };
    let drawn: u32 = 1 + random_u32() % cap32;
    let mut count: usize = drawn as usize;
    if movable.len() / 2 < count {
        count = movable.len() / 2;
    }
    let ghost m_len = movable@.len();

    let mut mutations: Vec<Mutation> = Vec::new();
    let mut index: usize = 0;
    while index < count
        invariant
            0 <= index <= count,
            2 * count <= m_len,
            movable@.len() == m_len,
            m_len <= filtered_len <= keys@.len(),
            mutations@.len() == index,
            count <= mutations_count,
            movable_spec == movable_keys(keys@, frozen_keys@),
            key_chars(movable@).to_multiset() == key_chars(movable_spec).to_multiset(),
            key_positions(movable@).to_multiset() == key_positions(movable_spec).to_multiset(),
            forall|k: int|
                0 <= k < mutations@.len() ==> key_positions(movable_spec).contains(
                    (#[trigger] mutations@[k]).first,
                ) && key_positions(movable_spec).contains(mutations@[k].second),
        decreases count - index,
    {
        let second_index = movable.len() - index - 1;
        let ghost pre = movable@;
        let first_key = read_key(&movable, index);
        let second_key = read_key(&movable, second_index);
        set_key(&mut movable, index, first_key.0, second_key.1);
        set_key(&mut movable, second_index, second_key.0, first_key.1);
        push_kb_mutation(&mut mutations, first_key.1, second_key.1);
        proof {
            broadcast use vstd::seq_lib::group_to_multiset_ensures;

            let fi = index as int;
            let si = second_index as int;
            // Characters stay in their slots; the two positions trade.
            assert(key_chars(movable@) =~= key_chars(pre));
            let ps = key_positions(pre);
            assert(key_positions(movable@) =~= ps.update(fi, ps[si]).update(si, ps[fi]));
            assert(ps[fi] == first_key.1 && ps[si] == second_key.1);
            assert(ps.contains(first_key.1) && ps.contains(second_key.1));
            assert(ps.to_multiset().count(first_key.1) > 0);
            assert(ps.to_multiset().count(second_key.1) > 0);
            crate::pool::lemma_update_multiset(ps, fi, ps[si]);
            assert(ps.update(fi, ps[si])[si] == ps[si]);
            crate::pool::lemma_update_multiset(ps.update(fi, ps[si]), si, ps[fi]);
            assert(ps.update(fi, ps[si]).update(si, ps[fi]).to_multiset() =~= ps.to_multiset())
                by {
                broadcast use vstd::multiset::group_multiset_axioms;
                broadcast use vstd::seq_lib::group_to_multiset_ensures;

                assert(ps.update(fi, ps[si]).to_multiset() == ps.to_multiset().remove(
                    ps[fi],
                ).insert(ps[si]));
                assert(ps.update(fi, ps[si]).update(si, ps[fi]).to_multiset() == ps.update(
                    fi,
                    ps[si],
                ).to_multiset().remove(ps[si]).insert(ps[fi]));
            }
            assert(key_positions(movable_spec).contains(first_key.1)) by {
                assert(key_positions(movable_spec).to_multiset().count(first_key.1) > 0);
            }
            assert(key_positions(movable_spec).contains(second_key.1)) by {
                assert(key_positions(movable_spec).to_multiset().count(second_key.1) > 0);
            }
        }
        index = index + 1;
    }

    let ghost swapped = movable@;
    let mut frozen = copy_keys(frozen_keys);
    movable.append(&mut frozen);
    proof {
        assert(movable@.subrange(movable@.len() - frozen_keys@.len(), movable@.len() as int)
            =~= frozen_keys@);
        assert(movable@.subrange(0, movable@.len() - frozen_keys@.len()) =~= swapped);
    }
    (movable, mutations)
}

/// The characters of a layout, slot by slot.
pub open spec fn key_chars(s: Seq<(char, Position)>) -> Seq<char> {
    s.map_values(|k: (char, Position)| k.0)
}

/// The positions of a layout, slot by slot.
pub open spec fn key_positions(s: Seq<(char, Position)>) -> Seq<Position> {
    s.map_values(|k: (char, Position)| k.1)
}

/// The first slot using a position, or a negative sentinel for none.
pub open spec fn key_position_index(keys: Seq<(char, Position)>, p: Position) -> int
    decreases keys.len(),
{
    if keys.len() == 0 {
        -1
    } else if keys[0].1 == p {
        0
    } else {
        let r = key_position_index(keys.drop_first(), p);
        if r < 0 {
            -1
        } else {
            r + 1
        }
    }
}

proof fn lemma_key_position_index_some(keys: Seq<(char, Position)>, p: Position, i: int)
    requires
        0 <= i < keys.len(),
        keys[i].1 == p,
        forall|j: int| 0 <= j < i ==> (#[trigger] keys[j]).1 != p,
    ensures
        key_position_index(keys, p) == i,
    decreases keys.len(),
{
    if keys[0].1 == p {
        assert(i == 0);
    } else {
        let t = keys.drop_first();
        assert(t[i - 1] == keys[i]);
        assert(forall|j: int| 0 <= j < i - 1 ==> (#[trigger] t[j]) == keys[j + 1]);
        lemma_key_position_index_some(t, p, i - 1);
    }
}

proof fn lemma_key_position_index_none(keys: Seq<(char, Position)>, p: Position)
    requires
        !has_position(keys, p),
    ensures
        key_position_index(keys, p) == -1,
    decreases keys.len(),
{
    if keys.len() > 0 {
        assert(keys[0].1 != p);
        let t = keys.drop_first();
        assert(!has_position(t, p)) by {
            assert(forall|j: int| 0 <= j < t.len() ==> (#[trigger] t[j]) == keys[j + 1]);
        }
        lemma_key_position_index_none(t, p);
    }
}

proof fn lemma_key_position_index_valid(keys: Seq<(char, Position)>, p: Position)
    ensures
        key_position_index(keys, p) >= 0 ==> 0 <= key_position_index(keys, p) < keys.len()
            && keys[key_position_index(keys, p)].1 == p,
    decreases keys.len(),
{
    if keys.len() > 0 && keys[0].1 != p {
        lemma_key_position_index_valid(keys.drop_first(), p);
    }
}

/// Replay edits onto a layout, in order: each edit swaps the characters of
/// its two positions; an edit whose positions are not both on the board is
/// incompatible, and spoils the whole replay.
pub open spec fn replay_keys(keys: Seq<(char, Position)>, edits: Seq<Mutation>) -> Option<
    Seq<(char, Position)>,
>
    decreases edits.len(),
{
    if edits.len() == 0 {
        Some(keys)
    } else {
        match replay_keys(keys, edits.drop_last()) {
            Option::None => None,
            Option::Some(k) => {
                let m = edits.last();
                let fi = key_position_index(k, m.first);
                let si = key_position_index(k, m.second);
                if fi < 0 || si < 0 {
                    None
                } else {
                    Some(k.update(fi, (k[si].0, m.first)).update(si, (k[fi].0, m.second)))
                }
            },
        }
    }
}

/// A successful replay keeps the board: the positions stay exactly where
/// they were, and the characters are only rearranged.
pub proof fn lemma_replay_keys_preserves(keys: Seq<(char, Position)>, edits: Seq<Mutation>)
    ensures
        replay_keys(keys, edits) matches Some(out) ==> out.len() == keys.len() && key_positions(
            out,
        ) == key_positions(keys) && key_chars(out).to_multiset() == key_chars(keys).to_multiset(),
    decreases edits.len(),
{
    broadcast use vstd::seq_lib::group_to_multiset_ensures;
    broadcast use vstd::multiset::group_multiset_axioms;

    if edits.len() > 0 {
        lemma_replay_keys_preserves(keys, edits.drop_last());
        if replay_keys(keys, edits) is Some {
            let k = replay_keys(keys, edits.drop_last())->Some_0;
            let m = edits.last();
            let fi = key_position_index(k, m.first);
            let si = key_position_index(k, m.second);
            lemma_key_position_index_valid(k, m.first);
            lemma_key_position_index_valid(k, m.second);
            let out = k.update(fi, (k[si].0, m.first)).update(si, (k[fi].0, m.second));
            assert(key_positions(out) =~= key_positions(k));
            if fi == si {
                assert(key_chars(out) =~= key_chars(k).update(si, k[fi].0));
                assert(key_chars(k).update(si, k[fi].0) =~= key_chars(k));
                assert(key_chars(out).to_multiset() == key_chars(k).to_multiset());
            } else {
                let cs = key_chars(k);
                assert(key_chars(out) =~= cs.update(fi, cs[si]).update(si, cs[fi]));
                crate::pool::lemma_update_multiset(cs, fi, cs[si]);
                crate::pool::lemma_update_multiset(cs.update(fi, cs[si]), si, cs.update(
                    fi,
                    cs[si],
                )[si]);
                assert(cs.update(fi, cs[si])[si] == cs[si]);
                crate::pool::lemma_update_multiset(cs.update(fi, cs[si]), si, cs[fi]);
                assert(cs.update(fi, cs[si]).update(si, cs[fi]).to_multiset()
                    =~= cs.to_multiset()) by {
                    assert(cs.update(fi, cs[si]).to_multiset() == cs.to_multiset().remove(
                        cs[fi],
                    ).insert(cs[si]));
                    assert(cs.update(fi, cs[si])[si] == cs[si]);
                }
            }
        }
    }
}

/// Recombine two mutation histories onto the shared ancestor layout: the
/// deduplicated union of the edits, in a random order, capped at
/// `mutations_count`, each replayed as a positional swap.  An edit whose
/// positions are not both on the board is incompatible.
pub fn cross_keys(
    parent: &Keys,
    own: &Vec<Mutation>,
    partner: &Vec<Mutation>,
    mutations_count: usize,
) -> (r: Result<(Keys, Vec<Mutation>), EngineError>)
    ensures
        (r matches Ok(out) ==> {
            &&& out.1@.len() <= mutations_count
            &&& out.1@.no_duplicates()
            &&& forall|k: int|
                0 <= k < out.1@.len() ==> own@.contains(#[trigger] out.1@[k])
                    || partner@.contains(out.1@[k])
            &&& replay_keys(parent@, out.1@) == Some(out.0@)
            &&& out.0@.len() == parent@.len()
            &&& key_positions(out.0@) == key_positions(parent@)
            &&& key_chars(out.0@).to_multiset() == key_chars(parent@).to_multiset()
        }),
        own@.len() == 0 && partner@.len() == 0 ==> r is Ok,
        (r matches Err(e) ==> e == EngineError::IncompatibleMutation),
{
    broadcast use vstd::seq_lib::group_to_multiset_ensures;

    let mut union: Vec<Mutation> = Vec::new();
    let mut i: usize = 0;
    while i < own.len()
        invariant
            0 <= i <= own@.len(),
            union@.no_duplicates(),
            forall|k: int| 0 <= k < union@.len() ==> own@.contains(#[trigger] union@[k]),
            own@.len() == 0 ==> union@.len() == 0,
        decreases own@.len() - i,
    {
        let m = read_kb_mutation(own, i);
        if !contains_kb_mutation(&union, m) {
            let ghost pre = union@;
            union.push(m);
            proof {
                assert(own@.contains(own@[i as int]));
                assert forall|a: int, b: int|
                    0 <= a < b < union@.len() implies union@[a] != union@[b] by {
                    if b == union@.len() - 1 {
                        assert(pre.contains(pre[a]) ==> !(pre[a] == m)) by {
                            assert(!pre.contains(m));
                        }
                        assert(pre.contains(pre[a]));
                    }
                }
            }
        }
        i = i + 1;
    }
    let mut i: usize = 0;
    while i < partner.len()
        invariant
            0 <= i <= partner@.len(),
            union@.no_duplicates(),
            forall|k: int|
                0 <= k < union@.len() ==> own@.contains(#[trigger] union@[k]) || partner@.contains(
                    union@[k],
                ),
            own@.len() == 0 && partner@.len() == 0 ==> union@.len() == 0,
        decreases partner@.len() - i,
    {
        let m = read_kb_mutation(partner, i);
        if !contains_kb_mutation(&union, m) {
            let ghost pre = union@;
            union.push(m);
            proof {
                assert(partner@.contains(partner@[i as int]));
                assert forall|a: int, b: int|
                    0 <= a < b < union@.len() implies union@[a] != union@[b] by {
                    if b == union@.len() - 1 {
                        assert(pre.contains(pre[a]));
                        assert(!pre.contains(m));
                    }
                }
            }
        }
        i = i + 1;
    }
    let ghost pre_shuffle = union@;
    shuffle(&mut union);
    proof {
        pre_shuffle.lemma_multiset_has_no_duplicates();
        union@.lemma_multiset_has_no_duplicates_conv();
        assert forall|k: int|
            0 <= k < union@.len() implies own@.contains(#[trigger] union@[k]) || partner@.contains(
            union@[k],
        ) by {
            assert(union@.contains(union@[k]));
            assert(union@.to_multiset().count(union@[k]) > 0);
            assert(pre_shuffle.to_multiset().count(union@[k]) > 0);
            assert(pre_shuffle.contains(union@[k]));
            let j = choose|j: int| 0 <= j < pre_shuffle.len() && pre_shuffle[j] == union@[k];
            assert(own@.contains(pre_shuffle[j]) || partner@.contains(pre_shuffle[j]));
        }
    }
    let ghost pre_truncate = union@;
    union.truncate(mutations_count);
    proof {
        if mutations_count <= pre_truncate.len() {
            assert(union@ == pre_truncate.subrange(0, mutations_count as int));
        }
        assert forall|a: int, b: int| 0 <= a < b < union@.len() implies union@[a] != union@[b] by {
            assert(union@[a] == pre_truncate[a] && union@[b] == pre_truncate[b]);
        }
        assert forall|k: int|
            0 <= k < union@.len() implies own@.contains(#[trigger] union@[k]) || partner@.contains(
            union@[k],
        ) by {
            assert(union@[k] == pre_truncate[k]);
        }
    }

    let mut keys = copy_keys(parent);
    proof {
        assert(union@.take(0) =~= Seq::<Mutation>::empty());
    }
    let mut i: usize = 0;
    while i < union.len()
        invariant
            0 <= i <= union@.len(),
            keys@.len() == parent@.len(),
            replay_keys(parent@, union@.take(i as int)) == Some(keys@),
            union@.no_duplicates(),
            union@.len() <= mutations_count,
            forall|k: int|
                0 <= k < union@.len() ==> own@.contains(#[trigger] union@[k]) || partner@.contains(
                    union@[k],
                ),
            own@.len() == 0 && partner@.len() == 0 ==> union@.len() == 0,
        decreases union@.len() - i,
    {
        let m = read_kb_mutation(&union, i);
        proof {
            assert(union@.take(i as int + 1).drop_last() =~= union@.take(i as int));
            assert(union@.take(i as int + 1).last() == union@[i as int]);
        }
        let first_index = find_index_of_position(&keys, m.first);
        let second_index = find_index_of_position(&keys, m.second);
        match (first_index, second_index) {
            (Option::Some(fi), Option::Some(si)) => {
                let ghost pre_keys = keys@;
                let first_key = read_key(&keys, fi);
                let second_key = read_key(&keys, si);
                // Replay the edit positionally: the two characters swap
                // their positions.
                set_key(&mut keys, fi, second_key.0, m.first);
                set_key(&mut keys, si, first_key.0, m.second);
                proof {
                    assert(keys@ == pre_keys.update(fi as int, (pre_keys[si as int].0, m.first))
                        .update(si as int, (pre_keys[fi as int].0, m.second)));
                    assert(replay_keys(parent@, union@.take(i as int + 1)) == Some(keys@));
                }
            },
            _ => {
                return Err(EngineError::IncompatibleMutation);
            },
        }
        i = i + 1;
    }
    proof {
        assert(union@.take(union@.len() as int) =~= union@);
        lemma_replay_keys_preserves(parent@, union@);
    }
    Ok((keys, union))
}

fn contains_kb_mutation(v: &Vec<Mutation>, m: Mutation) -> (r: bool)
    ensures
        r == v@.contains(m),
{
    let mut i: usize = 0;
    while i < v.len()
        invariant
            0 <= i <= v@.len(),
            forall|k: int| 0 <= k < i ==> v@[k] != m,
        decreases v@.len() - i,
    {
        if v[i] == m {
            return true;
        }
        i = i + 1;
    }
    false
}

/// Where does the layout first use this position?
fn find_index_of_position(keys: &Keys, p: Position) -> (r: Option<usize>)
    ensures
        (r matches Some(i) ==> i < keys@.len() && keys@[i as int].1 == p && key_position_index(
            keys@,
            p,
        ) == i as int),
        (r is None ==> !has_position(keys@, p) && key_position_index(keys@, p) == -1),
{
    let mut i: usize = 0;
    while i < keys.len()
        invariant
            0 <= i <= keys@.len(),
            forall|k: int| 0 <= k < i ==> (#[trigger] keys@[k]).1 != p,
        decreases keys@.len() - i,
    {
        let k = read_key(keys, i);
        if k.1 == p {
            proof {
                lemma_key_position_index_some(keys@, p, i as int);
            }
            return Some(i);
        }
        i = i + 1;
    }
    proof {
        lemma_key_position_index_none(keys@, p);
    }
    None
}

} // verus!
