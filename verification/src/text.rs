//! Text utilities: lexicographic ordering of character sequences, decimal
//! rendering of integers, and `String` construction from characters.

use vstd::prelude::*;
use vstd::multiset::Multiset;
use core::cmp::Ordering;

verus! {

/// Relies on std's `String::push`: appends one character to the string.
pub assume_specification[ String::push ](s: &mut String, ch: char)
    ensures
        final(s)@ == old(s)@.push(ch),
;

/// An ASCII alphanumeric character.
pub open spec fn is_ascii_alphanumeric(c: char) -> bool {
    ||| ('0' as int) <= (c as int) <= ('9' as int)
    ||| ('A' as int) <= (c as int) <= ('Z' as int)
    ||| ('a' as int) <= (c as int) <= ('z' as int)
}

/// Lexicographic comparison of two character sequences, by Unicode scalar
/// value; a proper prefix comes first.
pub open spec fn lex_cmp(a: Seq<char>, b: Seq<char>) -> Ordering
    decreases a.len() + b.len(),
{
    if a.len() == 0 && b.len() == 0 {
        Ordering::Equal
    } else if a.len() == 0 {
        Ordering::Less
    } else if b.len() == 0 {
        Ordering::Greater
    } else if (a[0] as int) < (b[0] as int) {
        Ordering::Less
    } else if (b[0] as int) < (a[0] as int) {
        Ordering::Greater
    } else {
        lex_cmp(a.drop_first(), b.drop_first())
    }
}

/// `lex_cmp` answers `Equal` exactly on equal sequences.
pub proof fn lemma_lex_cmp_eq(a: Seq<char>, b: Seq<char>)
    ensures
        lex_cmp(a, b) == Ordering::Equal <==> a == b,
    decreases a.len() + b.len(),
{
    if a.len() == 0 && b.len() == 0 {
        assert(a =~= b);
    } else if a.len() == 0 || b.len() == 0 {
        assert(a != b);
    } else if (a[0] as int) == (b[0] as int) {
        lemma_lex_cmp_eq(a.drop_first(), b.drop_first());
        if lex_cmp(a, b) == Ordering::Equal {
            assert(a[0] == b[0]);
            assert(a =~= seq![a[0]] + a.drop_first());
            assert(b =~= seq![b[0]] + b.drop_first());
        }
        if a == b {
            assert(a.drop_first() =~= b.drop_first());
        }
    } else {
        if a == b {
            assert(a[0] == b[0]);
        }
    }
}

/// `lex_cmp` is antisymmetric: swapping the arguments swaps the answer.
pub proof fn lemma_lex_cmp_flip(a: Seq<char>, b: Seq<char>)
    ensures
        lex_cmp(a, b) == Ordering::Less <==> lex_cmp(b, a) == Ordering::Greater,
    decreases a.len() + b.len(),
{
    if a.len() > 0 && b.len() > 0 && (a[0] as int) == (b[0] as int) {
        lemma_lex_cmp_flip(a.drop_first(), b.drop_first());
    }
}

/// `lex_cmp` is transitive in `Less`.
pub proof fn lemma_lex_cmp_trans(a: Seq<char>, b: Seq<char>, c: Seq<char>)
    requires
        lex_cmp(a, b) == Ordering::Less,
        lex_cmp(b, c) == Ordering::Less,
    ensures
        lex_cmp(a, c) == Ordering::Less,
    decreases a.len() + b.len() + c.len(),
{
    if a.len() == 0 {
        if c.len() == 0 {
            lemma_lex_cmp_eq(b, c);
            assert(b.len() == 0);
        }
    } else {
        if a.len() > 0 && b.len() > 0 && c.len() > 0 {
            if (a[0] as int) == (b[0] as int) && (b[0] as int) == (c[0] as int) {
                lemma_lex_cmp_trans(a.drop_first(), b.drop_first(), c.drop_first());
            }
        }
    }
}

/// Compare two character vectors lexicographically.
pub fn chars_cmp(a: &Vec<char>, b: &Vec<char>) -> (r: Ordering)
    ensures
        r == lex_cmp(a@, b@),
{
    let mut i: usize = 0;
    let a_len = a.len();
    let b_len = b.len();
    proof {
        assert(a@.skip(0) =~= a@);
        assert(b@.skip(0) =~= b@);
    }
    loop
        invariant
            0 <= i <= a_len,
            0 <= i <= b_len,
            a_len == a@.len(),
            b_len == b@.len(),
            lex_cmp(a@, b@) == lex_cmp(a@.skip(i as int), b@.skip(i as int)),
        decreases a_len - i,
    {
        if i == a_len && i == b_len {
            proof {
                assert(a@.skip(i as int).len() == 0);
                assert(b@.skip(i as int).len() == 0);
            }
            return Ordering::Equal;
        }
        if i == a_len {
            proof {
                assert(a@.skip(i as int).len() == 0);
                assert(b@.skip(i as int).len() > 0);
            }
            return Ordering::Less;
        }
        if i == b_len {
            proof {
                assert(b@.skip(i as int).len() == 0);
                assert(a@.skip(i as int).len() > 0);
            }
            return Ordering::Greater;
        }
        let ca = a[i];
        let cb = b[i];
        proof {
            assert(a@.skip(i as int)[0] == a@[i as int]);
            assert(b@.skip(i as int)[0] == b@[i as int]);
        }
        if ca < cb {
            return Ordering::Less;
        }
        if cb < ca {
            return Ordering::Greater;
        }
        proof {
            assert(a@.skip(i as int).drop_first() =~= a@.skip(i as int + 1));
            assert(b@.skip(i as int).drop_first() =~= b@.skip(i as int + 1));
        }
        i = i + 1;
    }
}

/// The decimal digit character for a value below ten.
pub open spec fn digit_char(d: nat) -> char {
    if d == 0 {
        '0'
    } else if d == 1 {
        '1'
    } else if d == 2 {
        '2'
    } else if d == 3 {
        '3'
    } else if d == 4 {
        '4'
    } else if d == 5 {
        '5'
    } else if d == 6 {
        '6'
    } else if d == 7 {
        '7'
    } else if d == 8 {
        '8'
    } else {
        '9'
    }
}

/// The decimal rendering of a natural number, most significant digit first.
pub open spec fn dec_digits(n: nat) -> Seq<char>
    decreases n,
{
    if n < 10 {
        seq![digit_char(n)]
    } else {
        dec_digits(n / 10).push(digit_char(n % 10))
    }
}

/// The decimal rendering of an integer, with a leading minus sign when
/// negative.
pub open spec fn dec_int(i: int) -> Seq<char> {
    if i < 0 {
        seq!['-'] + dec_digits((-i) as nat)
    } else {
        dec_digits(i as nat)
    }
}

fn exec_digit_char(d: u64) -> (c: char)
    requires
        d < 10,
    ensures
        c == digit_char(d as nat),
{
    if d == 0 {
        '0'
    } else if d == 1 {
        '1'
    } else if d == 2 {
        '2'
    } else if d == 3 {
        '3'
    } else if d == 4 {
        '4'
    } else if d == 5 {
        '5'
    } else if d == 6 {
        '6'
    } else if d == 7 {
        '7'
    } else if d == 8 {
        '8'
    } else {
        '9'
    }
}

/// The decimal digits of `n`, most significant first.
pub fn u64_digits(n: u64) -> (r: Vec<char>)
    ensures
        r@ == dec_digits(n as nat),
    decreases n,
{
    if n < 10 {
        let mut v: Vec<char> = Vec::new();
        v.push(exec_digit_char(n));
        proof {
            assert(v@ =~= dec_digits(n as nat));
        }
        v
    } else {
        let mut v = u64_digits(n / 10);
        v.push(exec_digit_char(n % 10));
        v
    }
}

/// The decimal digits of `x`, with a leading minus sign when negative.
pub fn i64_digits(x: i64) -> (r: Vec<char>)
    ensures
        r@ == dec_int(x as int),
{
    if x >= 0 {
        u64_digits(x as u64)
    } else {
        let magnitude: u64 = (-(x + 1)) as u64 + 1;
        proof {
            assert(magnitude as int == -(x as int));
        }
        let mut v: Vec<char> = Vec::new();
        v.push('-');
        let mut digits = u64_digits(magnitude);
        v.append(&mut digits);
        proof {
            assert(v@ =~= dec_int(x as int));
        }
        v
    }
}

/// Build a `String` holding exactly the given characters.
pub fn chars_to_string(v: &Vec<char>) -> (r: String)
    ensures
        r@ == v@,
{
    let mut s = String::new();
    let mut i: usize = 0;
    while i < v.len()
        invariant
            0 <= i <= v@.len(),
            s@ == v@.subrange(0, i as int),
        decreases v@.len() - i,
    {
        s.push(v[i]);
        proof {
            assert(s@ =~= v@.subrange(0, i as int + 1));
        }
        i = i + 1;
    }
    proof {
        assert(v@.subrange(0, v@.len() as int) =~= v@);
    }
    s
}

/// Read one character of the vector.
pub fn read_char(v: &Vec<char>, i: usize) -> (c: char)
    requires
        i < v@.len(),
    ensures
        c == v@[i as int],
{
    v[i]
}

/// Are two character vectors equal?
pub fn chars_eq(a: &Vec<char>, b: &Vec<char>) -> (r: bool)
    ensures
        r == (a@ == b@),
{
    if a.len() != b.len() {
        return false;
    }
    let mut i: usize = 0;
    while i < a.len()
        invariant
            0 <= i <= a@.len(),
            a@.len() == b@.len(),
            forall|k: int| 0 <= k < i ==> a@[k] == b@[k],
        decreases a@.len() - i,
    {
        if a[i] != b[i] {
            return false;
        }
        i = i + 1;
    }
    proof {
        assert(a@ =~= b@);
    }
    true
}

/// A fresh vector holding the same characters.
pub fn copy_chars(v: &Vec<char>) -> (r: Vec<char>)
    ensures
        r@ == v@,
{
    let mut out: Vec<char> = Vec::new();
    let mut i: usize = 0;
    while i < v.len()
        invariant
            0 <= i <= v@.len(),
            out@ == v@.subrange(0, i as int),
        decreases v@.len() - i,
    {
        out.push(v[i]);
        proof {
            assert(out@ =~= v@.subrange(0, i as int + 1));
        }
        i = i + 1;
    }
    proof {
        assert(v@.subrange(0, v@.len() as int) =~= v@);
    }
    out
}

/// Does the vector hold the character?
pub fn contains_char(v: &Vec<char>, c: char) -> (r: bool)
    ensures
        r == v@.contains(c),
{
    let mut i: usize = 0;
    while i < v.len()
        invariant
            0 <= i <= v@.len(),
            forall|k: int| 0 <= k < i ==> v@[k] != c,
        decreases v@.len() - i,
    {
        if v[i] == c {
            return true;
        }
        i = i + 1;
    }
    false
}

/// Ascending order of characters by scalar value.
pub open spec fn chars_sorted(s: Seq<char>) -> bool {
    forall|i: int, j: int| 0 <= i < j < s.len() ==> (#[trigger] s[i] as int) <= (#[trigger] s[j] as int)
}

/// Sort characters ascending; the result is a rearrangement of the input.
pub fn sort_chars(v: Vec<char>) -> (r: Vec<char>)
    ensures
        r@.to_multiset() == v@.to_multiset(),
        r@.len() == v@.len(),
        chars_sorted(r@),
{
    broadcast use vstd::seq_lib::group_to_multiset_ensures;
    broadcast use vstd::multiset::group_multiset_axioms;

    let mut input = v;
    let mut out: Vec<char> = Vec::new();
    proof {
        assert(out@.to_multiset().add(input@.to_multiset()) =~= v@.to_multiset());
    }
    while input.len() > 0
        invariant
            out@.to_multiset().add(input@.to_multiset()) == v@.to_multiset(),
            out@.len() + input@.len() == v@.len(),
            chars_sorted(out@),
        decreases input@.len(),
    {
        let ghost pre_input = input@;
        let ghost pre_out = out@;
        let x = input.remove(0);
        let mut idx: usize = 0;
        while idx < out.len()
            invariant
                idx <= out@.len(),
                forall|k: int| 0 <= k < idx ==> (#[trigger] out@[k] as int) <= x as int,
            ensures
                idx <= out@.len(),
                forall|k: int| 0 <= k < idx ==> (#[trigger] out@[k] as int) <= x as int,
                idx < out@.len() ==> (x as int) < (out@[idx as int] as int),
            decreases out@.len() - idx,
        {
            if !(out[idx] <= x) {
                break;
            }
            idx = idx + 1;
        }
        proof {
            assert forall|k: int| idx <= k < pre_out.len() implies x as int <= (#[trigger] pre_out[k] as int) by {
                assert(chars_sorted(pre_out));
                assert((pre_out[idx as int] as int) <= (pre_out[k] as int));
            }
        }
        out.insert(idx, x);
        proof {
            pre_out.insert_ensures(idx as int, x);
            assert forall|i: int, j: int|
                0 <= i < j < out@.len() implies (#[trigger] out@[i] as int) <= (#[trigger] out@[j] as int) by {
                if j < idx {
                    assert(out@[i] == pre_out[i] && out@[j] == pre_out[j]);
                } else if j == idx {
                    assert(out@[j] == x);
                    assert(out@[i] == pre_out[i]);
                } else {
                    assert(out@[j] == pre_out[j - 1]);
                    if i < idx {
                        assert(out@[i] == pre_out[i]);
                    } else if i == idx {
                        assert(out@[i] == x);
                    } else {
                        assert(out@[i] == pre_out[i - 1]);
                    }
                }
            }
            assert(out@ == pre_out.insert(idx as int, x));
            assert(input@ == pre_input.remove(0));
            vstd::seq_lib::to_multiset_insert::<char>(pre_out, idx as int, x);
            vstd::seq_lib::to_multiset_remove::<char>(pre_input, 0);
            assert(pre_input[0] == x);
            assert(pre_input.contains(x));
            pre_input.to_multiset_ensures();
            assert(pre_input.to_multiset().count(x) > 0);
            assert forall|e: char|
                out@.to_multiset().add(input@.to_multiset()).count(e) == v@.to_multiset().count(
                e,
            ) by {
                assert(pre_out.to_multiset().add(pre_input.to_multiset()).count(e)
                    == v@.to_multiset().count(e));
                assert(out@.to_multiset().count(e) == pre_out.to_multiset().insert(x).count(e));
                assert(input@.to_multiset().count(e) == pre_input.to_multiset().remove(x).count(
                    e,
                ));
            }
            assert(out@.to_multiset().add(input@.to_multiset()) =~= v@.to_multiset());
        }
    }
    proof {
        assert(input@.to_multiset() =~= Multiset::<char>::empty());
        assert(out@.to_multiset() =~= v@.to_multiset());
    }
    out
}

} // verus!
