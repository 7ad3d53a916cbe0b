//! Search keys: the lowercase, space-free form of a color name, and the
//! lexicographic order that palettes are sorted by.

use vstd::prelude::*;
use core::cmp::Ordering;

verus! {

/// What `str::to_lowercase` returns for the given characters.
pub uninterp spec fn lower_of(s: Seq<char>) -> Seq<char>;

/// Relies on `str::to_lowercase`: its result depends on the characters alone.
#[verifier::external_body]
fn lowercase_chars(s: &String) -> (r: Vec<char>)
    ensures
        r@ == lower_of(s@),
{
    s.to_lowercase().chars().collect()
}

/// The characters of `s` other than the space, in order.
pub open spec fn strip_spaces(s: Seq<char>) -> Seq<char> {
    s.filter(|c: char| c != ' ')
}

/// The search key of a name: lowercased, then every space removed.
pub open spec fn search_key_of(name: Seq<char>) -> Seq<char> {
    strip_spaces(lower_of(name))
}

/// Computes the search key of a name.
pub fn search_key(name: &String) -> (r: Vec<char>)
    ensures
        r@ == search_key_of(name@),
{
    let lower = lowercase_chars(name);
    let mut out: Vec<char> = Vec::new();
    let mut i: usize = 0;
    while i < lower.len()
        invariant
            i <= lower@.len(),
            out@ == strip_spaces(lower@.subrange(0, i as int)),
        decreases lower@.len() - i,
    {
        let c = lower[i];
        proof {
            let s = lower@.subrange(0, i as int + 1);
            assert(s.drop_last() == lower@.subrange(0, i as int));
            assert(s.last() == c);
            reveal(Seq::filter);
        }
        if c != ' ' {
            out.push(c);
        }
        i += 1;
    }
    assert(lower@.subrange(0, lower@.len() as int) == lower@);
    out
}

/// Spaces anywhere in a text leave its stripped form unchanged.
pub proof fn lemma_strip_spaces_drops_space(front: Seq<char>, back: Seq<char>)
    ensures
        strip_spaces(front + seq![' '] + back) == strip_spaces(front + back),
{
    let p = |c: char| c != ' ';
    Seq::filter_distributes_over_add(front + seq![' '], back, p);
    Seq::filter_distributes_over_add(front, seq![' '], p);
    Seq::filter_distributes_over_add(front, back, p);
    reveal_with_fuel(Seq::filter, 2);
    assert(seq![' '].drop_last() =~= Seq::<char>::empty());
    assert(seq![' '].filter(p) =~= Seq::<char>::empty());
    assert(front.filter(p) + Seq::<char>::empty() =~= front.filter(p));
}

/// Strict lexicographic order on keys, by character code.
pub open spec fn key_lt(a: Seq<char>, b: Seq<char>) -> bool
    decreases a.len(),
{
    if a.len() == 0 {
        b.len() > 0
    } else if b.len() == 0 {
        false
    } else if a[0] != b[0] {
        a[0] < b[0]
    } else {
        key_lt(a.drop_first(), b.drop_first())
    }
}

/// No key comes before itself.
pub proof fn lemma_key_lt_irreflexive(a: Seq<char>)
    ensures
        !key_lt(a, a),
    decreases a.len(),
{
    if a.len() > 0 {
        lemma_key_lt_irreflexive(a.drop_first());
    }
}

/// The key order is transitive.
pub proof fn lemma_key_lt_transitive(a: Seq<char>, b: Seq<char>, c: Seq<char>)
    requires
        key_lt(a, b),
        key_lt(b, c),
    ensures
        key_lt(a, c),
    decreases a.len(),
{
    if a.len() > 0 && a[0] == b[0] && b[0] == c[0] {
        lemma_key_lt_transitive(a.drop_first(), b.drop_first(), c.drop_first());
    }
}

proof fn lemma_key_lt_skip(a: Seq<char>, b: Seq<char>, i: int)
    requires
        0 <= i < a.len(),
        i < b.len(),
        a[i] == b[i],
    ensures
        key_lt(a.skip(i), b.skip(i)) == key_lt(a.skip(i + 1), b.skip(i + 1)),
{
    assert(a.skip(i).drop_first() =~= a.skip(i + 1));
    assert(b.skip(i).drop_first() =~= b.skip(i + 1));
}

/// Compares two keys in the key order.
pub fn key_cmp(a: &Vec<char>, b: &Vec<char>) -> (r: Ordering)
    ensures
        (r == Ordering::Less) == key_lt(a@, b@),
        (r == Ordering::Equal) == (a@ == b@),
        (r == Ordering::Greater) == key_lt(b@, a@),
{
    let mut i: usize = 0;
    assert(a@.skip(0) =~= a@);
    assert(b@.skip(0) =~= b@);
    loop
        invariant
            i <= a@.len(),
            i <= b@.len(),
            a@.subrange(0, i as int) == b@.subrange(0, i as int),
            key_lt(a@, b@) == key_lt(a@.skip(i as int), b@.skip(i as int)),
            key_lt(b@, a@) == key_lt(b@.skip(i as int), a@.skip(i as int)),
        decreases a@.len() - i,
    {
        if i == a.len() {
            if i == b.len() {
                assert(a@ =~= a@.subrange(0, i as int));
                assert(b@ =~= b@.subrange(0, i as int));
                return Ordering::Equal;
            } else {
                return Ordering::Less;
            }
        }
        if i == b.len() {
            return Ordering::Greater;
        }
        let x = a[i];
        let y = b[i];
        assert(a@.skip(i as int)[0] == x);
        assert(b@.skip(i as int)[0] == y);
        if x < y {
            return Ordering::Less;
        }
        if y < x {
            return Ordering::Greater;
        }
        proof {
            lemma_key_lt_skip(a@, b@, i as int);
            lemma_key_lt_skip(b@, a@, i as int);
            assert(a@.subrange(0, i as int + 1) =~= a@.subrange(0, i as int).push(x));
            assert(b@.subrange(0, i as int + 1) =~= b@.subrange(0, i as int).push(y));
        }
        i += 1;
    }
}

} // verus!
