//! Palettes: collections of shared colors, sorted by search key with no key
//! twice, with lookup by name and uniform random sampling.

use vstd::prelude::*;
use std::rc::Rc;
use core::cmp::Ordering;
use rand::seq::IndexedRandom;
use crate::color::{Color, RawColor, raw_in_range};
use crate::key::{
    lower_of, strip_spaces, key_lt, key_cmp, search_key, search_key_of, lemma_key_lt_irreflexive, lemma_key_lt_transitive,
};

verus! {

/// The search key of the `i`-th color of `s`.
pub open spec fn key_at(s: Seq<Rc<Color>>, i: int) -> Seq<char> {
    s[i].search_name@
}

/// Keys strictly increase along `s`, so no key occurs twice.
pub open spec fn strictly_sorted(s: Seq<Rc<Color>>) -> bool {
    forall|i: int, j: int| 0 <= i < j < s.len() ==> key_lt(#[trigger] key_at(s, i), #[trigger] key_at(s, j))
}

/// Some color of `s` has key `k`.
pub open spec fn has_key(s: Seq<Rc<Color>>, k: Seq<char>) -> bool {
    exists|i: int| 0 <= i < s.len() && key_at(s, i) == k
}

/// The color of `s` whose key is `k`, if there is one.
pub open spec fn lookup_in(s: Seq<Rc<Color>>, k: Seq<char>) -> Option<Rc<Color>> {
    if has_key(s, k) {
        Some(s[choose|i: int| 0 <= i < s.len() && key_at(s, i) == k])
    } else {
        None
    }
}

/// The first color of `s` with key `k`, found by walking `s` from the front.
pub open spec fn scan(s: Seq<Rc<Color>>, k: Seq<char>) -> Option<Rc<Color>>
    decreases s.len(),
{
    if s.len() == 0 {
        None
    } else if key_at(s, 0) == k {
        Some(s[0])
    } else {
        scan(s.drop_first(), k)
    }
}

/// In a strictly sorted sequence the color with a given key is at the one
/// index that holds that key.
pub proof fn lemma_lookup_at(s: Seq<Rc<Color>>, k: Seq<char>, i: int)
    requires
        strictly_sorted(s),
        0 <= i < s.len(),
        key_at(s, i) == k,
    ensures
        lookup_in(s, k) == Some(s[i]),
{
    let j = choose|j: int| 0 <= j < s.len() && key_at(s, j) == k;
    if j < i {
        lemma_key_lt_irreflexive(k);
        assert(key_lt(key_at(s, j), key_at(s, i)));
    } else if i < j {
        lemma_key_lt_irreflexive(k);
        assert(key_lt(key_at(s, i), key_at(s, j)));
    }
}

/// Over a strictly sorted sequence, lookup by key finds what a linear scan
/// from the front finds, for keys present and absent alike.
pub proof fn lemma_lookup_matches_scan(s: Seq<Rc<Color>>, k: Seq<char>)
    requires
        strictly_sorted(s),
    ensures
        lookup_in(s, k) == scan(s, k),
    decreases s.len(),
{
    if s.len() > 0 {
        if key_at(s, 0) == k {
            lemma_lookup_at(s, k, 0);
        } else {
            let t = s.drop_first();
            assert forall|i: int, j: int| 0 <= i < j < t.len() implies key_lt(
                #[trigger] key_at(t, i),
                #[trigger] key_at(t, j),
            ) by {
                assert(key_at(t, i) == key_at(s, i + 1));
                assert(key_at(t, j) == key_at(s, j + 1));
            }
            lemma_lookup_matches_scan(t, k);
            if has_key(t, k) {
                let i = choose|i: int| 0 <= i < t.len() && key_at(t, i) == k;
                assert(key_at(s, i + 1) == k);
                lemma_lookup_at(t, k, i);
                lemma_lookup_at(s, k, i + 1);
            } else {
                assert forall|i: int| 0 <= i < s.len() implies key_at(s, i) != k by {
                    if i > 0 {
                        assert(key_at(s, i) == key_at(t, i - 1));
                    }
                }
            }
        }
    }
}

/// Lookup sees a name only through its lowercase form with the spaces
/// removed: two names whose lowercase forms agree once spaces are dropped
/// find the same color.
pub proof fn lemma_lookup_ignores_case_and_spaces(s: Seq<Rc<Color>>, n1: Seq<char>, n2: Seq<char>)
    requires
        strip_spaces(lower_of(n1)) == strip_spaces(lower_of(n2)),
    ensures
        lookup_in(s, search_key_of(n1)) == lookup_in(s, search_key_of(n2)),
{
}

/// Where a key stands in a strictly sorted vector: `Ok` with its index, or
/// `Err` with the position that keeps the order if it were inserted there.
pub fn find_sorted(v: &Vec<Rc<Color>>, k: &Vec<char>) -> (r: Result<usize, usize>)
    requires
        strictly_sorted(v@),
    ensures
        r matches Ok(i) ==> i < v@.len() && key_at(v@, i as int) == k@,
        r matches Err(p) ==> {
            &&& p <= v@.len()
            &&& forall|j: int| 0 <= j < p ==> key_lt(#[trigger] key_at(v@, j), k@)
            &&& forall|j: int| p <= j < v@.len() ==> key_lt(k@, #[trigger] key_at(v@, j))
        },
{
    let mut lo: usize = 0;
    let mut hi: usize = v.len();
    while lo < hi
        invariant
            lo <= hi <= v@.len(),
            strictly_sorted(v@),
            forall|j: int| 0 <= j < lo ==> key_lt(#[trigger] key_at(v@, j), k@),
            forall|j: int| hi <= j < v@.len() ==> key_lt(k@, #[trigger] key_at(v@, j)),
        decreases hi - lo,
    {
        let mid = lo + (hi - lo) / 2;
        match key_cmp(&v[mid].search_name, k) {
            Ordering::Less => {
                assert forall|j: int| 0 <= j < mid + 1 implies key_lt(#[trigger] key_at(v@, j), k@) by {
                    if j < mid {
                        lemma_key_lt_transitive(key_at(v@, j), key_at(v@, mid as int), k@);
                    }
                }
                lo = mid + 1;
            },
            Ordering::Equal => {
                return Ok(mid);
            },
            Ordering::Greater => {
                assert forall|j: int| mid <= j < v@.len() implies key_lt(k@, #[trigger] key_at(v@, j)) by {
                    if j > mid {
                        lemma_key_lt_transitive(k@, key_at(v@, mid as int), key_at(v@, j));
                    }
                }
                hi = mid;
            },
        }
    }
    Err(lo)
}

/// Inserting a color at the position that `find_sorted` reports for its
/// key keeps the sequence strictly sorted, and keeps every key it had.
proof fn lemma_insert_sorted(s: Seq<Rc<Color>>, p: int, c: Rc<Color>)
    requires
        strictly_sorted(s),
        0 <= p <= s.len(),
        forall|j: int| 0 <= j < p ==> key_lt(#[trigger] key_at(s, j), c.search_name@),
        forall|j: int| p <= j < s.len() ==> key_lt(c.search_name@, #[trigger] key_at(s, j)),
    ensures
        strictly_sorted(s.insert(p, c)),
        forall|k: Seq<char>| has_key(s, k) ==> #[trigger] has_key(s.insert(p, c), k),
        has_key(s.insert(p, c), c.search_name@),
{
    let t = s.insert(p, c);
    assert forall|i: int, j: int| 0 <= i < j < t.len() implies key_lt(
        #[trigger] key_at(t, i),
        #[trigger] key_at(t, j),
    ) by {
        let ki = if i < p { key_at(s, i) } else if i == p { c.search_name@ } else { key_at(s, i - 1) };
        let kj = if j < p { key_at(s, j) } else if j == p { c.search_name@ } else { key_at(s, j - 1) };
        assert(key_at(t, i) == ki);
        assert(key_at(t, j) == kj);
        if i < p && j > p {
            lemma_key_lt_transitive(key_at(s, i), c.search_name@, key_at(s, j - 1));
        } else if i < p && j < p {
            assert(key_lt(key_at(s, i), key_at(s, j)));
        } else if i > p {
            assert(key_lt(key_at(s, i - 1), key_at(s, j - 1)));
        }
    }
    assert forall|k: Seq<char>| has_key(s, k) implies #[trigger] has_key(t, k) by {
        let i = choose|i: int| 0 <= i < s.len() && key_at(s, i) == k;
        if i < p {
            assert(key_at(t, i) == k);
        } else {
            assert(key_at(t, i + 1) == k);
        }
    }
    assert(key_at(t, p) == c.search_name@);
}

/// A key that `find_sorted` places between two neighbours is held by no color.
proof fn lemma_absent(s: Seq<Rc<Color>>, p: int, k: Seq<char>)
    requires
        0 <= p <= s.len(),
        forall|j: int| 0 <= j < p ==> key_lt(#[trigger] key_at(s, j), k),
        forall|j: int| p <= j < s.len() ==> key_lt(k, #[trigger] key_at(s, j)),
    ensures
        !has_key(s, k),
{
    lemma_key_lt_irreflexive(k);
}

/// Relies on rand's `IndexedRandom::choose` with the thread-local generator
/// from `rand::rng`: `None` for an empty slice, otherwise one of its elements.
#[verifier::external_body]
fn choose_color(colors: &Vec<Rc<Color>>) -> (r: Option<Rc<Color>>)
    ensures
        r is None <==> colors@.len() == 0,
        r matches Some(c) ==> colors@.contains(c),
{
    colors.choose(&mut rand::rng()).cloned()
}

/// `c` is built from a record of `raws`, and no earlier record has its key.
pub open spec fn first_built(c: Color, raws: Seq<RawColor>) -> bool {
    exists|j: int|
        0 <= j < raws.len() && #[trigger] c.built_from(raws[j]) && forall|m: int|
            0 <= m < j ==> search_key_of(#[trigger] raws[m].name@) != c.search_name@
}

/// `k` is the search key of one of `names`.
pub open spec fn key_named(k: Seq<char>, names: Seq<String>) -> bool {
    exists|n: int| 0 <= n < names.len() && search_key_of(#[trigger] names[n]@) == k
}

/// A sorted collection of shared colors, no two with the same search key.
#[derive(Debug, Default)]
pub struct Palette {
    colors: Vec<Rc<Color>>,
}

impl View for Palette {
    type V = Seq<Rc<Color>>;

    /// The palette's colors, in key order.
    closed spec fn view(&self) -> Seq<Rc<Color>> {
        self.colors@
    }
}

impl Palette {
    /// Keys strictly increase along the palette.
    pub open spec fn wf(&self) -> bool {
        strictly_sorted(self@)
    }

    /// The palette holds the colors that `raws` describe: each comes from the
    /// first record with its key, and every record's key is present.
    pub open spec fn loaded_from(&self, raws: Seq<RawColor>) -> bool {
        &&& forall|i: int| 0 <= i < self@.len() ==> first_built(*#[trigger] self@[i], raws)
        &&& forall|j: int| 0 <= j < raws.len() ==> has_key(self@, #[trigger] search_key_of(raws[j].name@))
    }

    /// The palette holds exactly those colors of `parent`, the very same
    /// values, whose keys are the search keys of some of `names`.
    pub open spec fn derived_from(&self, parent: Palette, names: Seq<String>) -> bool {
        &&& forall|i: int| 0 <= i < self@.len() ==> parent@.contains(#[trigger] self@[i])
        &&& forall|i: int| 0 <= i < self@.len() ==> key_named(#[trigger] key_at(self@, i), names)
        &&& forall|n: int| 0 <= n < names.len() && has_key(parent@, #[trigger] search_key_of(names[n]@))
            ==> has_key(self@, search_key_of(names[n]@))
    }

    /// Builds a palette from a color source's records, sorted by search key;
    /// of records that share a key the first is kept. `None` when a record's
    /// contrast tag is neither `"white"` nor `"black"`.
    pub fn load(raws: &Vec<RawColor>) -> (r: Option<Palette>)
        requires
            forall|j: int| 0 <= j < raws@.len() ==> raw_in_range(#[trigger] raws@[j]),
        ensures
            r is Some <==> forall|j: int| 0 <= j < raws@.len() ==> (#[trigger] raws@[j]).is_valid(),
            r matches Some(p) ==> p.wf() && p.loaded_from(raws@),
    {
        let mut colors: Vec<Rc<Color>> = Vec::new();
        let mut i: usize = 0;
        while i < raws.len()
            invariant
                i <= raws@.len(),
                forall|j: int| 0 <= j < raws@.len() ==> raw_in_range(#[trigger] raws@[j]),
                forall|j: int| 0 <= j < i ==> (#[trigger] raws@[j]).is_valid(),
                strictly_sorted(colors@),
                forall|a: int| 0 <= a < colors@.len() ==> first_built(*#[trigger] colors@[a], raws@),
                forall|j: int| 0 <= j < i ==> has_key(colors@, #[trigger] search_key_of(raws@[j].name@)),
            decreases raws@.len() - i,
        {
            let built = raws[i].color();
            let c = match built {
                Some(c) => c,
                None => {
                    return None;
                },
            };
            match find_sorted(&colors, &c.search_name) {
                Ok(_) => {},
                Err(p) => {
                    let ghost old_colors = colors@;
                    proof {
                        lemma_absent(old_colors, p as int, c.search_name@);
                        assert forall|m: int| 0 <= m < i implies search_key_of(#[trigger] raws@[m].name@)
                            != c.search_name@ by {
                            assert(has_key(old_colors, search_key_of(raws@[m].name@)));
                        }
                        assert(first_built(c, raws@));
                    }
                    let rc = Rc::new(c);
                    proof {
                        lemma_insert_sorted(old_colors, p as int, rc);
                    }
                    colors.insert(p, rc);
                    proof {
                        assert forall|a: int| 0 <= a < colors@.len() implies first_built(
                            *#[trigger] colors@[a],
                            raws@,
                        ) by {
                            if a > p {
                                assert(colors@[a] == old_colors[a - 1]);
                            } else if a < p {
                                assert(colors@[a] == old_colors[a]);
                            }
                        }
                    }
                },
            }
            i += 1;
        }
        Some(Palette { colors })
    }
}

impl Palette {
    /// The palette's colors, in key order.
    pub fn colors(&self) -> (r: &Vec<Rc<Color>>)
        ensures
            r@ == self@,
    {
        &self.colors
    }

    /// How many colors the palette holds.
    pub fn len(&self) -> (r: usize)
        ensures
            r == self@.len(),
    {
        self.colors.len()
    }

    /// The color whose search key is that of `name` (so case and spaces do
    /// not matter), found by binary search; `None` when there is none.
    pub fn match_name(&self, name: &String) -> (r: Option<Rc<Color>>)
        requires
            self.wf(),
        ensures
            r == lookup_in(self@, search_key_of(name@)),
    {
        let k = search_key(name);
        match find_sorted(&self.colors, &k) {
            Ok(i) => {
                proof {
                    lemma_lookup_at(self@, k@, i as int);
                }
                Some(Rc::clone(&self.colors[i]))
            },
            Err(p) => {
                proof {
                    lemma_absent(self@, p as int, k@);
                }
                None
            },
        }
    }

    /// One of the palette's colors, drawn at random.
    pub fn random(&self) -> (r: Rc<Color>)
        requires
            self@.len() > 0,
        ensures
            self@.contains(r),
    {
        match choose_color(&self.colors) {
            Some(c) => c,
            None => Rc::clone(&self.colors[0]),
        }
    }

    /// Derives a palette from this one: the colors, shared with this palette,
    /// whose keys are those of some of `names`. Names with no color here are
    /// dropped, and each color is kept once.
    pub fn load_child(&self, names: &Vec<String>) -> (r: Palette)
        requires
            self.wf(),
        ensures
            r.wf(),
            r.derived_from(*self, names@),
    {
        let mut colors: Vec<Rc<Color>> = Vec::new();
        let mut n: usize = 0;
        while n < names.len()
            invariant
                n <= names@.len(),
                self.wf(),
                strictly_sorted(colors@),
                forall|i: int| 0 <= i < colors@.len() ==> self@.contains(#[trigger] colors@[i]),
                forall|i: int| 0 <= i < colors@.len() ==> key_named(#[trigger] key_at(colors@, i), names@),
                forall|m: int|
                    0 <= m < n && has_key(self@, #[trigger] search_key_of(names@[m]@)) ==> has_key(
                        colors@,
                        search_key_of(names@[m]@),
                    ),
            decreases names@.len() - n,
        {
            let ghost k = search_key_of(names@[n as int]@);
            if let Some(c) = self.match_name(&names[n]) {
                proof {
                    let i = choose|i: int| 0 <= i < self@.len() && key_at(self@, i) == k;
                    assert(c == self@[i]);
                    assert(c.search_name@ == k);
                    assert(key_named(k, names@));
                    assert(self@.contains(c));
                }
                match find_sorted(&colors, &c.search_name) {
                    Ok(_) => {},
                    Err(p) => {
                        let ghost old_colors = colors@;
                        proof {
                            lemma_insert_sorted(old_colors, p as int, c);
                        }
                        colors.insert(p, c);
                        proof {
                            assert forall|i: int| 0 <= i < colors@.len() implies self@.contains(
                                #[trigger] colors@[i],
                            ) && key_named(key_at(colors@, i), names@) by {
                                if i > p {
                                    assert(colors@[i] == old_colors[i - 1]);
                                    assert(key_named(key_at(old_colors, i - 1), names@));
                                } else if i < p {
                                    assert(colors@[i] == old_colors[i]);
                                    assert(key_named(key_at(old_colors, i), names@));
                                } else {
                                    assert(colors@[i] == c);
                                }
                            }
                        }
                    },
                }
            }
            n += 1;
        }
        Palette { colors }
    }
}

/// Some color of `parent` has the key and the very OKLab coordinates of `c`.
pub open spec fn held_identically(c: Rc<Color>, parent: Seq<Rc<Color>>) -> bool {
    exists|j: int|
        0 <= j < parent.len() && #[trigger] parent[j] == c && parent[j].search_name@
            == c.search_name@ && parent[j].l == c.l && parent[j].a == c.a && parent[j].b == c.b
}

/// A derived palette never strays from its parent: each of its colors is
/// one of the parent's, with the same search key and bit-identical OKLab
/// coordinates.
pub proof fn lemma_derived_matches_parent(child: Palette, parent: Palette, names: Seq<String>)
    requires
        child.derived_from(parent, names),
    ensures
        forall|i: int| 0 <= i < child@.len() ==> held_identically(#[trigger] child@[i], parent@),
{
    assert forall|i: int| 0 <= i < child@.len() implies held_identically(#[trigger] child@[i], parent@) by {
        assert(parent@.contains(child@[i]));
    }
}

/// The bundle of palettes a game draws on: the full reference palette and
/// three curated palettes derived from it.
#[derive(Debug, Default)]
pub struct Palettes {
    pub all: Palette,
    pub basic: Palette,
    pub advanced: Palette,
    pub wikipedia: Palette,
}

impl Palettes {
    /// Builds the full palette from `all`, then derives the other three from
    /// it by the given name lists. `None`, and no palette at all, when the
    /// full palette cannot be built.
    pub fn new(
        all: &Vec<RawColor>,
        basic: &Vec<String>,
        advanced: &Vec<String>,
        wikipedia: &Vec<String>,
    ) -> (r: Option<Palettes>)
        requires
            forall|j: int| 0 <= j < all@.len() ==> raw_in_range(#[trigger] all@[j]),
        ensures
            r is Some <==> forall|j: int| 0 <= j < all@.len() ==> (#[trigger] all@[j]).is_valid(),
            r matches Some(ps) ==> {
                &&& ps.all.wf() && ps.all.loaded_from(all@)
                &&& ps.basic.wf() && ps.basic.derived_from(ps.all, basic@)
                &&& ps.advanced.wf() && ps.advanced.derived_from(ps.all, advanced@)
                &&& ps.wikipedia.wf() && ps.wikipedia.derived_from(ps.all, wikipedia@)
            },
    {
        let all = match Palette::load(all) {
            Some(p) => p,
            None => {
                return None;
            },
        };
        let basic = all.load_child(basic);
        let advanced = all.load_child(advanced);
        let wikipedia = all.load_child(wikipedia);
        Some(Palettes { all, basic, advanced, wikipedia })
    }
}

} // verus!
