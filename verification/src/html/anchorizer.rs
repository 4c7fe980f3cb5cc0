//! Anchors for headings: canonical, unique, human-readable ids.

use unicode_categories::UnicodeCategories;
use vstd::prelude::*;
use vstd::relations::injective_on;
use vstd::set_lib::*;

use crate::text::{decimal, lemma_decimal_injective, lemma_decimal_len, push_char, push_decimal};

verus! {

/// Whether a character is a Unicode letter (general category L), as the
/// tables of `unicode_categories` have it.
pub uninterp spec fn unicode_letter(c: char) -> bool;

/// Whether a character is a Unicode mark (general category M), as the
/// tables of `unicode_categories` have it.
pub uninterp spec fn unicode_mark(c: char) -> bool;

/// Whether a character is a Unicode number (general category N), as the
/// tables of `unicode_categories` have it.
pub uninterp spec fn unicode_number(c: char) -> bool;

/// Whether a character is Unicode connector punctuation (Pc), as the
/// tables of `unicode_categories` have it.
pub uninterp spec fn unicode_connector(c: char) -> bool;

/// What `str::to_lowercase` makes of a string: each character mapped to its
/// Unicode lowercase, which may take several characters.
pub uninterp spec fn lowercase(s: Seq<char>) -> Seq<char>;

/// `UnicodeCategories::is_letter` of `unicode_categories`: a lookup of the
/// character's general category.
#[verifier::external_body]
fn is_letter(c: char) -> (r: bool)
    ensures
        r == unicode_letter(c),
{
    c.is_letter()
}

/// `UnicodeCategories::is_mark` of `unicode_categories`.
#[verifier::external_body]
fn is_mark(c: char) -> (r: bool)
    ensures
        r == unicode_mark(c),
{
    c.is_mark()
}

/// `UnicodeCategories::is_number` of `unicode_categories`.
#[verifier::external_body]
fn is_number(c: char) -> (r: bool)
    ensures
        r == unicode_number(c),
{
    c.is_number()
}

/// `UnicodeCategories::is_punctuation_connector` of `unicode_categories`.
#[verifier::external_body]
fn is_punctuation_connector(c: char) -> (r: bool)
    ensures
        r == unicode_connector(c),
{
    c.is_punctuation_connector()
}

/// `str::to_lowercase`, collected into a vector of characters.
#[verifier::external_body]
fn to_lowercase_chars(s: &str) -> (r: Vec<char>)
    ensures
        r@ == lowercase(s@),
{
    s.to_lowercase().chars().collect()
}

/// The characters an anchor keeps: space, `-`, letters, marks, numbers and
/// connector punctuation.
pub open spec fn permitted(c: char) -> bool {
    c == ' ' || c == '-' || unicode_letter(c) || unicode_mark(c) || unicode_number(c)
        || unicode_connector(c)
}

/// The permitted characters of `s`, each space turned into `-`.
pub open spec fn anchor_chars(s: Seq<char>) -> Seq<char>
    decreases s.len(),
{
    if s.len() == 0 {
        seq![]
    } else {
        anchor_chars(s.drop_last()) + if permitted(s.last()) {
            seq![
                if s.last() == ' ' {
                    '-'
                } else {
                    s.last()
                },
            ]
        } else {
            seq![]
        }
    }
}

/// The anchor of a heading before it is made unique.
pub open spec fn anchor_base(header: Seq<char>) -> Seq<char> {
    anchor_chars(lowercase(header))
}

/// The `u`th candidate for an anchor: the base itself, then the base with
/// `-1`, `-2`, ... appended.
pub open spec fn candidate(id: Seq<char>, u: nat) -> Seq<char> {
    if u == 0 {
        id
    } else {
        id + seq!['-'] + decimal(u)
    }
}

/// Different suffixes give different candidates.
pub proof fn lemma_candidate_injective(id: Seq<char>, a: nat, b: nat)
    requires
        candidate(id, a) == candidate(id, b),
    ensures
        a == b,
{
    lemma_decimal_len(a);
    lemma_decimal_len(b);
    if a != 0 && b != 0 {
        let n: int = id.len() as int + 1;
        assert(candidate(id, a).subrange(n, candidate(id, a).len() as int) =~= decimal(a));
        assert(candidate(id, b).subrange(n, candidate(id, b).len() as int) =~= decimal(b));
        lemma_decimal_injective(a, b);
    } else if a != 0 || b != 0 {
        assert(candidate(id, a).len() != candidate(id, b).len());
    }
}

/// Converts header strings to canonical, unique, but still human-readable,
/// anchors.
///
/// To guarantee uniqueness, an anchorizer keeps track of the anchors it has
/// returned; use one per output file.
#[derive(Debug, Default)]
pub struct Anchorizer(Vec<String>);

impl View for Anchorizer {
    type V = Seq<Seq<char>>;

    /// The anchors returned so far, in order.
    closed spec fn view(&self) -> Seq<Seq<char>> {
        self.0@.map_values(|s: String| s@)
    }
}

impl Anchorizer {
    /// No anchor was returned twice.
    pub open spec fn wf(&self) -> bool {
        self@.no_duplicates()
    }

    /// Construct a new anchorizer.
    pub fn new() -> (r: Self)
        ensures
            r@ == Seq::<Seq<char>>::empty(),
            r.wf(),
    {
        let r = Anchorizer(Vec::new());
        proof {
            assert(r@ =~= Seq::<Seq<char>>::empty());
        }
        r
    }

    /// Whether `s` was returned before.
    fn contains(&self, s: &String) -> (r: bool)
        ensures
            r == self@.contains(s@),
    {
        let mut k: usize = 0;
        while k < self.0.len()
            invariant
                k <= self.0@.len(),
                forall|j: int| 0 <= j < k ==> self@[j] != s@,
            decreases self.0@.len() - k,
        {
            if self.0[k] == *s {
                proof {
                    assert(self@[k as int] == s@);
                }
                return true;
            }
            k += 1;
        }
        false
    }

    /// Returns a String that has been converted into an anchor using the
    /// GFM algorithm, which involves changing spaces to dashes, removing
    /// problem characters and, if needed, adding a suffix to make the
    /// resultant anchor unique.
    pub fn anchorize(&mut self, header: &str) -> (r: String)
        requires
            old(self).wf(),
        ensures
            final(self).wf(),
            !old(self)@.contains(r@),
            final(self)@ == old(self)@.push(r@),
            exists|u: nat|
                r@ == candidate(anchor_base(header@), u) && forall|v: nat|
                    v < u ==> old(self)@.contains(#[trigger] candidate(anchor_base(header@), v)),
    {
        let lower = to_lowercase_chars(header);
        let mut id = String::new();
        let mut k: usize = 0;
        proof {
            assert(lower@.subrange(0, 0) =~= Seq::<char>::empty());
        }
        while k < lower.len()
            invariant
                k <= lower@.len(),
                id@ == anchor_chars(lower@.subrange(0, k as int)),
            decreases lower@.len() - k,
        {
            let c = lower[k];
            proof {
                assert(lower@.subrange(0, k + 1).drop_last() =~= lower@.subrange(0, k as int));
            }
            if c == ' ' || c == '-' || is_letter(c) || is_mark(c) || is_number(c)
                || is_punctuation_connector(c) {
                push_char(&mut id, if c == ' ' {
                    '-'
                } else {
                    c
                });
            }
            proof {
                assert(id@ =~= anchor_chars(lower@.subrange(0, k + 1)));
            }
            k += 1;
        }
        proof {
            assert(lower@.subrange(0, lower@.len() as int) =~= lower@);
        }
        let ghost base = id@;
        let n = self.0.len();
        let mut uniq: usize = 0;
        let mut anchor = id.clone();
        proof {
            assert(anchor@ == candidate(base, 0));
        }
        while self.contains(&anchor)
            invariant
                self@ == old(self)@,
                self.wf(),
                n == self@.len(),
                base == anchor_base(header@),
                uniq <= n,
                anchor@ == candidate(base, uniq as nat),
                id@ == base,
                forall|v: nat| v < uniq ==> old(self)@.contains(#[trigger] candidate(base, v)),
            decreases n - uniq,
        {
            proof {
                lemma_candidates_fit(self@, base, uniq as nat);
            }
            uniq = uniq + 1;
            anchor = id.clone();
            push_char(&mut anchor, '-');
            push_decimal(&mut anchor, uniq);
            proof {
                assert(anchor@ =~= candidate(base, uniq as nat));
            }
        }
        let ghost before = self@;
        self.0.push(anchor.clone());
        proof {
            assert(self@ =~= before.push(anchor@));
            assert forall|i: int, j: int| 0 <= i < j < self@.len() implies self@[i] != self@[j] by {
                if j == self@.len() - 1 {
                    assert(before.contains(before[i]));
                }
            }
        }
        anchor
    }
}

/// While every candidate up to `u` is taken, there are more anchors than
/// `u`: the candidates are all different.
proof fn lemma_candidates_fit(taken: Seq<Seq<char>>, base: Seq<char>, u: nat)
    requires
        taken.no_duplicates(),
        forall|v: nat| v <= u ==> taken.contains(#[trigger] candidate(base, v)),
    ensures
        u < taken.len(),
{
    let r = set_int_range(0, u as int + 1);
    lemma_int_range(0, u as int + 1);
    let f = |i: int| candidate(base, i as nat);
    assert(injective_on(f, r)) by {
        assert forall|x: int, y: int| r.contains(x) && r.contains(y) && #[trigger] f(x) == #[trigger] f(y) implies x == y by {
            lemma_candidate_injective(base, x as nat, y as nat);
        }
    }
    lemma_map_size(r, r.map(f), f);
    taken.unique_seq_to_set();
    assert(r.map(f).subset_of(taken.to_set())) by {
        assert forall|s: Seq<char>| r.map(f).contains(s) implies taken.to_set().contains(s) by {
            let x = choose|x: int| r.contains(x) && f(x) == s;
            assert(taken.contains(candidate(base, x as nat)));
        }
    }
    lemma_len_subset(r.map(f), taken.to_set());
}

} // verus!
