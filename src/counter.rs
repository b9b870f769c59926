//! Hash collections of `u64` terms (hashbrown's), held behind a small
//! interface whose contracts speak of their contents.
use vstd::prelude::*;

verus! {

/// A map from terms to counts, in a `hashbrown::HashMap`.
#[verifier::external_body]
pub struct TermCounts {
    map: hashbrown::HashMap<u64, usize>,
}

/// What a `TermCounts` holds.
pub uninterp spec fn counts_of(c: TermCounts) -> Map<u64, usize>;

/// A set of terms, in a `hashbrown::HashSet`.
#[verifier::external_body]
pub struct TermSet {
    set: hashbrown::HashSet<u64>,
}

/// What a `TermSet` holds.
pub uninterp spec fn terms_of(s: TermSet) -> Set<u64>;

/// Relies on `hashbrown::HashMap::new`: an empty map.
#[verifier::external_body]
pub fn new_counts() -> (r: TermCounts)
    ensures
        counts_of(r) =~= Map::empty(),
{
    TermCounts { map: hashbrown::HashMap::new() }
}

/// Relies on `hashbrown::HashMap::get`: the value of the key, if present.
#[verifier::external_body]
pub fn count_of(c: &TermCounts, k: u64) -> (r: Option<usize>)
    ensures
        r == if counts_of(*c).contains_key(k) {
            Some(counts_of(*c)[k])
        } else {
            None::<usize>
        },
{
    c.map.get(&k).copied()
}

/// Relies on `hashbrown::HashMap::insert`: the key now maps to the value.
#[verifier::external_body]
pub fn set_count(c: &mut TermCounts, k: u64, v: usize)
    ensures
        counts_of(*final(c)) == counts_of(*old(c)).insert(k, v),
{
    c.map.insert(k, v);
}

/// Relies on `hashbrown::HashSet::new`: an empty set.
#[verifier::external_body]
pub fn new_terms() -> (r: TermSet)
    ensures
        terms_of(r) == Set::<u64>::empty(),
{
    TermSet { set: hashbrown::HashSet::new() }
}

/// Relies on `hashbrown::HashSet::insert`: adds the value, telling whether it
/// was absent.
#[verifier::external_body]
pub fn add_term(s: &mut TermSet, k: u64) -> (r: bool)
    ensures
        terms_of(*final(s)) == terms_of(*old(s)).insert(k),
        r == !terms_of(*old(s)).contains(k),
{
    s.set.insert(k)
}

} // verus!
