//! Candidate mappings: partial functions from motif nodes to host nodes.
//!
//! A mapping is a key-unique association, grown by one binding per expansion
//! step and never mutated once queued; extension builds a fresh value. Its
//! mathematical view is a `Map<u64, u64>`, and the order in which keys were
//! bound is kept as `key_seq`, which the search uses to drive its levels.

use vstd::prelude::*;

verus! {

/// The partial function that an association list denotes: later pairs win,
/// though the search only ever builds lists with pairwise distinct keys.
pub open spec fn map_from_pairs(ps: Seq<(u64, u64)>) -> Map<u64, u64>
    decreases ps.len(),
{
    if ps.len() == 0 {
        Map::empty()
    } else {
        map_from_pairs(ps.drop_last()).insert(ps.last().0, ps.last().1)
    }
}

pub struct Mapping {
    pairs: Vec<(u64, u64)>,
}

impl View for Mapping {
    type V = Map<u64, u64>;

    closed spec fn view(&self) -> Map<u64, u64> {
        map_from_pairs(self.pairs@)
    }
}

impl Mapping {
    /// The keys in the order they were bound.
    pub closed spec fn key_seq(self) -> Seq<u64> {
        self.pairs@.map_values(|p: (u64, u64)| p.0)
    }

    /// Well-formed: no key is bound twice.
    pub open spec fn wf(self) -> bool {
        self.key_seq().no_duplicates()
    }

    /// The domain of the denoted map is exactly the key set.
    pub proof fn lemma_dom(self)
        ensures
            self@.dom() == self.key_seq().to_set(),
    {
        lemma_map_from_pairs_dom(self.pairs@);
    }

    /// A well-formed mapping has as many bindings as its domain has keys.
    pub proof fn lemma_len(self)
        requires
            self.wf(),
        ensures
            self@.dom().len() == self.key_seq().len(),
            self@.dom().finite(),
    {
        self.lemma_dom();
        self.key_seq().unique_seq_to_set();
        vstd::seq_lib::seq_to_set_is_finite(self.key_seq());
    }

    pub fn new() -> (r: Mapping)
        ensures
            r.wf(),
            r@ == Map::<u64, u64>::empty(),
            r.key_seq() == Seq::<u64>::empty(),
    {
        let r = Mapping { pairs: Vec::new() };
        proof {
            assert(r.key_seq() =~= Seq::<u64>::empty());
        }
        r
    }

    /// The number of nodes bound so far.
    pub fn len(&self) -> (r: usize)
        ensures
            r == self.key_seq().len(),
    {
        let r = self.pairs.len();
        proof {
            assert(self.key_seq().len() == self.pairs@.len());
        }
        r
    }

    /// The binding at position `i` in bind order.
    pub fn pair_at(&self, i: usize) -> (r: (u64, u64))
        requires
            self.wf(),
            i < self.key_seq().len(),
        ensures
            r.0 == self.key_seq()[i as int],
            self@.dom().contains(r.0),
            self@[r.0] == r.1,
    {
        let r = self.pairs[i];
        proof {
            lemma_map_from_pairs_at(self.pairs@, i as int);
            self.lemma_dom();
            assert(self.key_seq().to_set().contains(self.key_seq()[i as int]));
        }
        r
    }

    /// The host node bound to motif node `k`, if any.
    pub fn get(&self, k: u64) -> (r: Option<u64>)
        requires
            self.wf(),
        ensures
            match r {
                Some(v) => self@.dom().contains(k) && self@[k] == v,
                None => !self@.dom().contains(k),
            },
    {
        proof {
            self.lemma_dom();
        }
        let mut i: usize = 0;
        while i < self.pairs.len()
            invariant
                self.wf(),
                i <= self.pairs@.len(),
                self@.dom() == self.key_seq().to_set(),
                forall|j: int| 0 <= j < i ==> #[trigger] self.pairs@[j].0 != k,
            decreases self.pairs@.len() - i,
        {
            let p = self.pair_at(i);
            if p.0 == k {
                return Some(p.1);
            }
            i += 1;
        }
        proof {
            assert forall|j: int| 0 <= j < self.key_seq().len()
                implies #[trigger] self.key_seq()[j] != k by {
                assert(self.pairs@[j].0 != k);
            }
            if self.key_seq().to_set().contains(k) {
                let j = choose|j: int|
                    0 <= j < self.key_seq().len() && self.key_seq()[j] == k;
                assert(false);
            }
        }
        None
    }

    /// Whether motif node `k` is already bound.
    pub fn contains_key(&self, k: u64) -> (r: bool)
        requires
            self.wf(),
        ensures
            r == self@.dom().contains(k),
    {
        match self.get(k) {
            Some(_) => true,
            None => false,
        }
    }

    /// A fresh mapping equal to this one extended with the binding `k -> v`.
    pub fn extended(&self, k: u64, v: u64) -> (r: Mapping)
        requires
            self.wf(),
            !self@.dom().contains(k),
        ensures
            r.wf(),
            r@ == self@.insert(k, v),
            r.key_seq() == self.key_seq().push(k),
    {
        proof {
            self.lemma_dom();
        }
        let mut out: Vec<(u64, u64)> = Vec::new();
        let mut i: usize = 0;
        while i < self.pairs.len()
            invariant
                i <= self.pairs@.len(),
                out@ == self.pairs@.take(i as int),
            decreases self.pairs@.len() - i,
        {
            out.push(self.pairs[i]);
            proof {
                assert(out@ =~= self.pairs@.take(i + 1 as int));
            }
            i += 1;
        }
        proof {
            assert(out@ =~= self.pairs@);
        }
        out.push((k, v));
        let r = Mapping { pairs: out };
        proof {
            assert(r.pairs@.drop_last() =~= self.pairs@);
            assert(r.key_seq() =~= self.key_seq().push(k));
            assert(!self.key_seq().to_set().contains(k));
            assert(r.wf());
        }
        r
    }
}

proof fn lemma_map_from_pairs_dom(ps: Seq<(u64, u64)>)
    ensures
        map_from_pairs(ps).dom() == ps.map_values(|p: (u64, u64)| p.0).to_set(),
    decreases ps.len(),
{
    let keys = ps.map_values(|p: (u64, u64)| p.0);
    if ps.len() == 0 {
        assert(map_from_pairs(ps).dom() =~= keys.to_set());
    } else {
        lemma_map_from_pairs_dom(ps.drop_last());
        assert(ps.drop_last().map_values(|p: (u64, u64)| p.0) =~= keys.drop_last());
        assert(keys.drop_last().push(keys.last()) =~= keys);
        assert(map_from_pairs(ps).dom() =~= keys.drop_last().to_set().insert(keys.last()));
        assert forall|x: u64| keys.to_set().contains(x)
            implies keys.drop_last().to_set().insert(keys.last()).contains(x) by {
            let j = choose|j: int| 0 <= j < keys.len() && keys[j] == x;
            if j < keys.len() - 1 {
                assert(keys.drop_last()[j] == x);
            }
        }
        assert forall|x: u64| keys.drop_last().to_set().insert(keys.last()).contains(x)
            implies keys.to_set().contains(x) by {
            if keys.drop_last().to_set().contains(x) {
                let j = choose|j: int|
                    0 <= j < keys.drop_last().len() && keys.drop_last()[j] == x;
                assert(keys[j] == x);
            }
        }
        assert(keys.drop_last().to_set().insert(keys.last()) =~= keys.to_set());
    }
}

/// With pairwise distinct keys, every stored pair is a binding of the map.
proof fn lemma_map_from_pairs_at(ps: Seq<(u64, u64)>, i: int)
    requires
        ps.map_values(|p: (u64, u64)| p.0).no_duplicates(),
        0 <= i < ps.len(),
    ensures
        map_from_pairs(ps)[ps[i].0] == ps[i].1,
    decreases ps.len(),
{
    let keys = ps.map_values(|p: (u64, u64)| p.0);
    if i == ps.len() - 1 {
    } else {
        assert(ps.drop_last().map_values(|p: (u64, u64)| p.0) =~= keys.drop_last());
        lemma_map_from_pairs_at(ps.drop_last(), i);
        assert(keys[i] != keys[ps.len() - 1]);
    }
}

} // verus!
