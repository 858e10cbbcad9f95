//! The in-memory form of the store: a mapping from variable names to
//! values, kept as a list of pairs in first-insertion order with unique
//! names.

use vstd::prelude::*;

use crate::lines::map_of_pairs;
use crate::text::str_eq;

verus! {

/// A mapping from variable names to values.
#[derive(Debug)]
pub struct VarMap {
    entries: Vec<(String, String)>,
}

/// No two pairs of the list carry the same name.
pub open spec fn unique_names(ps: Seq<(Seq<char>, Seq<char>)>) -> bool {
    forall|i: int, j: int|
        0 <= i < j < ps.len() ==> (#[trigger] ps[i]).0 != (#[trigger] ps[j]).0
}

/// A name is in the mapping of a pair list exactly when some pair carries
/// it.
pub proof fn lemma_map_of_pairs_domain(ps: Seq<(Seq<char>, Seq<char>)>, k: Seq<char>)
    ensures
        map_of_pairs(ps).contains_key(k) <==> exists|i: int|
            0 <= i < ps.len() && (#[trigger] ps[i]).0 == k,
    decreases ps.len(),
{
    if ps.len() > 0 {
        lemma_map_of_pairs_domain(ps.drop_last(), k);
        if ps.last().0 == k {
            assert(ps[ps.len() - 1].0 == k);
        } else if map_of_pairs(ps.drop_last()).contains_key(k) {
            let i = choose|i: int| 0 <= i < ps.drop_last().len() && (#[trigger] ps.drop_last()[
                i
            ]).0 == k;
            assert(ps[i].0 == k);
        } else if exists|i: int| 0 <= i < ps.len() && (#[trigger] ps[i]).0 == k {
            let i = choose|i: int| 0 <= i < ps.len() && (#[trigger] ps[i]).0 == k;
            assert(i < ps.len() - 1);
            assert(ps.drop_last()[i].0 == k);
        }
    }
}

/// In a list with unique names, the mapping's value at a pair's name is that
/// pair's value.
pub proof fn lemma_map_of_pairs_at(ps: Seq<(Seq<char>, Seq<char>)>, i: int)
    requires
        0 <= i < ps.len(),
        unique_names(ps),
    ensures
        map_of_pairs(ps).contains_key(ps[i].0),
        map_of_pairs(ps)[ps[i].0] == ps[i].1,
    decreases ps.len(),
{
    if i == ps.len() - 1 {
        assert(ps.last() == ps[i]);
    } else {
        assert(unique_names(ps.drop_last())) by {
            assert(forall|a: int|
                0 <= a < ps.drop_last().len() ==> #[trigger] ps.drop_last()[a] == ps[a]);
        }
        lemma_map_of_pairs_at(ps.drop_last(), i);
        assert(ps.drop_last()[i] == ps[i]);
        assert(ps[i].0 != ps.last().0) by {
            assert(ps.last() == ps[ps.len() - 1]);
        }
    }
}

/// Replacing the value of the pair that carries a name changes the mapping
/// the way an insert of that name does.
pub proof fn lemma_map_of_pairs_update(ps: Seq<(Seq<char>, Seq<char>)>, i: int, v: Seq<char>)
    requires
        0 <= i < ps.len(),
        unique_names(ps),
    ensures
        map_of_pairs(ps.update(i, (ps[i].0, v))) == map_of_pairs(ps).insert(ps[i].0, v),
    decreases ps.len(),
{
    let k = ps[i].0;
    let nps = ps.update(i, (k, v));
    if i == ps.len() - 1 {
        assert(nps.drop_last() =~= ps.drop_last());
        assert(nps.last() == (k, v));
        assert(ps.last() == ps[i]);
        assert(map_of_pairs(ps.drop_last()).insert(k, v) =~= map_of_pairs(ps).insert(k, v));
    } else {
        assert(unique_names(ps.drop_last())) by {
            assert(forall|a: int|
                0 <= a < ps.drop_last().len() ==> #[trigger] ps.drop_last()[a] == ps[a]);
        }
        lemma_map_of_pairs_update(ps.drop_last(), i, v);
        assert(nps.drop_last() =~= ps.drop_last().update(i, (k, v)));
        assert(nps.last() == ps.last());
        assert(k != ps.last().0) by {
            assert(ps.last() == ps[ps.len() - 1]);
        }
        assert(map_of_pairs(ps.drop_last()).insert(k, v).insert(ps.last().0, ps.last().1)
            =~= map_of_pairs(ps).insert(k, v));
    }
}

impl VarMap {
    /// The pairs, as character sequences, in order.
    pub closed spec fn pairs(self) -> Seq<(Seq<char>, Seq<char>)> {
        self.entries.deep_view()
    }

    /// The mapping the pairs describe.
    pub open spec fn as_map(self) -> Map<Seq<char>, Seq<char>> {
        map_of_pairs(self.pairs())
    }

    /// The names are unique, so each name means one value.
    pub open spec fn wf(self) -> bool {
        unique_names(self.pairs())
    }

    /// An empty mapping.
    pub fn new() -> (r: VarMap)
        ensures
            r.wf(),
            r.pairs().len() == 0,
            r.as_map() == Map::<Seq<char>, Seq<char>>::empty(),
    {
        let r = VarMap { entries: Vec::new() };
        proof {
            assert(r.pairs() =~= Seq::<(Seq<char>, Seq<char>)>::empty());
        }
        r
    }

    /// How many variables the mapping holds.
    pub fn len(&self) -> (r: usize)
        ensures
            r == self.pairs().len(),
    {
        self.entries.len()
    }

    /// The name of the `i`th pair.
    pub fn key_at(&self, i: usize) -> (r: &String)
        requires
            i < self.pairs().len(),
        ensures
            r@ == self.pairs()[i as int].0,
    {
        &self.entries[i].0
    }

    /// The value of the `i`th pair.
    pub fn value_at(&self, i: usize) -> (r: &String)
        requires
            i < self.pairs().len(),
        ensures
            r@ == self.pairs()[i as int].1,
    {
        &self.entries[i].1
    }

    /// The value recorded for `k`, if any.
    pub fn get(&self, k: &str) -> (r: Option<&String>)
        requires
            self.wf(),
        ensures
            match r {
                Some(v) => self.as_map().contains_key(k@) && v@ == self.as_map()[k@],
                None => !self.as_map().contains_key(k@),
            },
    {
        let n = self.entries.len();
        let mut i: usize = 0;
        while i < n
            invariant
                self.wf(),
                n == self.pairs().len(),
                i <= n,
                forall|m: int| 0 <= m < i ==> (#[trigger] self.pairs()[m]).0 != k@,
            decreases n - i,
        {
            if str_eq(self.entries[i].0.as_str(), k) {
                proof {
                    lemma_map_of_pairs_at(self.pairs(), i as int);
                }
                return Some(&self.entries[i].1);
            }
            i = i + 1;
        }
        proof {
            lemma_map_of_pairs_domain(self.pairs(), k@);
        }
        None
    }

    /// Whether the mapping records a value for `k`.
    pub fn contains_key(&self, k: &str) -> (r: bool)
        requires
            self.wf(),
        ensures
            r == self.as_map().contains_key(k@),
    {
        match self.get(k) {
            Some(_) => true,
            None => false,
        }
    }

    /// Records `v` for `k`: the value of the pair already carrying `k` is
    /// replaced, or a new pair is appended.
    pub fn insert(&mut self, k: String, v: String)
        requires
            old(self).wf(),
        ensures
            final(self).wf(),
            final(self).as_map() == old(self).as_map().insert(k@, v@),
    {
        let n = self.entries.len();
        let mut i: usize = 0;
        while i < n
            invariant
                self.wf(),
                n == self.pairs().len(),
                i <= n,
                forall|m: int| 0 <= m < i ==> (#[trigger] self.pairs()[m]).0 != k@,
                *self == *old(self),
            decreases n - i,
        {
            if str_eq(self.entries[i].0.as_str(), k.as_str()) {
                proof {
                    lemma_map_of_pairs_update(self.pairs(), i as int, v@);
                }
                let ghost prev = self.pairs();
                self.entries[i] = (k, v);
                proof {
                    assert(self.pairs() =~= prev.update(i as int, (prev[i as int].0, v@)));
                    assert(self.wf()) by {
                        assert(forall|a: int|
                            0 <= a < self.pairs().len() ==> (#[trigger] self.pairs()[a]).0
                                == prev[a].0);
                    }
                }
                return ;
            }
            i = i + 1;
        }
        let ghost prev = self.pairs();
        self.entries.push((k, v));
        proof {
            assert(self.pairs() =~= prev.push((k@, v@)));
            assert(self.pairs().drop_last() =~= prev);
            assert(!map_of_pairs(prev).contains_key(k@)) by {
                lemma_map_of_pairs_domain(prev, k@);
            }
            assert(self.wf()) by {
                assert(forall|a: int| 0 <= a < prev.len() ==> self.pairs()[a] == prev[a]);
                assert(forall|a: int|
                    0 <= a < prev.len() ==> (#[trigger] self.pairs()[a]).0 != k@);
            }
        }
    }
}

} // verus!
