//! An exchange-rate table: a finite map from asset codes to rates, stored
//! as an association vector with pairwise-distinct codes. A rate travels
//! through the store as the opaque bit pattern of the caller's numeric
//! representation; the store never computes with it.
use vstd::prelude::*;

verus! {

/// The map denoted by a sequence of code/rate pairs; a later pair
/// overrides an earlier one with the same code.
pub open spec fn rate_map_of(s: Seq<(String, u64)>) -> Map<Seq<char>, u64>
    decreases s.len(),
{
    if s.len() == 0 {
        Map::empty()
    } else {
        rate_map_of(s.drop_last()).insert(s.last().0@, s.last().1)
    }
}

pub proof fn lemma_rate_map_snoc(s: Seq<(String, u64)>, e: (String, u64))
    ensures
        rate_map_of(s.push(e)) == rate_map_of(s).insert(e.0@, e.1),
{
    assert(s.push(e).drop_last() =~= s);
    assert(s.push(e).last() == e);
}

pub proof fn lemma_rate_map_contains(s: Seq<(String, u64)>, k: Seq<char>)
    ensures
        rate_map_of(s).contains_key(k) <==> exists|i: int| 0 <= i < s.len() && s[i].0@ == k,
    decreases s.len(),
{
    if s.len() > 0 {
        lemma_rate_map_contains(s.drop_last(), k);
        if s.last().0@ == k {
            assert(s[s.len() - 1].0@ == k);
        } else if rate_map_of(s).contains_key(k) {
            let i = choose|i: int| 0 <= i < s.drop_last().len() && s.drop_last()[i].0@ == k;
            assert(s[i].0@ == k);
        } else {
            assert forall|i: int| 0 <= i < s.len() implies s[i].0@ != k by {
                if i < s.len() - 1 {
                    assert(s.drop_last()[i] == s[i]);
                }
            }
        }
    }
}

pub proof fn lemma_rate_map_value_at(s: Seq<(String, u64)>, i: int)
    requires
        0 <= i < s.len(),
        forall|j: int| i < j < s.len() ==> s[j].0@ != s[i].0@,
    ensures
        rate_map_of(s).contains_key(s[i].0@),
        rate_map_of(s)[s[i].0@] == s[i].1,
    decreases s.len(),
{
    if i == s.len() - 1 {
    } else {
        assert(s.drop_last()[i] == s[i]);
        lemma_rate_map_value_at(s.drop_last(), i);
    }
}

pub proof fn lemma_rate_map_update(s: Seq<(String, u64)>, i: int, e: (String, u64))
    requires
        0 <= i < s.len(),
        s[i].0@ == e.0@,
        forall|p: int, q: int| 0 <= p < q < s.len() ==> s[p].0@ != s[q].0@,
    ensures
        rate_map_of(s.update(i, e)) == rate_map_of(s).insert(e.0@, e.1),
    decreases s.len(),
{
    let t = s.update(i, e);
    if i == s.len() - 1 {
        assert(t.drop_last() =~= s.drop_last());
        assert(t.last() == e);
        assert(rate_map_of(s.drop_last()).insert(s.last().0@, s.last().1).insert(e.0@, e.1)
            =~= rate_map_of(s.drop_last()).insert(e.0@, e.1));
    } else {
        assert(t.drop_last() =~= s.drop_last().update(i, e));
        assert(t.last() == s.last());
        lemma_rate_map_update(s.drop_last(), i, e);
        assert(s.last().0@ != e.0@);
        assert(rate_map_of(s.drop_last()).insert(e.0@, e.1).insert(s.last().0@, s.last().1)
            =~= rate_map_of(s.drop_last()).insert(s.last().0@, s.last().1).insert(e.0@, e.1));
    }
}

/// An asset-code-to-rate table with pairwise-distinct codes.
pub struct RateTable {
    entries: Vec<(String, u64)>,
}

impl View for RateTable {
    type V = Map<Seq<char>, u64>;

    closed spec fn view(&self) -> Map<Seq<char>, u64> {
        rate_map_of(self.entries@)
    }
}

impl RateTable {
    /// No two entries share an asset code.
    pub closed spec fn wf(&self) -> bool {
        forall|p: int, q: int|
            0 <= p < q < self.entries@.len() ==> self.entries@[p].0@ != self.entries@[q].0@
    }

    pub fn new() -> (r: RateTable)
        ensures
            r.wf(),
            r@ == Map::<Seq<char>, u64>::empty(),
    {
        RateTable { entries: Vec::new() }
    }

    /// The cached rate for the given asset code, if any.
    pub fn get(&self, code: &String) -> (r: Option<u64>)
        requires
            self.wf(),
        ensures
            r == if self@.contains_key(code@) {
                Some(self@[code@])
            } else {
                None::<u64>
            },
    {
        let n = self.entries.len();
        let mut i: usize = 0;
        while i < n
            invariant
                n == self.entries@.len(),
                i <= n,
                self.wf(),
                forall|j: int| 0 <= j < i ==> self.entries@[j].0@ != code@,
            decreases n - i,
        {
            if self.entries[i].0.eq(code) {
                proof {
                    lemma_rate_map_value_at(self.entries@, i as int);
                }
                return Some(self.entries[i].1);
            }
            i += 1;
        }
        proof {
            lemma_rate_map_contains(self.entries@, code@);
        }
        None
    }

    /// Inserts the rate, replacing an existing rate for the same code.
    pub fn upsert(&mut self, code: String, rate: u64)
        requires
            old(self).wf(),
        ensures
            final(self).wf(),
            final(self)@ == old(self)@.insert(code@, rate),
    {
        let n = self.entries.len();
        let mut i: usize = 0;
        while i < n
            invariant
                n == self.entries@.len(),
                i <= n,
                self.wf(),
                self.entries@ == old(self).entries@,
                forall|j: int| 0 <= j < i ==> self.entries@[j].0@ != code@,
            decreases n - i,
        {
            if self.entries[i].0.eq(&code) {
                let ghost kview = code@;
                proof {
                    lemma_rate_map_update(self.entries@, i as int, (code, rate));
                }
                self.entries[i] = (code, rate);
                proof {
                    assert(self.entries@[i as int].0@ == kview);
                    assert forall|p: int, q: int|
                        0 <= p < q < self.entries@.len() implies self.entries@[p].0@
                        != self.entries@[q].0@ by {
                        assert(old(self).entries@[p].0@ != old(self).entries@[q].0@);
                        if p != i && q != i {
                            assert(self.entries@[p] == old(self).entries@[p]);
                            assert(self.entries@[q] == old(self).entries@[q]);
                        }
                    }
                }
                return ;
            }
            i += 1;
        }
        proof {
            lemma_rate_map_snoc(self.entries@, (code, rate));
        }
        self.entries.push((code, rate));
    }

    /// A snapshot copy of the table.
    pub fn snapshot(&self) -> (r: RateTable)
        requires
            self.wf(),
        ensures
            r.wf(),
            r@ == self@,
    {
        let n = self.entries.len();
        let mut out: Vec<(String, u64)> = Vec::new();
        let mut i: usize = 0;
        while i < n
            invariant
                n == self.entries@.len(),
                i <= n,
                self.wf(),
                out@.len() == i,
                forall|j: int| 0 <= j < i ==> out@[j].0@ == self.entries@[j].0@
                    && out@[j].1 == self.entries@[j].1,
            decreases n - i,
        {
            let (c, rate) = &self.entries[i];
            out.push((c.clone(), *rate));
            i += 1;
        }
        let r = RateTable { entries: out };
        proof {
            lemma_rate_map_congruent(r.entries@, self.entries@);
        }
        r
    }
}

/// Two entry sequences that agree keywise and valuewise denote one map.
pub proof fn lemma_rate_map_congruent(a: Seq<(String, u64)>, b: Seq<(String, u64)>)
    requires
        a.len() == b.len(),
        forall|j: int| 0 <= j < a.len() ==> a[j].0@ == b[j].0@ && a[j].1 == b[j].1,
    ensures
        rate_map_of(a) == rate_map_of(b),
    decreases a.len(),
{
    if a.len() > 0 {
        assert forall|j: int| 0 <= j < a.drop_last().len() implies a.drop_last()[j].0@
            == b.drop_last()[j].0@ && a.drop_last()[j].1 == b.drop_last()[j].1 by {
            assert(a.drop_last()[j] == a[j]);
            assert(b.drop_last()[j] == b[j]);
        }
        lemma_rate_map_congruent(a.drop_last(), b.drop_last());
    }
}

} // verus!
