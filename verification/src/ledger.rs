//! The balance ledger: a signed integer per (asset, account id) pair,
//! keyed by canonicalized (lowercase) asset code. A pair that was never
//! written holds zero, as the backend's increment primitive treats an
//! absent field.
use vstd::prelude::*;

verus! {

/// The map denoted by a sequence of (asset, id, balance) triples; a later
/// triple overrides an earlier one with the same (asset, id) key.
pub open spec fn bal_map_of(s: Seq<(String, u64, i64)>) -> Map<(Seq<char>, u64), i64>
    decreases s.len(),
{
    if s.len() == 0 {
        Map::empty()
    } else {
        bal_map_of(s.drop_last()).insert((s.last().0@, s.last().1), s.last().2)
    }
}

/// The balance a ledger map holds for a key, zero when the key is absent.
pub open spec fn bal_of(m: Map<(Seq<char>, u64), i64>, k: (Seq<char>, u64)) -> int {
    if m.contains_key(k) {
        m[k] as int
    } else {
        0
    }
}

/// The ledger after adding `d` to the balance at `k`.
pub open spec fn apply_delta(m: Map<(Seq<char>, u64), i64>, k: (Seq<char>, u64), d: int) -> Map<
    (Seq<char>, u64),
    i64,
>
    recommends
        i64::MIN <= bal_of(m, k) + d <= i64::MAX,
{
    m.insert(k, (bal_of(m, k) + d) as i64)
}

/// Adding a delta moves exactly the balance at its key, by exactly the
/// delta, provided the result fits the slot.
pub proof fn lemma_bal_after_delta(
    m: Map<(Seq<char>, u64), i64>,
    k: (Seq<char>, u64),
    d: int,
    x: (Seq<char>, u64),
)
    requires
        i64::MIN <= bal_of(m, k) + d <= i64::MAX,
    ensures
        bal_of(apply_delta(m, k, d), x) == bal_of(m, x) + (if x == k {
            d
        } else {
            0
        }),
{
    assert(((bal_of(m, k) + d) as i64) as int == bal_of(m, k) + d);
}

pub proof fn lemma_bal_map_snoc(s: Seq<(String, u64, i64)>, e: (String, u64, i64))
    ensures
        bal_map_of(s.push(e)) == bal_map_of(s).insert((e.0@, e.1), e.2),
{
    assert(s.push(e).drop_last() =~= s);
    assert(s.push(e).last() == e);
}

pub proof fn lemma_bal_map_contains(s: Seq<(String, u64, i64)>, k: (Seq<char>, u64))
    ensures
        bal_map_of(s).contains_key(k) <==> exists|i: int|
            0 <= i < s.len() && (s[i].0@, s[i].1) == k,
    decreases s.len(),
{
    if s.len() > 0 {
        lemma_bal_map_contains(s.drop_last(), k);
        if (s.last().0@, s.last().1) == k {
            assert((s[s.len() - 1].0@, s[s.len() - 1].1) == k);
        } else if bal_map_of(s).contains_key(k) {
            let i = choose|i: int|
                0 <= i < s.drop_last().len() && (s.drop_last()[i].0@, s.drop_last()[i].1) == k;
            assert((s[i].0@, s[i].1) == k);
        } else {
            assert forall|i: int| 0 <= i < s.len() implies (s[i].0@, s[i].1) != k by {
                if i < s.len() - 1 {
                    assert(s.drop_last()[i] == s[i]);
                }
            }
        }
    }
}

pub proof fn lemma_bal_map_value_at(s: Seq<(String, u64, i64)>, i: int)
    requires
        0 <= i < s.len(),
        forall|j: int| i < j < s.len() ==> (s[j].0@, s[j].1) != (s[i].0@, s[i].1),
    ensures
        bal_map_of(s).contains_key((s[i].0@, s[i].1)),
        bal_map_of(s)[(s[i].0@, s[i].1)] == s[i].2,
    decreases s.len(),
{
    if i == s.len() - 1 {
    } else {
        assert(s.drop_last()[i] == s[i]);
        lemma_bal_map_value_at(s.drop_last(), i);
    }
}

pub proof fn lemma_bal_map_update(s: Seq<(String, u64, i64)>, i: int, e: (String, u64, i64))
    requires
        0 <= i < s.len(),
        (s[i].0@, s[i].1) == (e.0@, e.1),
        forall|p: int, q: int| 0 <= p < q < s.len() ==> (s[p].0@, s[p].1) != (s[q].0@, s[q].1),
    ensures
        bal_map_of(s.update(i, e)) == bal_map_of(s).insert((e.0@, e.1), e.2),
    decreases s.len(),
{
    let t = s.update(i, e);
    if i == s.len() - 1 {
        assert(t.drop_last() =~= s.drop_last());
        assert(t.last() == e);
        assert(bal_map_of(s.drop_last()).insert((s.last().0@, s.last().1), s.last().2).insert(
            (e.0@, e.1),
            e.2,
        ) =~= bal_map_of(s.drop_last()).insert((e.0@, e.1), e.2));
    } else {
        assert(t.drop_last() =~= s.drop_last().update(i, e));
        assert(t.last() == s.last());
        lemma_bal_map_update(s.drop_last(), i, e);
        assert((s.last().0@, s.last().1) != (e.0@, e.1));
        assert(bal_map_of(s.drop_last()).insert((e.0@, e.1), e.2).insert(
            (s.last().0@, s.last().1),
            s.last().2,
        ) =~= bal_map_of(s.drop_last()).insert((s.last().0@, s.last().1), s.last().2).insert(
            (e.0@, e.1),
            e.2,
        ));
    }
}

/// A per-asset, per-account ledger with pairwise-distinct keys.
pub struct Ledger {
    entries: Vec<(String, u64, i64)>,
}

impl View for Ledger {
    type V = Map<(Seq<char>, u64), i64>;

    closed spec fn view(&self) -> Map<(Seq<char>, u64), i64> {
        bal_map_of(self.entries@)
    }
}

impl Ledger {
    /// No two entries share an (asset, id) key.
    pub closed spec fn wf(&self) -> bool {
        forall|p: int, q: int|
            0 <= p < q < self.entries@.len() ==> (self.entries@[p].0@, self.entries@[p].1) != (
            self.entries@[q].0@,
            self.entries@[q].1,
            )
    }

    pub fn new() -> (r: Ledger)
        ensures
            r.wf(),
            r@ == Map::<(Seq<char>, u64), i64>::empty(),
    {
        Ledger { entries: Vec::new() }
    }

    /// The balance recorded for the account in the given asset's ledger;
    /// zero when no slot was ever written.
    pub fn get(&self, asset: &String, account_id: u64) -> (r: i64)
        requires
            self.wf(),
        ensures
            r as int == bal_of(self@, (asset@, account_id)),
    {
        let n = self.entries.len();
        let mut i: usize = 0;
        while i < n
            invariant
                n == self.entries@.len(),
                i <= n,
                self.wf(),
                forall|j: int| 0 <= j < i ==> (self.entries@[j].0@, self.entries@[j].1) != (
                    asset@,
                    account_id,
                ),
            decreases n - i,
        {
            if self.entries[i].1 == account_id && self.entries[i].0.eq(asset) {
                proof {
                    lemma_bal_map_value_at(self.entries@, i as int);
                }
                return self.entries[i].2;
            }
            i += 1;
        }
        proof {
            lemma_bal_map_contains(self.entries@, (asset@, account_id));
        }
        0
    }

    /// Whether a slot was ever written for the key.
    pub fn contains(&self, asset: &String, account_id: u64) -> (r: bool)
        requires
            self.wf(),
        ensures
            r == self@.contains_key((asset@, account_id)),
    {
        let n = self.entries.len();
        let mut i: usize = 0;
        while i < n
            invariant
                n == self.entries@.len(),
                i <= n,
                self.wf(),
                forall|j: int| 0 <= j < i ==> (self.entries@[j].0@, self.entries@[j].1) != (
                    asset@,
                    account_id,
                ),
            decreases n - i,
        {
            if self.entries[i].1 == account_id && self.entries[i].0.eq(asset) {
                proof {
                    lemma_bal_map_contains(self.entries@, (asset@, account_id));
                    assert((self.entries@[i as int].0@, self.entries@[i as int].1) == (
                        asset@,
                        account_id,
                    ));
                }
                return true;
            }
            i += 1;
        }
        proof {
            lemma_bal_map_contains(self.entries@, (asset@, account_id));
        }
        false
    }

    /// Writes the balance, replacing an existing slot for the same key.
    pub fn upsert(&mut self, asset: String, account_id: u64, balance: i64)
        requires
            old(self).wf(),
        ensures
            final(self).wf(),
            final(self)@ == old(self)@.insert((asset@, account_id), balance),
    {
        let n = self.entries.len();
        let mut i: usize = 0;
        while i < n
            invariant
                n == self.entries@.len(),
                i <= n,
                self.wf(),
                self.entries@ == old(self).entries@,
                forall|j: int| 0 <= j < i ==> (self.entries@[j].0@, self.entries@[j].1) != (
                    asset@,
                    account_id,
                ),
            decreases n - i,
        {
            if self.entries[i].1 == account_id && self.entries[i].0.eq(&asset) {
                let ghost kview = asset@;
                proof {
                    lemma_bal_map_update(self.entries@, i as int, (asset, account_id, balance));
                }
                self.entries[i] = (asset, account_id, balance);
                proof {
                    assert(self.entries@[i as int].0@ == kview);
                    assert forall|p: int, q: int|
                        0 <= p < q < self.entries@.len() implies (
                        self.entries@[p].0@,
                        self.entries@[p].1,
                        ) != (self.entries@[q].0@, self.entries@[q].1) by {
                        assert((old(self).entries@[p].0@, old(self).entries@[p].1) != (
                        old(self).entries@[q].0@,
                        old(self).entries@[q].1,
                        ));
                        if p != i && q != i {
                            assert(self.entries@[p] == old(self).entries@[p]);
                            assert(self.entries@[q] == old(self).entries@[q]);
                        }
                    }
                }
                return ;
            }
            i += 1;
        }
        proof {
            lemma_bal_map_snoc(self.entries@, (asset, account_id, balance));
        }
        self.entries.push((asset, account_id, balance));
    }
}

} // verus!
