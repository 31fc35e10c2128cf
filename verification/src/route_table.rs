//! A routing table: a finite map from byte-string address prefixes to
//! account ids, stored as an association vector with pairwise-distinct
//! keys. Its view is the abstract `Map` the entries denote, later entries
//! taking precedence (which the distinctness invariant makes moot).
use vstd::prelude::*;

verus! {

/// The map denoted by a sequence of prefix/account pairs; a later pair
/// overrides an earlier one with the same prefix.
pub open spec fn route_map_of(s: Seq<(Vec<u8>, u64)>) -> Map<Seq<u8>, u64>
    decreases s.len(),
{
    if s.len() == 0 {
        Map::empty()
    } else {
        route_map_of(s.drop_last()).insert(s.last().0@, s.last().1)
    }
}

pub proof fn lemma_route_map_snoc(s: Seq<(Vec<u8>, u64)>, e: (Vec<u8>, u64))
    ensures
        route_map_of(s.push(e)) == route_map_of(s).insert(e.0@, e.1),
{
    assert(s.push(e).drop_last() =~= s);
    assert(s.push(e).last() == e);
}

pub proof fn lemma_route_map_contains(s: Seq<(Vec<u8>, u64)>, k: Seq<u8>)
    ensures
        route_map_of(s).contains_key(k) <==> exists|i: int| 0 <= i < s.len() && s[i].0@ == k,
    decreases s.len(),
{
    if s.len() > 0 {
        lemma_route_map_contains(s.drop_last(), k);
        if s.last().0@ == k {
            assert(s[s.len() - 1].0@ == k);
        } else if route_map_of(s).contains_key(k) {
            let i = choose|i: int| 0 <= i < s.drop_last().len() && s.drop_last()[i].0@ == k;
            assert(s[i].0@ == k);
        } else {
            assert forall|i: int| 0 <= i < s.len() implies s[i].0@ != k by {
                if i < s.len() - 1 {
                    assert(s.drop_last()[i] == s[i]);
                }
            }
        }
    }
}

pub proof fn lemma_route_map_value_at(s: Seq<(Vec<u8>, u64)>, i: int)
    requires
        0 <= i < s.len(),
        forall|j: int| i < j < s.len() ==> s[j].0@ != s[i].0@,
    ensures
        route_map_of(s).contains_key(s[i].0@),
        route_map_of(s)[s[i].0@] == s[i].1,
    decreases s.len(),
{
    if i == s.len() - 1 {
    } else {
        assert(s.drop_last()[i] == s[i]);
        lemma_route_map_value_at(s.drop_last(), i);
    }
}

pub proof fn lemma_route_map_update(s: Seq<(Vec<u8>, u64)>, i: int, e: (Vec<u8>, u64))
    requires
        0 <= i < s.len(),
        s[i].0@ == e.0@,
        forall|p: int, q: int| 0 <= p < q < s.len() ==> s[p].0@ != s[q].0@,
    ensures
        route_map_of(s.update(i, e)) == route_map_of(s).insert(e.0@, e.1),
    decreases s.len(),
{
    let t = s.update(i, e);
    if i == s.len() - 1 {
        assert(t.drop_last() =~= s.drop_last());
        assert(t.last() == e);
        assert(route_map_of(t) == route_map_of(s.drop_last()).insert(e.0@, e.1));
        assert(route_map_of(s.drop_last()).insert(s.last().0@, s.last().1).insert(e.0@, e.1)
            =~= route_map_of(s.drop_last()).insert(e.0@, e.1));
    } else {
        assert(t.drop_last() =~= s.drop_last().update(i, e));
        assert(t.last() == s.last());
        lemma_route_map_update(s.drop_last(), i, e);
        // the updated key differs from the last key, so the two inserts commute
        assert(s.last().0@ != e.0@);
        assert(route_map_of(s.drop_last()).insert(e.0@, e.1).insert(s.last().0@, s.last().1)
            =~= route_map_of(s.drop_last()).insert(s.last().0@, s.last().1).insert(e.0@, e.1));
    }
}

/// A prefix-to-account-id table with pairwise-distinct prefixes.
pub struct RouteTable {
    entries: Vec<(Vec<u8>, u64)>,
}

impl View for RouteTable {
    type V = Map<Seq<u8>, u64>;

    closed spec fn view(&self) -> Map<Seq<u8>, u64> {
        route_map_of(self.entries@)
    }
}

impl RouteTable {
    /// No two entries share a prefix.
    pub closed spec fn wf(&self) -> bool {
        forall|p: int, q: int|
            0 <= p < q < self.entries@.len() ==> self.entries@[p].0@ != self.entries@[q].0@
    }

    /// The table's entries as prefix/account pairs, one per route.
    pub closed spec fn entries_view(&self) -> Seq<(Vec<u8>, u64)> {
        self.entries@
    }

    /// The map the table denotes is the map its entries denote.
    pub proof fn lemma_view_is_entries(&self)
        ensures
            self@ == route_map_of(self.entries_view()),
    {
    }

    /// With distinct keys, every entry is present in the denoted map.
    pub proof fn lemma_entry_in_view(&self, i: int)
        requires
            self.wf(),
            0 <= i < self.entries_view().len(),
        ensures
            self@.contains_key(self.entries_view()[i].0@),
            self@[self.entries_view()[i].0@] == self.entries_view()[i].1,
    {
        lemma_route_map_value_at(self.entries@, i);
    }

    /// The entries of a well-formed table carry pairwise-distinct prefixes.
    pub proof fn lemma_entries_distinct(&self)
        requires
            self.wf(),
        ensures
            forall|i: int, j: int|
                0 <= i < j < self.entries_view().len() ==> self.entries_view()[i].0@
                    != self.entries_view()[j].0@,
    {
    }

    /// Every key of the denoted map is the key of some entry.
    pub proof fn lemma_view_key_has_entry(&self, k: Seq<u8>)
        requires
            self@.contains_key(k),
        ensures
            exists|i: int| 0 <= i < self.entries_view().len() && self.entries_view()[i].0@ == k,
    {
        lemma_route_map_contains(self.entries@, k);
        let i = choose|i: int| 0 <= i < self.entries@.len() && self.entries@[i].0@ == k;
        assert(0 <= i < self.entries_view().len() && self.entries_view()[i].0@ == k);
    }

    pub fn new() -> (r: RouteTable)
        ensures
            r.wf(),
            r@ == Map::<Seq<u8>, u64>::empty(),
            r.entries_view() == Seq::<(Vec<u8>, u64)>::empty(),
    {
        RouteTable { entries: Vec::new() }
    }

    pub fn len(&self) -> (r: usize)
        ensures
            r == self.entries_view().len(),
    {
        self.entries.len()
    }

    /// The pair at the given position, the account id paired with a copy
    /// of the prefix.
    pub fn entry_at(&self, i: usize) -> (r: (Vec<u8>, u64))
        requires
            i < self.entries_view().len(),
        ensures
            r.0@ == self.entries_view()[i as int].0@,
            r.1 == self.entries_view()[i as int].1,
    {
        let (p, id) = &self.entries[i];
        (clone_bytes(p), *id)
    }

    /// The account id the table routes the given prefix to, if any.
    pub fn get(&self, prefix: &Vec<u8>) -> (r: Option<u64>)
        requires
            self.wf(),
        ensures
            r == if self@.contains_key(prefix@) {
                Some(self@[prefix@])
            } else {
                None::<u64>
            },
    {
        let n = self.entries.len();
        let mut i: usize = 0;
        while i < n
            invariant
                n == self.entries@.len(),
                i <= n,
                self.wf(),
                forall|j: int| 0 <= j < i ==> self.entries@[j].0@ != prefix@,
            decreases n - i,
        {
            if bytes_eq(&self.entries[i].0, prefix) {
                proof {
                    lemma_route_map_value_at(self.entries@, i as int);
                }
                return Some(self.entries[i].1);
            }
            i += 1;
        }
        proof {
            lemma_route_map_contains(self.entries@, prefix@);
        }
        None
    }

    /// Inserts the route, replacing an existing route for the same prefix.
    pub fn upsert(&mut self, prefix: Vec<u8>, account_id: u64)
        requires
            old(self).wf(),
        ensures
            final(self).wf(),
            final(self)@ == old(self)@.insert(prefix@, account_id),
    {
        let n = self.entries.len();
        let mut i: usize = 0;
        while i < n
            invariant
                n == self.entries@.len(),
                i <= n,
                self.wf(),
                self.entries@ == old(self).entries@,
                forall|j: int| 0 <= j < i ==> self.entries@[j].0@ != prefix@,
            decreases n - i,
        {
            if bytes_eq(&self.entries[i].0, &prefix) {
                let ghost kview = prefix@;
                proof {
                    lemma_route_map_update(self.entries@, i as int, (prefix, account_id));
                }
                self.entries[i] = (prefix, account_id);
                proof {
                    assert(self.entries@[i as int].0@ == kview);
                    assert forall|p: int, q: int|
                        0 <= p < q < self.entries@.len() implies self.entries@[p].0@
                        != self.entries@[q].0@ by {
                        assert(old(self).entries@[p].0@ != old(self).entries@[q].0@);
                        if p != i && q != i {
                            assert(self.entries@[p] == old(self).entries@[p]);
                            assert(self.entries@[q] == old(self).entries@[q]);
                        }
                    }
                }
                return ;
            }
            i += 1;
        }
        proof {
            lemma_route_map_snoc(self.entries@, (prefix, account_id));
        }
        self.entries.push((prefix, account_id));
    }

    /// A snapshot copy of the table.
    pub fn snapshot(&self) -> (r: RouteTable)
        requires
            self.wf(),
        ensures
            r.wf(),
            r@ == self@,
    {
        let n = self.entries.len();
        let mut out: Vec<(Vec<u8>, u64)> = Vec::new();
        let mut i: usize = 0;
        while i < n
            invariant
                n == self.entries@.len(),
                i <= n,
                self.wf(),
                out@.len() == i,
                forall|j: int| 0 <= j < i ==> out@[j].0@ == self.entries@[j].0@
                    && out@[j].1 == self.entries@[j].1,
            decreases n - i,
        {
            let (p, id) = &self.entries[i];
            out.push((clone_bytes(p), *id));
            i += 1;
        }
        let r = RouteTable { entries: out };
        proof {
            lemma_route_map_congruent(r.entries@, self.entries@);
        }
        r
    }
}

/// Two entry sequences that agree keywise and valuewise denote one map.
pub proof fn lemma_route_map_congruent(a: Seq<(Vec<u8>, u64)>, b: Seq<(Vec<u8>, u64)>)
    requires
        a.len() == b.len(),
        forall|j: int| 0 <= j < a.len() ==> a[j].0@ == b[j].0@ && a[j].1 == b[j].1,
    ensures
        route_map_of(a) == route_map_of(b),
    decreases a.len(),
{
    if a.len() > 0 {
        assert forall|j: int| 0 <= j < a.drop_last().len() implies a.drop_last()[j].0@
            == b.drop_last()[j].0@ && a.drop_last()[j].1 == b.drop_last()[j].1 by {
            assert(a.drop_last()[j] == a[j]);
            assert(b.drop_last()[j] == b[j]);
        }
        lemma_route_map_congruent(a.drop_last(), b.drop_last());
    }
}

/// Whether two byte strings hold the same bytes.
pub fn bytes_eq(a: &Vec<u8>, b: &Vec<u8>) -> (r: bool)
    ensures
        r == (a@ == b@),
{
    let n = a.len();
    if n != b.len() {
        proof {
            assert(a@ != b@);
        }
        return false;
    }
    let mut i: usize = 0;
    while i < n
        invariant
            n == a@.len(),
            n == b@.len(),
            i <= n,
            forall|j: int| 0 <= j < i ==> a@[j] == b@[j],
        decreases n - i,
    {
        if a[i] != b[i] {
            proof {
                assert(a@ != b@);
            }
            return false;
        }
        i += 1;
    }
    proof {
        assert(a@ =~= b@);
    }
    true
}

/// Copies a byte string.
pub fn clone_bytes(v: &Vec<u8>) -> (r: Vec<u8>)
    ensures
        r@ == v@,
{
    let n = v.len();
    let mut r: Vec<u8> = Vec::new();
    let mut i: usize = 0;
    while i < n
        invariant
            n == v@.len(),
            i <= n,
            r@ == v@.take(i as int),
        decreases n - i,
    {
        r.push(v[i]);
        proof {
            assert(r@ =~= v@.take(i as int + 1));
        }
        i += 1;
    }
    proof {
        assert(v@.take(n as int) =~= v@);
    }
    r
}

} // verus!
