use vstd::prelude::*;

use crate::link::Link;
use crate::link::LinkModel;

verus! {

/// The model sequence of a record sequence, element by element.
pub open spec fn models_of(s: Seq<Link>) -> Seq<LinkModel> {
    s.map_values(|l: Link| l@)
}

/// True when `a` and `b` hold the same bytes.
pub fn bytes_eq(a: &[u8], b: &[u8]) -> (r: bool)
    ensures
        r == (a@ == b@),
{
    if a.len() != b.len() {
        assert(a@ != b@) by {
            assert(a@.len() != b@.len());
        }
        return false;
    }
    let n: usize = a.len();
    let mut i: usize = 0;
    while i < n
        invariant
            n == a@.len() && n == b@.len(),
            i <= n,
            forall|k: int| 0 <= k < i ==> a@[k] == b@[k],
        decreases n - i,
    {
        if a[i] != b[i] {
            return false;
        }
        i = i + 1;
    }
    assert(a@ =~= b@);
    true
}

/// Well-formedness of a record sequence: every name is non-empty and no two
/// records share a name.
pub open spec fn wf_models(s: Seq<LinkModel>) -> bool {
    &&& forall|i: int| 0 <= i < s.len() ==> #[trigger] s[i].name.len() > 0
    &&& forall|i: int, j: int|
        0 <= i < s.len() && 0 <= j < s.len() && i != j ==> #[trigger] s[i].name != #[trigger] s[j].name
}

/// The mapping that a record sequence denotes, keyed by name. With distinct
/// names the fold order is irrelevant.
pub open spec fn map_of(s: Seq<LinkModel>) -> Map<Seq<u8>, LinkModel>
    decreases s.len(),
{
    if s.len() == 0 {
        Map::empty()
    } else {
        map_of(s.drop_last()).insert(s.last().name, s.last())
    }
}

/// A name is a key of `map_of(s)` exactly when some record of `s` carries it.
pub proof fn lemma_map_of_dom(s: Seq<LinkModel>, n: Seq<u8>)
    ensures
        map_of(s).contains_key(n) <==> exists|i: int| 0 <= i < s.len() && #[trigger] s[i].name == n,
    decreases s.len(),
{
    if s.len() > 0 {
        lemma_map_of_dom(s.drop_last(), n);
        if s.last().name == n {
            assert(s[s.len() - 1].name == n);
        } else if map_of(s).contains_key(n) {
            let i = choose|i: int| 0 <= i < s.drop_last().len() && #[trigger] s.drop_last()[i].name == n;
            assert(s[i].name == n);
        } else if exists|i: int| 0 <= i < s.len() && #[trigger] s[i].name == n {
            let i = choose|i: int| 0 <= i < s.len() && #[trigger] s[i].name == n;
            assert(s.drop_last()[i].name == n);
        }
    }
}

/// With distinct names, each record is the mapping's value at its own name.
pub proof fn lemma_map_of_index(s: Seq<LinkModel>, i: int)
    requires
        wf_models(s),
        0 <= i < s.len(),
    ensures
        map_of(s).contains_key(s[i].name),
        map_of(s)[s[i].name] == s[i],
    decreases s.len(),
{
    if i == s.len() - 1 {
    } else {
        assert(wf_models(s.drop_last()));
        lemma_map_of_index(s.drop_last(), i);
        assert(s.drop_last()[i] == s[i]);
        assert(s[i].name != s.last().name);
    }
}

/// With distinct names, removing the record at `i` removes exactly its key.
pub proof fn lemma_map_of_remove(s: Seq<LinkModel>, i: int)
    requires
        wf_models(s),
        0 <= i < s.len(),
    ensures
        map_of(s.remove(i)) == map_of(s).remove(s[i].name),
    decreases s.len(),
{
    if i == s.len() - 1 {
        assert(s.remove(i) =~= s.drop_last());
        lemma_map_of_dom(s.drop_last(), s.last().name);
        assert(forall|j: int|
            0 <= j < s.drop_last().len() ==> #[trigger] s.drop_last()[j].name != s.last().name);
        assert(!map_of(s.drop_last()).contains_key(s.last().name));
        assert(map_of(s.drop_last()).insert(s.last().name, s.last()).remove(s.last().name)
            =~= map_of(s.drop_last()));
    } else {
        let t = s.remove(i);
        assert(t.drop_last() =~= s.drop_last().remove(i));
        assert(t.last() == s.last());
        assert(wf_models(s.drop_last()));
        lemma_map_of_remove(s.drop_last(), i);
        assert(s.drop_last()[i] == s[i]);
        assert(s[i].name != s.last().name);
        assert(map_of(s.drop_last()).remove(s[i].name).insert(s.last().name, s.last())
            =~= map_of(s.drop_last()).insert(s.last().name, s.last()).remove(s[i].name));
    }
}

/// The link directory: a collection of records with pairwise distinct,
/// non-empty names. Its model is the mapping from each name to its record.
pub struct LinkStore {
    links: Vec<Link>,
}

impl View for LinkStore {
    type V = Map<Seq<u8>, LinkModel>;

    closed spec fn view(&self) -> Map<Seq<u8>, LinkModel> {
        map_of(self.models())
    }
}

impl LinkStore {
    /// The stored records in their internal order.
    pub closed spec fn models(&self) -> Seq<LinkModel> {
        models_of(self.links@)
    }

    /// Validity: non-empty names, no two records under one name.
    pub open spec fn wf(&self) -> bool {
        wf_models(self.models())
    }

    /// The store's mapping is the fold of its record sequence.
    pub proof fn lemma_view_is_map_of_models(&self)
        ensures
            self@ == map_of(self.models()),
    {
    }

    /// An empty directory.
    pub fn new() -> (r: LinkStore)
        ensures
            r.wf(),
            r@ == Map::<Seq<u8>, LinkModel>::empty(),
            r.models() == Seq::<LinkModel>::empty(),
    {
        let r = LinkStore { links: Vec::new() };
        proof {
            assert(r.models() =~= Seq::<LinkModel>::empty());
        }
        r
    }

    /// Rebuild a directory from a record sequence, for restoring a snapshot.
    pub fn from_links(links: Vec<Link>) -> (r: LinkStore)
        requires
            wf_models(models_of(links@)),
        ensures
            r.wf(),
            r.models() == models_of(links@),
    {
        LinkStore { links }
    }

    /// The number of records held.
    pub fn len(&self) -> (n: usize)
        ensures
            n == self.models().len(),
    {
        self.links.len()
    }

    /// A copy of each stored record, in internal order.
    pub fn snapshot(&self) -> (r: Vec<Link>)
        ensures
            models_of(r@) == self.models(),
    {
        let mut r: Vec<Link> = Vec::new();
        let n: usize = self.links.len();
        let mut i: usize = 0;
        while i < n
            invariant
                n == self.links@.len(),
                i <= n,
                models_of(r@) =~= self.models().take(i as int),
            decreases n - i,
        {
            let ghost rpre = r@;
            let item = self.links[i].duplicate();
            let ghost im = item@;
            r.push(item);
            proof {
                assert(self.models().len() == self.links@.len());
                assert(models_of(rpre).len() == rpre.len());
                assert(rpre.len() == i);
                assert(r@ == rpre.push(r@.last()));
                assert(r@.last()@ == im);
                assert(im == self.models()[i as int]);
                assert forall|k: int| 0 <= k < r@.len() implies models_of(r@)[k]
                    == self.models().take(i + 1)[k] by {
                    assert(models_of(r@)[k] == r@[k]@);
                    if k < i {
                        assert(r@[k] == rpre[k]);
                        assert(models_of(rpre)[k] == self.models().take(i as int)[k]);
                    } else {
                        assert(r@[k] == r@.last());
                    }
                }
                assert(models_of(r@).len() == r@.len());
                assert(models_of(r@) =~= self.models().take(i + 1));
            }
            i = i + 1;
        }
        proof {
            assert(self.models().take(n as int) =~= self.models());
        }
        r
    }

    /// The index of the record named `name`, if one is held.
    fn find_index(&self, name: &[u8]) -> (r: Option<usize>)
        requires
            self.wf(),
        ensures
            match r {
                Some(i) => i < self.models().len() && self.models()[i as int].name == name@,
                None => forall|j: int|
                    0 <= j < self.models().len() ==> #[trigger] self.models()[j].name != name@,
            },
    {
        let n: usize = self.links.len();
        let mut i: usize = 0;
        while i < n
            invariant
                n == self.models().len(),
                n == self.links@.len(),
                i <= n,
                forall|j: int| 0 <= j < i ==> #[trigger] self.models()[j].name != name@,
            decreases n - i,
        {
            if bytes_eq(self.links[i].name.as_slice(), name) {
                assert(self.models()[i as int].name == name@);
                return Some(i);
            }
            i = i + 1;
        }
        None
    }

    /// Insert or replace: afterwards the record stands under its name, and
    /// every other entry is untouched. Upsert — it never fails.
    pub fn save(&mut self, link: Link)
        requires
            old(self).wf(),
            link@.name.len() > 0,
        ensures
            final(self).wf(),
            final(self)@ == old(self)@.insert(link@.name, link@),
    {
        let ghost pre = self.models();
        match self.find_index(link.name.as_slice()) {
            Some(i) => {
                proof {
                    lemma_map_of_remove(pre, i as int);
                }
                self.links.remove(i);
                proof {
                    assert(self.models() =~= pre.remove(i as int));
                    assert(forall|j: int|
                        0 <= j < self.models().len()
                            ==> #[trigger] self.models()[j].name != link@.name);
                }
                let ghost mid = self.models();
                self.links.push(link);
                proof {
                    assert(self.models() =~= mid.push(link@));
                    assert(self.models().drop_last() =~= mid);
                    assert(self@ == map_of(mid).insert(link@.name, link@));
                    assert(map_of(pre).remove(pre[i as int].name).insert(link@.name, link@)
                        =~= map_of(pre).insert(link@.name, link@));
                    assert(wf_models(self.models()));
                }
            },
            None => {
                self.links.push(link);
                proof {
                    assert(self.models() =~= pre.push(link@));
                    assert(self.models().drop_last() =~= pre);
                    assert(wf_models(self.models()));
                }
            },
        }
    }

    /// Remove the record named `name` if one is held; removing an absent name
    /// changes nothing. Either way the call succeeds.
    pub fn delete(&mut self, name: &[u8])
        requires
            old(self).wf(),
        ensures
            final(self).wf(),
            final(self)@ == old(self)@.remove(name@),
    {
        let ghost pre = self.models();
        match self.find_index(name) {
            Some(i) => {
                proof {
                    lemma_map_of_remove(pre, i as int);
                }
                self.links.remove(i);
                proof {
                    assert(self.models() =~= pre.remove(i as int));
                    assert(wf_models(self.models()));
                }
            },
            None => {
                proof {
                    lemma_map_of_dom(pre, name@);
                    assert(!map_of(pre).contains_key(name@));
                    assert(map_of(pre).remove(name@) =~= map_of(pre));
                }
            },
        }
    }
}

/// A later save under the same name replaces the earlier one: the mapping
/// afterwards is as if only the later save had happened, and the name holds
/// exactly the later record.
pub proof fn lemma_upsert(m: Map<Seq<u8>, LinkModel>, l1: LinkModel, l2: LinkModel)
    requires
        l1.name == l2.name,
    ensures
        m.insert(l1.name, l1).insert(l2.name, l2) == m.insert(l2.name, l2),
        m.insert(l1.name, l1).insert(l2.name, l2)[l2.name] == l2,
{
    assert(m.insert(l1.name, l1).insert(l2.name, l2) =~= m.insert(l2.name, l2));
}

/// Deleting an absent name is a harmless no-op on the mapping.
pub proof fn lemma_delete_absent(m: Map<Seq<u8>, LinkModel>, n: Seq<u8>)
    requires
        !m.contains_key(n),
    ensures
        m.remove(n) == m,
{
    assert(m.remove(n) =~= m);
}


/// In a well-formed collection each record occurs exactly once.
pub proof fn lemma_wf_count(s: Seq<LinkModel>, x: LinkModel)
    requires
        wf_models(s),
        s.contains(x),
    ensures
        s.to_multiset().count(x) == 1,
{
    broadcast use vstd::seq_lib::group_to_multiset_ensures;

    let k = choose|k: int| 0 <= k < s.len() && s[k] == x;
    assert(s.remove(k).to_multiset() =~= s.to_multiset().remove(x));
    assert(s.to_multiset().count(x) > 0);
    if s.to_multiset().count(x) != 1 {
        assert(s.remove(k).to_multiset().count(x) > 0);
        assert(s.remove(k).contains(x));
        let m = choose|m: int| 0 <= m < s.remove(k).len() && s.remove(k)[m] == x;
        s.remove_ensures(k);
        let k2: int = if m < k {
            m
        } else {
            m + 1
        };
        assert(s[k2] == x);
        assert(k2 != k);
        assert(s[k].name == s[k2].name);
        assert(false);
    }
}

/// Removing one record keeps a collection well-formed.
pub proof fn lemma_wf_remove(s: Seq<LinkModel>, k: int)
    requires
        wf_models(s),
        0 <= k < s.len(),
    ensures
        wf_models(s.remove(k)),
{
    let t = s.remove(k);
    s.remove_ensures(k);
    assert forall|a: int| 0 <= a < t.len() implies #[trigger] t[a].name.len() > 0 by {
        if a < k {
            assert(t[a] == s[a]);
        } else {
            assert(t[a] == s[a + 1]);
        }
    }
    assert forall|a: int, b: int|
        0 <= a < t.len() && 0 <= b < t.len() && a != b implies #[trigger] t[a].name
        != #[trigger] t[b].name by {
        let a0: int = if a < k {
            a
        } else {
            a + 1
        };
        let b0: int = if b < k {
            b
        } else {
            b + 1
        };
        assert(t[a] == s[a0]);
        assert(t[b] == s[b0]);
        assert(s[a0].name != s[b0].name);
    }
}

/// Two well-formed collections denoting the same mapping hold exactly the
/// same records.
pub proof fn lemma_equal_maps_equal_records(s1: Seq<LinkModel>, s2: Seq<LinkModel>)
    requires
        wf_models(s1),
        wf_models(s2),
        map_of(s1) == map_of(s2),
    ensures
        s1.to_multiset() == s2.to_multiset(),
    decreases s1.len(),
{
    broadcast use vstd::seq_lib::group_to_multiset_ensures;
    broadcast use vstd::multiset::group_multiset_axioms;

    if s1.len() == 0 {
        if s2.len() > 0 {
            lemma_map_of_dom(s1, s2[0].name);
            lemma_map_of_dom(s2, s2[0].name);
            assert(false);
        }
        assert(s1.to_multiset() =~= s2.to_multiset());
    } else {
        let i1 = s1.len() - 1;
        let x = s1[i1];
        lemma_map_of_index(s1, i1);
        lemma_map_of_dom(s1, x.name);
        lemma_map_of_dom(s2, x.name);
        let k = choose|k: int| 0 <= k < s2.len() && #[trigger] s2[k].name == x.name;
        lemma_map_of_index(s2, k);
        assert(s2[k] == x);
        lemma_map_of_remove(s1, i1);
        lemma_map_of_remove(s2, k);
        lemma_wf_remove(s1, i1);
        lemma_wf_remove(s2, k);
        lemma_equal_maps_equal_records(s1.remove(i1), s2.remove(k));
        assert(s1.remove(i1).to_multiset() =~= s1.to_multiset().remove(x));
        assert(s2.remove(k).to_multiset() =~= s2.to_multiset().remove(x));
        lemma_wf_count(s1, x);
        assert(s2.contains(x));
        lemma_wf_count(s2, x);
        assert forall|y: LinkModel| s1.to_multiset().count(y) == s2.to_multiset().count(
            y,
        ) by {
            if y != x {
                assert(s1.to_multiset().remove(x).count(y) == s1.to_multiset().count(y));
                assert(s2.to_multiset().remove(x).count(y) == s2.to_multiset().count(y));
            }
        }
        assert(s1.to_multiset() =~= s2.to_multiset());
    }
}

} // verus!
