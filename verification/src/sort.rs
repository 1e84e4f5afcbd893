use vstd::prelude::*;

use vstd::multiset::Multiset;
use vstd::relations::sorted_by;
use vstd::relations::total_ordering;
use vstd::seq_lib::group_to_multiset_ensures;
use vstd::seq_lib::lemma_multiset_commutative;
use vstd::seq_lib::lemma_sorted_unique;

use crate::link::Link;
use crate::link::LinkModel;
use crate::store::models_of;
use crate::store::LinkStore;

verus! {

/// Lexicographic order on byte sequences.
pub open spec fn lex_le(a: Seq<u8>, b: Seq<u8>) -> bool
    decreases a.len(),
{
    if a.len() == 0 {
        true
    } else if b.len() == 0 {
        false
    } else if a[0] < b[0] {
        true
    } else if a[0] > b[0] {
        false
    } else {
        lex_le(a.drop_first(), b.drop_first())
    }
}

/// `lex_le` is reflexive.
pub proof fn lemma_lex_le_refl(a: Seq<u8>)
    ensures
        lex_le(a, a),
    decreases a.len(),
{
    if a.len() > 0 {
        lemma_lex_le_refl(a.drop_first());
    }
}

/// `lex_le` is reflexive, connected, and antisymmetric.
pub proof fn lemma_lex_le_props(a: Seq<u8>, b: Seq<u8>)
    ensures
        lex_le(a, a),
        lex_le(a, b) || lex_le(b, a),
        lex_le(a, b) && lex_le(b, a) ==> a == b,
    decreases a.len(),
{
    lemma_lex_le_refl(a);
    if a.len() > 0 && b.len() > 0 && a[0] == b[0] {
        lemma_lex_le_props(a.drop_first(), b.drop_first());
        if lex_le(a, b) && lex_le(b, a) {
            assert(a.drop_first() == b.drop_first());
            assert(a =~= b) by {
                assert(forall|i: int| 1 <= i < a.len() ==> a[i] == a.drop_first()[i - 1]);
                assert(forall|i: int| 1 <= i < b.len() ==> b[i] == b.drop_first()[i - 1]);
            }
        }
    }
}

/// `lex_le` is transitive.
pub proof fn lemma_lex_le_trans(a: Seq<u8>, b: Seq<u8>, c: Seq<u8>)
    ensures
        lex_le(a, b) && lex_le(b, c) ==> lex_le(a, c),
    decreases a.len(),
{
    if a.len() > 0 && b.len() > 0 && c.len() > 0 && a[0] == b[0] && b[0] == c[0] {
        lemma_lex_le_trans(a.drop_first(), b.drop_first(), c.drop_first());
    }
}

/// The rendering order of records: ascending sort key, ties broken by name,
/// then by the remaining fields so that the relation is a total order.
pub open spec fn link_le(a: LinkModel, b: LinkModel) -> bool {
    if a.order != b.order {
        a.order < b.order
    } else if a.name != b.name {
        lex_le(a.name, b.name)
    } else if a.url != b.url {
        lex_le(a.url, b.url)
    } else if a.image != b.image {
        lex_le(a.image, b.image)
    } else {
        lex_le(a.description, b.description)
    }
}

/// `link_le` as a first-class relation.
pub open spec fn link_le_f() -> spec_fn(LinkModel, LinkModel) -> bool {
    |a: LinkModel, b: LinkModel| link_le(a, b)
}

/// `link_le` is reflexive, connected, and antisymmetric.
pub proof fn lemma_link_le_props(a: LinkModel, b: LinkModel)
    ensures
        link_le(a, a),
        link_le(a, b) || link_le(b, a),
        link_le(a, b) && link_le(b, a) ==> a == b,
{
    lemma_lex_le_props(a.name, b.name);
    lemma_lex_le_props(a.url, b.url);
    lemma_lex_le_props(a.image, b.image);
    lemma_lex_le_props(a.description, b.description);
}

/// `link_le` is transitive.
pub proof fn lemma_link_le_trans(a: LinkModel, b: LinkModel, c: LinkModel)
    ensures
        link_le(a, b) && link_le(b, c) ==> link_le(a, c),
{
    lemma_lex_le_props(a.name, b.name);
    lemma_lex_le_props(b.name, c.name);
    lemma_lex_le_props(a.url, b.url);
    lemma_lex_le_props(b.url, c.url);
    lemma_lex_le_props(a.image, b.image);
    lemma_lex_le_props(b.image, c.image);
    lemma_lex_le_props(a.description, b.description);
    lemma_lex_le_props(b.description, c.description);
    lemma_lex_le_trans(a.name, b.name, c.name);
    lemma_lex_le_trans(a.url, b.url, c.url);
    lemma_lex_le_trans(a.image, b.image, c.image);
    lemma_lex_le_trans(a.description, b.description, c.description);
}

/// The rendering order is a total order on records.
pub proof fn lemma_link_le_total_ordering()
    ensures
        total_ordering(link_le_f()),
{
    let f = link_le_f();
    assert forall|x: LinkModel| #[trigger] f(x, x) by {
        lemma_link_le_props(x, x);
    }
    assert forall|x: LinkModel, y: LinkModel| #[trigger] f(x, y) || #[trigger] f(y, x) by {
        lemma_link_le_props(x, y);
    }
    assert forall|x: LinkModel, y: LinkModel| #[trigger] f(x, y) && #[trigger] f(y, x) implies x
        == y by {
        lemma_link_le_props(x, y);
    }
    assert forall|x: LinkModel, y: LinkModel, z: LinkModel|
        #[trigger] f(x, y) && #[trigger] f(y, z) implies f(x, z) by {
        lemma_link_le_trans(x, y, z);
    }
}

/// The canonical rendering order of a record sequence: its unique sorting
/// under `link_le`.
pub open spec fn render_order(s: Seq<LinkModel>) -> Seq<LinkModel> {
    s.sort_by(link_le_f())
}

/// Inserting an element anywhere in a sequence adds it to the multiset.
proof fn lemma_seq_insert_to_multiset(s: Seq<LinkModel>, i: int, x: LinkModel)
    requires
        0 <= i <= s.len(),
    ensures
        s.insert(i, x).to_multiset() == s.to_multiset().insert(x),
{
    broadcast use group_to_multiset_ensures;
    broadcast use lemma_multiset_commutative;

    let a = s.subrange(0, i);
    let b = s.subrange(i, s.len() as int);
    assert(s.insert(i, x) == a.push(x) + b);
    assert(a + b =~= s);
    assert(s.insert(i, x).to_multiset() =~= a.to_multiset().insert(x).add(b.to_multiset()));
    assert(a.to_multiset().insert(x).add(b.to_multiset()) =~= a.to_multiset().add(
        b.to_multiset(),
    ).insert(x));
}

/// True when `a` precedes `b` in the rendering order.
fn link_before(a: &Link, b: &Link) -> (r: bool)
    ensures
        r == link_le(a@, b@),
{
    if a.order != b.order {
        a.order < b.order
    } else if !crate::store::bytes_eq(a.name.as_slice(), b.name.as_slice()) {
        lex_le_exec(a.name.as_slice(), b.name.as_slice())
    } else if !crate::store::bytes_eq(a.url.as_slice(), b.url.as_slice()) {
        lex_le_exec(a.url.as_slice(), b.url.as_slice())
    } else if !crate::store::bytes_eq(a.image.as_slice(), b.image.as_slice()) {
        lex_le_exec(a.image.as_slice(), b.image.as_slice())
    } else {
        lex_le_exec(a.description.as_slice(), b.description.as_slice())
    }
}

/// Byte-wise lexicographic comparison.
fn lex_le_exec(a: &[u8], b: &[u8]) -> (r: bool)
    ensures
        r == lex_le(a@, b@),
{
    let mut i: usize = 0;
    proof {
        assert(a@.skip(0) =~= a@);
        assert(b@.skip(0) =~= b@);
    }
    while i < a.len() && i < b.len()
        invariant
            i <= a@.len(),
            i <= b@.len(),
            lex_le(a@, b@) == lex_le(a@.skip(i as int), b@.skip(i as int)),
        decreases a@.len() - i,
    {
        let x = a[i];
        let y = b[i];
        proof {
            assert(a@.skip(i as int)[0] == a@[i as int]);
            assert(b@.skip(i as int)[0] == b@[i as int]);
        }
        if x < y {
            return true;
        }
        if x > y {
            return false;
        }
        proof {
            assert(a@.skip(i as int).drop_first() =~= a@.skip(i + 1));
            assert(b@.skip(i as int).drop_first() =~= b@.skip(i + 1));
        }
        i = i + 1;
    }
    if i == a.len() {
        assert(a@.skip(i as int).len() == 0);
        true
    } else {
        assert(b@.skip(i as int).len() == 0);
        assert(a@.skip(i as int).len() > 0);
        false
    }
}

/// The position before which `l` belongs in the sorted `v`.
fn insert_pos(v: &Vec<Link>, l: &Link) -> (pos: usize)
    ensures
        pos <= v@.len(),
        forall|j: int| 0 <= j < pos ==> !link_le(l@, #[trigger] models_of(v@)[j]),
        pos < v@.len() ==> link_le(l@, models_of(v@)[pos as int]),
{
    let mut pos: usize = 0;
    while pos < v.len()
        invariant
            pos <= v@.len(),
            forall|j: int| 0 <= j < pos ==> !link_le(l@, #[trigger] models_of(v@)[j]),
        decreases v@.len() - pos,
    {
        if link_before(l, &v[pos]) {
            return pos;
        }
        pos = pos + 1;
    }
    pos
}

/// Insert `l` into the sorted `v`, keeping it sorted and adding one record.
fn insert_link(v: &mut Vec<Link>, l: Link)
    requires
        sorted_by(models_of(old(v)@), link_le_f()),
    ensures
        sorted_by(models_of(final(v)@), link_le_f()),
        models_of(final(v)@).to_multiset() == models_of(old(v)@).to_multiset().insert(l@),
{
    let ghost pre = models_of(v@);
    let ghost lm = l@;
    let pos = insert_pos(v, &l);
    v.insert(pos, l);
    proof {
        let post = models_of(v@);
        pre.insert_ensures(pos as int, lm);
        assert(post =~= pre.insert(pos as int, lm));
        lemma_seq_insert_to_multiset(pre, pos as int, lm);
        let f = link_le_f();
        assert forall|j: int| 0 <= j < pos implies #[trigger] f(pre[j], lm) by {
            lemma_link_le_props(lm, pre[j]);
        }
        assert forall|k: int| pos <= k < pre.len() implies #[trigger] f(lm, pre[k]) by {
            if k > pos {
                assert(f(pre[pos as int], pre[k]));
                lemma_link_le_trans(lm, pre[pos as int], pre[k]);
            }
        }
        assert forall|i: int, j: int| 0 <= i < j < post.len() implies #[trigger] f(
            post[i],
            post[j],
        ) by {
            if j < pos {
                assert(post[i] == pre[i] && post[j] == pre[j]);
                assert(f(pre[i], pre[j]));
            } else if j == pos {
                assert(post[i] == pre[i] && post[j] == lm);
                assert(f(pre[i], lm));
            } else if i < pos {
                assert(post[i] == pre[i] && post[j] == pre[j - 1]);
                assert(f(pre[i], pre[j - 1]));
            } else if i == pos {
                assert(post[i] == lm && post[j] == pre[j - 1]);
                assert(f(lm, pre[j - 1]));
            } else {
                assert(post[i] == pre[i - 1] && post[j] == pre[j - 1]);
                assert(f(pre[i - 1], pre[j - 1]));
            }
        }
    }
}

/// A copy of the directory's records in the canonical rendering order.
pub fn sorted_links(store: &LinkStore) -> (r: Vec<Link>)
    ensures
        models_of(r@) == render_order(store.models()),
{
    let v = store.snapshot();
    let ghost vm = models_of(v@);
    let mut r: Vec<Link> = Vec::new();
    let mut i: usize = v.len();
    proof {
        broadcast use group_to_multiset_ensures;

        assert(vm.skip(i as int) =~= Seq::<LinkModel>::empty());
        assert(models_of(r@) =~= Seq::<LinkModel>::empty());
        assert(Seq::<LinkModel>::empty().to_multiset() =~= Multiset::<LinkModel>::empty());
    }
    while i > 0
        invariant
            i <= vm.len(),
            vm == models_of(v@),
            vm.len() == v@.len(),
            sorted_by(models_of(r@), link_le_f()),
            models_of(r@).to_multiset() == vm.skip(i as int).to_multiset(),
        decreases i,
    {
        i = i - 1;
        let item = v[i].duplicate();
        let ghost im = item@;
        insert_link(&mut r, item);
        proof {
            broadcast use group_to_multiset_ensures;
            broadcast use lemma_multiset_commutative;

            assert(im == vm[i as int]);
            assert(vm.skip(i as int) =~= seq![vm[i as int]] + vm.skip(i + 1));
            assert(seq![vm[i as int]].to_multiset() =~= Multiset::<LinkModel>::empty().insert(
                vm[i as int],
            ));
            assert(vm.skip(i as int).to_multiset() =~= vm.skip(i + 1).to_multiset().insert(
                vm[i as int],
            ));
        }
    }
    proof {
        assert(vm.skip(0) =~= vm);
        lemma_link_le_total_ordering();
        vm.lemma_sort_by_ensures(link_le_f());
        lemma_sorted_unique(models_of(r@), render_order(vm), link_le_f());
        assert(models_of(r@) =~= render_order(store.models()));
    }
    r
}


/// Two positions of `r` correspond to two distinct positions of `s` when
/// both sequences hold the same records.
proof fn lemma_multiset_two_indices(r: Seq<LinkModel>, s: Seq<LinkModel>, i: int, j: int)
    requires
        r.to_multiset() == s.to_multiset(),
        0 <= i < j < r.len(),
    ensures
        exists|k1: int, k2: int|
            0 <= k1 < s.len() && 0 <= k2 < s.len() && k1 != k2 && s[k1] == r[i] && s[k2] == r[j],
{
    broadcast use group_to_multiset_ensures;

    let x = r[i];
    let y = r[j];
    assert(r.to_multiset().contains(x)) by {
        assert(r.contains(x));
    }
    assert(s.contains(x));
    let k1 = choose|k: int| 0 <= k < s.len() && s[k] == x;
    assert(r.remove(i).to_multiset() =~= r.to_multiset().remove(x));
    assert(r.remove(i).contains(y)) by {
        r.remove_ensures(i);
        assert(r.remove(i)[j - 1] == y);
    }
    assert(r.remove(i).to_multiset().count(y) > 0);
    assert(s.remove(k1).to_multiset() =~= s.to_multiset().remove(x));
    assert(s.remove(k1).to_multiset().count(y) > 0);
    assert(s.remove(k1).contains(y));
    let m = choose|k: int| 0 <= k < s.remove(k1).len() && s.remove(k1)[k] == y;
    s.remove_ensures(k1);
    let k2: int = if m < k1 {
        m
    } else {
        m + 1
    };
    assert(s[k2] == y);
    assert(0 <= k1 < s.len() && 0 <= k2 < s.len() && k1 != k2 && s[k1] == r[i] && s[k2] == r[j]);
}

/// With pairwise distinct sort keys, the canonical rendering order lists the
/// records by strictly ascending `order`, whatever order they were held in.
pub proof fn lemma_distinct_orders_ascending(s: Seq<LinkModel>)
    requires
        forall|i: int, j: int|
            0 <= i < s.len() && 0 <= j < s.len() && i != j ==> (#[trigger] s[i]).order
                != (#[trigger] s[j]).order,
    ensures
        forall|i: int, j: int|
            0 <= i < j < render_order(s).len() ==> (#[trigger] render_order(s)[i]).order < (
            #[trigger] render_order(s)[j]).order,
{
    lemma_link_le_total_ordering();
    s.lemma_sort_by_ensures(link_le_f());
    let r = render_order(s);
    assert forall|i: int, j: int| 0 <= i < j < r.len() implies (#[trigger] r[i]).order < (
    #[trigger] r[j]).order by {
        assert(link_le_f()(r[i], r[j]));
        assert(link_le(r[i], r[j]));
        lemma_multiset_two_indices(r, s, i, j);
        let (k1, k2) = choose|k1: int, k2: int|
            0 <= k1 < s.len() && 0 <= k2 < s.len() && k1 != k2 && s[k1] == r[i] && s[k2] == r[j];
        assert(s[k1].order != s[k2].order);
        assert(r[i].order != r[j].order);
    }
}

} // verus!
