use vstd::prelude::*;

use vstd::seq_lib::lemma_sorted_unique;
use vstd::utf8::encode_utf8;

use crate::link::Link;
use crate::link::LinkModel;
use crate::sort::lemma_link_le_total_ordering;
use crate::sort::link_le_f;
use crate::sort::render_order;
use crate::sort::sorted_links;
use crate::store::lemma_equal_maps_equal_records;
use crate::store::map_of;
use crate::store::models_of;
use crate::store::wf_models;
use crate::store::LinkStore;

verus! {

/// The bytes of a string literal.
pub open spec fn lit_bytes(s: &str) -> Seq<u8> {
    encode_utf8(s@)
}

/// Append the bytes of `s` to `out`.
pub fn push_bytes(out: &mut Vec<u8>, s: &[u8])
    ensures
        final(out)@ == old(out)@ + s@,
{
    let ghost pre = out@;
    let n: usize = s.len();
    let mut i: usize = 0;
    while i < n
        invariant
            n == s@.len(),
            i <= n,
            out@ == pre + s@.take(i as int),
        decreases n - i,
    {
        out.push(s[i]);
        proof {
            assert(out@ =~= pre + s@.take(i + 1));
        }
        i = i + 1;
    }
    proof {
        assert(s@.take(n as int) =~= s@);
    }
}

/// Append the bytes of a string to `out`.
pub fn push_lit(out: &mut Vec<u8>, s: &str)
    ensures
        final(out)@ == old(out)@ + lit_bytes(s),
{
    push_bytes(out, s.as_bytes());
}

/// Everything of the page before the link list.
pub open spec fn page_prefix() -> Seq<u8> {
    lit_bytes(
        "<!DOCTYPE html><html><head><meta charset=\"utf-8\"><title>Links</title></head><body><h1>Links</h1><div id=\"links\">",
    )
}

/// Everything of the page after the link list, the delete script included.
pub open spec fn page_suffix() -> Seq<u8> {
    lit_bytes(
        "</div><script>function deleteLink(name){fetch('/post',{method:'POST',body:JSON.stringify({Delete:{name:name}})}).then(function(){location.reload()})}</script></body></html>",
    )
}

/// The note shown in place of the list while no links are held.
pub open spec fn empty_note() -> Seq<u8> {
    lit_bytes("<p>No links yet.</p>")
}

/// One card of the list: the record's target, thumbnail, name, description
/// and a delete control addressed by its name.
pub open spec fn card_bytes(l: LinkModel) -> Seq<u8> {
    lit_bytes("<a href=\"") + l.url + lit_bytes("\" target=\"_blank\" class=\"link-card\"><img src=\"")
        + l.image + lit_bytes("\"><div><h3>") + l.name + lit_bytes("</h3><p>") + l.description
        + lit_bytes("</p></div><button onclick=\"deleteLink('") + l.name + lit_bytes(
        "')\">Delete</button></a>",
    )
}

/// The cards of all records, in the order given.
pub open spec fn cards_bytes(s: Seq<LinkModel>) -> Seq<u8>
    decreases s.len(),
{
    if s.len() == 0 {
        Seq::empty()
    } else {
        card_bytes(s[0]) + cards_bytes(s.drop_first())
    }
}

/// Appending a record at the end appends its card at the end.
proof fn lemma_cards_bytes_push(s: Seq<LinkModel>, x: LinkModel)
    ensures
        cards_bytes(s.push(x)) == cards_bytes(s) + card_bytes(x),
    decreases s.len(),
{
    if s.len() == 0 {
        assert(s.push(x)[0] == x);
        assert(s.push(x).drop_first() =~= Seq::<LinkModel>::empty());
        assert(cards_bytes(Seq::<LinkModel>::empty()) == Seq::<u8>::empty());
        assert(cards_bytes(s.push(x)) == card_bytes(x) + Seq::<u8>::empty());
        assert(cards_bytes(s) == Seq::<u8>::empty());
        assert(card_bytes(x) + Seq::<u8>::empty() =~= Seq::<u8>::empty() + card_bytes(x));
    } else {
        assert(s.push(x).drop_first() =~= s.drop_first().push(x));
        assert(s.push(x)[0] == s[0]);
        lemma_cards_bytes_push(s.drop_first(), x);
        assert(cards_bytes(s.push(x)) == card_bytes(s[0]) + (cards_bytes(s.drop_first())
            + card_bytes(x)));
        assert(card_bytes(s[0]) + (cards_bytes(s.drop_first()) + card_bytes(x)) =~= (card_bytes(
            s[0],
        ) + cards_bytes(s.drop_first())) + card_bytes(x));
    }
}

/// The full page for records in the order given: prefix, link list or empty
/// note, suffix.
pub open spec fn page_bytes(s: Seq<LinkModel>) -> Seq<u8> {
    page_prefix() + (if s.len() == 0 {
        empty_note()
    } else {
        cards_bytes(s)
    }) + page_suffix()
}

/// The page rendered for a record collection: its records in the canonical
/// rendering order, laid into the fixed template.
pub open spec fn rendered_page(models: Seq<LinkModel>) -> Seq<u8> {
    page_bytes(render_order(models))
}

/// Append one record's card.
fn push_card(out: &mut Vec<u8>, l: &Link)
    ensures
        final(out)@ == old(out)@ + card_bytes(l@),
{
    push_lit(out, "<a href=\"");
    push_bytes(out, l.url.as_slice());
    push_lit(out, "\" target=\"_blank\" class=\"link-card\"><img src=\"");
    push_bytes(out, l.image.as_slice());
    push_lit(out, "\"><div><h3>");
    push_bytes(out, l.name.as_slice());
    push_lit(out, "</h3><p>");
    push_bytes(out, l.description.as_slice());
    push_lit(out, "</p></div><button onclick=\"deleteLink('");
    push_bytes(out, l.name.as_slice());
    push_lit(out, "')\">Delete</button></a>");
    proof {
        assert(out@ =~= old(out)@ + card_bytes(l@));
    }
}

/// Render the directory into a complete HTML page. The result is a pure
/// function of the held records: the same snapshot always renders to the
/// byte-identical document.
pub fn render_page(store: &LinkStore) -> (r: Vec<u8>)
    ensures
        r@ == rendered_page(store.models()),
{
    let links = sorted_links(store);
    let ghost ms = models_of(links@);
    let mut out: Vec<u8> = Vec::new();
    push_lit(&mut out, "<!DOCTYPE html><html><head><meta charset=\"utf-8\"><title>Links</title></head><body><h1>Links</h1><div id=\"links\">");
    proof {
        assert(out@ =~= page_prefix());
    }
    if links.len() == 0 {
        push_lit(&mut out, "<p>No links yet.</p>");
    } else {
        let n: usize = links.len();
        let mut i: usize = 0;
        proof {
            assert(ms.take(0) =~= Seq::<LinkModel>::empty());
            assert(out@ =~= page_prefix() + cards_bytes(ms.take(0)));
        }
        while i < n
            invariant
                n == links@.len(),
                n == ms.len(),
                ms == models_of(links@),
                i <= n,
                out@ == page_prefix() + cards_bytes(ms.take(i as int)),
            decreases n - i,
        {
            push_card(&mut out, &links[i]);
            proof {
                assert(ms.take(i + 1) =~= ms.take(i as int).push(ms[i as int]));
                lemma_cards_bytes_push(ms.take(i as int), ms[i as int]);
                assert(out@ =~= page_prefix() + cards_bytes(ms.take(i + 1)));
            }
            i = i + 1;
        }
        proof {
            assert(ms.take(n as int) =~= ms);
        }
    }
    push_lit(&mut out, "</div><script>function deleteLink(name){fetch('/post',{method:'POST',body:JSON.stringify({Delete:{name:name}})}).then(function(){location.reload()})}</script></body></html>");
    proof {
        assert(out@ =~= page_bytes(ms));
    }
    out
}

/// The page depends only on which records are held: two collections with the
/// same records render to byte-identical documents, whatever order either
/// collection arrived in.
pub proof fn lemma_render_canonical(s1: Seq<LinkModel>, s2: Seq<LinkModel>)
    requires
        s1.to_multiset() == s2.to_multiset(),
    ensures
        rendered_page(s1) == rendered_page(s2),
{
    lemma_link_le_total_ordering();
    s1.lemma_sort_by_ensures(link_le_f());
    s2.lemma_sort_by_ensures(link_le_f());
    lemma_sorted_unique(render_order(s1), render_order(s2), link_le_f());
    assert(render_order(s1) =~= render_order(s2));
}


/// Rendering is a pure function of the snapshot: two well-formed
/// collections denoting the same name-to-record mapping render to the
/// byte-identical document, whatever order either held its records in.
pub proof fn lemma_render_pure_in_mapping(s1: Seq<LinkModel>, s2: Seq<LinkModel>)
    requires
        wf_models(s1),
        wf_models(s2),
        map_of(s1) == map_of(s2),
    ensures
        rendered_page(s1) == rendered_page(s2),
{
    lemma_equal_maps_equal_records(s1, s2);
    lemma_render_canonical(s1, s2);
}

} // verus!
