use vstd::prelude::*;

use crate::codec::enc_store;
use crate::codec::encode_store;
use crate::json::decode_request;
use crate::json::sp_request;
use crate::json::LinkRequest;
use crate::json::LinkRequestModel;
use crate::link::LinkModel;
use crate::render::render_page;
use crate::render::rendered_page;
use crate::store::LinkStore;

verus! {

/// What the service answers an inbound HTTP request with.
#[derive(Clone, Copy, Debug, PartialEq, Eq, Structural)]
pub enum Reply {
    /// 201 with an empty body: a mutation was decoded and applied.
    Created,
    /// 200: serve the persisted page.
    Page,
    /// 405: the method is neither GET nor POST.
    MethodNotAllowed,
    /// No response at all: a POST without a decodable body is dropped.
    Dropped,
}

/// The result of one dispatched request: the reply to send, and, after a
/// mutation, the refreshed durable artifacts that must both be written
/// before the reply is sent.
pub struct Outcome {
    pub reply: Reply,
    /// The durable state blob of the mutated directory.
    pub state: Option<Vec<u8>>,
    /// The rendered page of the mutated directory.
    pub html: Option<Vec<u8>>,
}

/// The bytes of the HTTP method token `GET`.
pub open spec fn is_get(m: Seq<u8>) -> bool {
    m == seq![0x47u8, 0x45u8, 0x54u8]
}

/// The bytes of the HTTP method token `POST`.
pub open spec fn is_post(m: Seq<u8>) -> bool {
    m == seq![0x50u8, 0x4fu8, 0x53u8, 0x54u8]
}

/// A request the store accepts: a save needs a non-empty name; a deletion
/// is always accepted, an absent name included.
pub open spec fn accepted(req: LinkRequestModel) -> bool {
    match req {
        LinkRequestModel::Save(l) => l.name.len() > 0,
        LinkRequestModel::Delete { name } => true,
    }
}

/// The mapping after a request is applied: upsert under the record's name,
/// or removal of the named entry.
pub open spec fn apply_request(
    m: Map<Seq<u8>, LinkModel>,
    req: LinkRequestModel,
) -> Map<Seq<u8>, LinkModel> {
    match req {
        LinkRequestModel::Save(l) => m.insert(l.name, l),
        LinkRequestModel::Delete { name } => m.remove(name),
    }
}

/// What one request does: the reply sent and the mapping afterwards.
/// GET serves the page and mutates nothing; POST applies its decoded body,
/// and is dropped without effect when the body is absent, undecodable, or a
/// save without a name; any other method is refused.
pub open spec fn spec_dispatch(
    method: Seq<u8>,
    body: Option<Seq<u8>>,
    m: Map<Seq<u8>, LinkModel>,
) -> (Reply, Map<Seq<u8>, LinkModel>) {
    if is_get(method) {
        (Reply::Page, m)
    } else if is_post(method) {
        match body {
            None => (Reply::Dropped, m),
            Some(bb) => match sp_request(bb) {
                None => (Reply::Dropped, m),
                Some(req) => if accepted(req) {
                    (Reply::Created, apply_request(m, req))
                } else {
                    (Reply::Dropped, m)
                },
            },
        }
    } else {
        (Reply::MethodNotAllowed, m)
    }
}

/// True when `m` is the method token `GET`.
fn method_is_get(m: &[u8]) -> (r: bool)
    ensures
        r == is_get(m@),
{
    if m.len() == 3 && m[0] == 0x47 && m[1] == 0x45 && m[2] == 0x54 {
        proof {
            assert(m@ =~= seq![0x47u8, 0x45u8, 0x54u8]);
        }
        true
    } else {
        false
    }
}

/// True when `m` is the method token `POST`.
fn method_is_post(m: &[u8]) -> (r: bool)
    ensures
        r == is_post(m@),
{
    if m.len() == 4 && m[0] == 0x50 && m[1] == 0x4f && m[2] == 0x53 && m[3] == 0x54 {
        proof {
            assert(m@ =~= seq![0x50u8, 0x4fu8, 0x53u8, 0x54u8]);
        }
        true
    } else {
        false
    }
}

/// Dispatch one inbound HTTP request against the directory.
///
/// The directory afterwards and the reply are exactly `spec_dispatch`; after
/// a mutation, and only then, the outcome carries the refreshed durable
/// state blob and rendered page of the directory afterwards.
pub fn handle_request(method: &[u8], body: Option<&Vec<u8>>, store: &mut LinkStore) -> (r: Outcome)
    requires
        old(store).wf(),
    ensures
        final(store).wf(),
        ({
            let (rep, m2) = spec_dispatch(
                method@,
                match body {
                    Some(bb) => Some(bb@),
                    None => None,
                },
                old(store)@,
            );
            r.reply == rep && final(store)@ == m2
        }),
        r.reply is Created ==> (match r.state {
            Some(st) => st@ == enc_store(final(store).models()),
            None => false,
        }) && (match r.html {
            Some(h) => h@ == rendered_page(final(store).models()),
            None => false,
        }),
        !(r.reply is Created) ==> r.state is None && r.html is None,
{
    if method_is_get(method) {
        return Outcome { reply: Reply::Page, state: None, html: None };
    }
    if !method_is_post(method) {
        return Outcome { reply: Reply::MethodNotAllowed, state: None, html: None };
    }
    let bb = match body {
        None => { return Outcome { reply: Reply::Dropped, state: None, html: None }; },
        Some(bb) => bb,
    };
    let req = match decode_request(bb.as_slice()) {
        None => { return Outcome { reply: Reply::Dropped, state: None, html: None }; },
        Some(req) => req,
    };
    match req {
        LinkRequest::Save(link) => {
            if link.name.len() == 0 {
                return Outcome { reply: Reply::Dropped, state: None, html: None };
            }
            store.save(link);
        },
        LinkRequest::Delete { name } => {
            store.delete(name.as_slice());
        },
    }
    let state = encode_store(store);
    let html = render_page(store);
    Outcome { reply: Reply::Created, state: Some(state), html: Some(html) }
}

} // verus!
