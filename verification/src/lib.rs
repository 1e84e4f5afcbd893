//! A small verified link-directory library.
//!
//! The library keeps a collection of link records keyed by name, renders the
//! collection into a static HTML page, decodes mutation requests from JSON
//! bodies, and encodes the collection into a durable byte blob that restores
//! exactly. All text is handled as raw bytes.

pub mod codec;
pub mod dispatch;
pub mod json;
pub mod link;
pub mod render;
pub mod sort;
pub mod store;

pub use codec::decode_store;
pub use codec::encode_store;
pub use dispatch::handle_request;
pub use dispatch::Outcome;
pub use dispatch::Reply;
pub use json::decode_request;
pub use json::LinkRequest;
pub use link::Link;
pub use link::LinkModel;
pub use render::render_page;
pub use sort::sorted_links;
pub use store::LinkStore;
