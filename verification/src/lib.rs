//! A patch-application engine for a virtual view tree.
//!
//! The engine consumes transactions (batches of patches keyed by virtual-node
//! id) computed by an external differ, and applies them to a document model:
//! it materializes view subtrees as nodes, keeps a bijective identity map
//! between ids and nodes, reorders keyed children, applies property diffs,
//! and maintains a reference-counted event-delegation table so that one
//! native listener per event name serves every subscribed node.

pub mod decimal;
pub mod prop;
pub mod json;
pub mod raw_view;
pub mod dom;
pub mod nodes_ids;
pub mod dom_event;
pub mod events;
pub mod to_html_string;
pub mod transaction;
pub mod patcher;

pub use decimal::{int_to_string, u64_to_string, usize_to_string};
pub use prop::{Prop, PropM, Props, PropsM};
pub use json::to_json_string;
pub use raw_view::{view_id, RawView, ViewM};
pub use dom::{Dom, DomM, DomNode, NodeM, NodeRef};
pub use nodes_ids::{NodesIds, NodesIdsInner};
pub use dom_event::DOMEvent;
pub use events::Events;
pub use to_html_string::ToHtmlString;
pub use transaction::{Order, Patch, Transaction};
pub use patcher::{PatchError, Patcher};
