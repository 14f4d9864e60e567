//! Verified core of a Yew renderer for the Lynx host runtime.
//!
//! The crate holds the decision logic of the renderer and of its host
//! bindings: CSS token streams, host-handle conventions, keyed child-list
//! reconciliation, the lifecycle scheduler, listener bookkeeping and the
//! inline-image data URL encoder. Host calls themselves live outside.

pub mod css;
pub mod host_buffer;
pub mod binding;
pub mod key;
pub mod reconcile;
pub mod scheduler;
pub mod extern_ref;
pub mod vdom;
pub mod blist;
pub mod timers;
pub mod inline_image;
pub mod attributes;
pub mod listeners;
pub mod suspense;
pub mod subtree;
pub mod position;
pub mod css_syntax;
pub mod lifecycle;
pub mod suspense_bundle;
pub mod node_match;
pub mod namespaces;
pub mod list_order;
pub mod list_moves;
pub mod tag_bundle;
