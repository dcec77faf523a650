//! Outbound relay selection for a nostr client.
//!
//! Given a signed event, the library decides to which relays the event is to
//! be sent: the relays the local operator writes to, joined with the best
//! read relays of everybody the event tags, less the relays the event was
//! already seen on. The stores that the decision consults (relay registry,
//! routing oracle, seen-on ledger) are held in memory and are part of the
//! library's model.

pub mod error;
pub mod event;
pub mod globals;
pub mod ledger;
pub mod oracle;
pub mod order;
pub mod registry;
pub mod relay;
pub mod selector;
pub mod url;
pub mod url_set;

pub use crate::error::Error;
pub use crate::event::Event;
pub use crate::event::Id;
pub use crate::event::PublicKey;
pub use crate::event::Tag;
pub use crate::event::Unixtime;
pub use crate::globals::Globals;
pub use crate::globals::Profile;
pub use crate::ledger::SeenOnLedger;
pub use crate::oracle::Direction;
pub use crate::oracle::RoutingOracle;
pub use crate::registry::RelayRegistry;
pub use crate::relay::Relay;
pub use crate::url::RelayUrl;
pub use crate::url::UncheckedUrl;
pub use crate::url_set::UrlSet;
