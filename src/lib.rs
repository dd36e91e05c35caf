//! Signal/connection relations: typed handlers attached to entities, a
//! per-(component, signal) registry of connections with a reverse index for
//! removal, and the decision logic of signal dispatch.
pub mod connection;
pub mod context;
pub mod dispatch;
pub mod entity;
pub mod processors;
pub mod registry;

pub use context::{ConnectionEntityContext, ConnectionGeneralContext, Deferred};
pub use connection::{Connect, Connection, ConnectionTo, WithoutComponent};
pub use entity::Entity;
pub use processors::{ProcessorKey, SignalProcessors};
pub use registry::Connections;
