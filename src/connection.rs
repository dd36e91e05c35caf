use vstd::prelude::*;

use crate::entity::Entity;

verus! {

/// Where a reaction is delivered. `G`, `E` and `K` are the handler types of
/// the general, entity and component shapes.
pub enum ConnectionTo<G, E, K> {
    /// The handler takes only the general context.
    General { handler: G },
    /// The handler takes an entity context bound to `target`.
    Entity { target: Entity, handler: E },
    /// The handler also gets exclusive access to `target`'s component.
    Component { target: Entity, handler: K },
}

/// Marker for connections that reach no component: the component-handler
/// slot of a general or entity connection.
pub struct WithoutComponent;

impl<G, E, K> ConnectionTo<G, E, K> {
    /// The entity a reaction is bound to, if any.
    pub open spec fn target_id(&self) -> Option<Entity> {
        match self {
            ConnectionTo::General { .. } => None,
            ConnectionTo::Entity { target, .. } => Some(*target),
            ConnectionTo::Component { target, .. } => Some(*target),
        }
    }

    /// A reaction that mutates `target`'s component through `handler`.
    pub fn component(target: Entity, handler: K) -> (r: ConnectionTo<G, E, K>)
        ensures
            r == (ConnectionTo::<G, E, K>::Component { target, handler }),
    {
        ConnectionTo::Component { target, handler }
    }

    /// Guards this reaction with `filter`.
    pub fn filter<F>(self, filter: F) -> (r: Connection<G, E, K, F>)
        ensures
            r.target == self,
            r.filter == filter,
    {
        Connection { target: self, filter }
    }

    /// The bound entity: `target` of the entity and component shapes, `None`
    /// for the general one.
    pub fn id(&self) -> (r: Option<Entity>)
        ensures
            r == self.target_id(),
    {
        match self {
            ConnectionTo::Component { target, .. } => Some(*target),
            ConnectionTo::Entity { target, .. } => Some(*target),
            ConnectionTo::General { .. } => None,
        }
    }
}

impl<G, E> ConnectionTo<G, E, WithoutComponent> {
    /// A reaction that gets an entity context bound to `target`.
    pub fn entity(target: Entity, handler: E) -> (r: ConnectionTo<G, E, WithoutComponent>)
        ensures
            r == (ConnectionTo::<G, E, WithoutComponent>::Entity { target, handler }),
    {
        ConnectionTo::Entity { target, handler }
    }

    /// A reaction bound to no entity.
    pub fn general(handler: G) -> (r: ConnectionTo<G, E, WithoutComponent>)
        ensures
            r == (ConnectionTo::<G, E, WithoutComponent>::General { handler }),
    {
        ConnectionTo::General { handler }
    }
}

/// A reaction guarded by a filter over the signal.
pub struct Connection<G, E, K, F> {
    pub target: ConnectionTo<G, E, K>,
    pub filter: F,
}

impl<G, E, K, F> Connection<G, E, K, F> {
    /// Whether the filter accepts `signal`.
    pub fn handles<S>(&self, signal: &S) -> (r: bool)
        where F: Fn(&S) -> bool,
        requires
            call_requires(self.filter, (signal,)),
        ensures
            call_ensures(self.filter, (signal,), r),
    {
        (self.filter)(signal)
    }

    /// Binds this connection to the entity whose signals it reacts to.
    pub fn from(self, source: Entity) -> (r: Connect<G, E, K, F>)
        ensures
            r.source == source,
            r.target == self,
    {
        Connect { source, target: self }
    }
}

/// A connection bound to its source entity: the unit of registration.
pub struct Connect<G, E, K, F> {
    pub source: Entity,
    pub target: Connection<G, E, K, F>,
}

} // verus!
