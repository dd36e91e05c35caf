use vstd::prelude::*;

use crate::entity::Entity;

verus! {

/// A mutation queued by a handler. The host applies the queue at the end of
/// the step, first to last.
pub enum Deferred<T, C> {
    /// Despawn every descendant of `entity`.
    DespawnDescendants { entity: Entity },
    /// Spawn the element tree `tree` as children of `entity`.
    WithElements { entity: Entity, tree: T },
    /// Any other host command.
    Command { command: C },
}

/// The element trees under `e` once `cmds` has been applied, first to last,
/// to an entity whose children were `children`.
pub open spec fn children_after<T, C>(children: Seq<T>, cmds: Seq<Deferred<T, C>>, e: Entity) -> Seq<T>
    decreases cmds.len(),
{
    if cmds.len() == 0 {
        children
    } else {
        let before = children_after(children, cmds.drop_last(), e);
        match cmds.last() {
            Deferred::DespawnDescendants { entity } => if entity == e {
                Seq::empty()
            } else {
                before
            },
            Deferred::WithElements { entity, tree } => if entity == e {
                before.push(tree)
            } else {
                before
            },
            Deferred::Command { .. } => before,
        }
    }
}

/// What a handler may reach: the signal, the entity that fired it, the host's
/// services (`R`: time, assets) and a queue of deferred mutations.
pub struct ConnectionGeneralContext<'a, S, R, T, C> {
    pub source_event: &'a S,
    pub source: Entity,
    pub host: &'a R,
    pub queue: Vec<Deferred<T, C>>,
}

impl<'a, S, R, T, C> ConnectionGeneralContext<'a, S, R, T, C> {
    /// A context for one delivery of `event` fired by `source`, with nothing queued.
    pub fn new(event: &'a S, source: Entity, host: &'a R) -> (r: Self)
        ensures
            r.source_event == event,
            r.source == source,
            r.host == host,
            r.queue@ == Seq::<Deferred<T, C>>::empty(),
    {
        ConnectionGeneralContext { source_event: event, source, host, queue: Vec::new() }
    }

    /// The signal being delivered.
    pub fn event(&self) -> (r: &S)
        ensures
            r == self.source_event,
    {
        self.source_event
    }

    /// The entity that fired the signal.
    pub fn source(&self) -> (r: Entity)
        ensures
            r == self.source,
    {
        self.source
    }

    /// The host's services for this step.
    pub fn host(&self) -> (r: &R)
        ensures
            r == self.host,
    {
        self.host
    }

    /// Queues `command` after everything queued so far.
    pub fn add(&mut self, command: C)
        ensures
            final(self).queue@ == old(self).queue@.push(Deferred::Command { command }),
            final(self).source == old(self).source,
            final(self).source_event == old(self).source_event,
            final(self).host == old(self).host,
    {
        self.queue.push(Deferred::Command { command });
    }

    /// The mutations queued so far, first to last.
    pub fn commands(&self) -> (r: &Vec<Deferred<T, C>>)
        ensures
            r@ == self.queue@,
    {
        &self.queue
    }

    /// Hands the queued mutations over to the host.
    pub fn into_commands(self) -> (r: Vec<Deferred<T, C>>)
        ensures
            r@ == self.queue@,
    {
        self.queue
    }
}

/// A general context bound to the entity a connection targets.
pub struct ConnectionEntityContext<'a, S, R, T, C> {
    pub target: Entity,
    pub ctx: ConnectionGeneralContext<'a, S, R, T, C>,
}

impl<'a, S, R, T, C> ConnectionEntityContext<'a, S, R, T, C> {
    /// Binds `ctx` to `target`.
    pub fn new(ctx: ConnectionGeneralContext<'a, S, R, T, C>, target: Entity) -> (r: Self)
        ensures
            r.ctx == ctx,
            r.target == target,
    {
        ConnectionEntityContext { target, ctx }
    }

    /// The entity the connection targets.
    pub fn target(&self) -> (r: Entity)
        ensures
            r == self.target,
    {
        self.target
    }

    /// The wrapped general context.
    pub fn general(&self) -> (r: &ConnectionGeneralContext<'a, S, R, T, C>)
        ensures
            r == self.ctx,
    {
        &self.ctx
    }

    /// Gives the general context back.
    pub fn into_general(self) -> (r: ConnectionGeneralContext<'a, S, R, T, C>)
        ensures
            r == self.ctx,
    {
        self.ctx
    }

    /// Queues `command` on the wrapped context.
    pub fn add(&mut self, command: C)
        ensures
            final(self).target == old(self).target,
            final(self).ctx.queue@ == old(self).ctx.queue@.push(Deferred::Command { command }),
            final(self).ctx.source == old(self).ctx.source,
            final(self).ctx.source_event == old(self).ctx.source_event,
            final(self).ctx.host == old(self).ctx.host,
    {
        self.ctx.add(command);
    }

    /// Appends `tree` under the target, keeping its present children.
    pub fn render(&mut self, tree: T)
        ensures
            final(self).target == old(self).target,
            final(self).ctx.queue@ == old(self).ctx.queue@.push(
                Deferred::WithElements { entity: old(self).target, tree },
            ),
            final(self).ctx.source == old(self).ctx.source,
            final(self).ctx.source_event == old(self).ctx.source_event,
            final(self).ctx.host == old(self).ctx.host,
    {
        let target = self.target;
        self.ctx.queue.push(Deferred::WithElements { entity: target, tree });
    }

    /// Replaces the target's descendants with `tree`: the despawn is queued
    /// before the spawn.
    pub fn replace(&mut self, tree: T)
        ensures
            final(self).target == old(self).target,
            final(self).ctx.queue@ == old(self).ctx.queue@.push(
                Deferred::DespawnDescendants { entity: old(self).target },
            ).push(Deferred::WithElements { entity: old(self).target, tree }),
            final(self).ctx.source == old(self).ctx.source,
            final(self).ctx.source_event == old(self).ctx.source_event,
            final(self).ctx.host == old(self).ctx.host,
    {
        let target = self.target;
        self.ctx.queue.push(Deferred::DespawnDescendants { entity: target });
        self.ctx.queue.push(Deferred::WithElements { entity: target, tree });
    }
}

/// After a replace, whatever the target held before and whatever was queued
/// ahead of it, the target's children are exactly the new tree.
pub proof fn lemma_replace_leaves_only_new_tree<T, C>(
    children: Seq<T>,
    queued: Seq<Deferred<T, C>>,
    target: Entity,
    tree: T,
)
    ensures
        children_after(
            children,
            queued.push(Deferred::DespawnDescendants { entity: target }).push(
                Deferred::WithElements { entity: target, tree },
            ),
            target,
        ) == seq![tree],
{
    let q1 = queued.push(Deferred::<T, C>::DespawnDescendants { entity: target });
    let q2 = q1.push(Deferred::WithElements { entity: target, tree });
    assert(q2.drop_last() =~= q1);
    assert(q1.drop_last() =~= queued);
    assert(children_after(children, q1, target) == Seq::<T>::empty());
    assert(Seq::<T>::empty().push(tree) =~= seq![tree]);
}

} // verus!
