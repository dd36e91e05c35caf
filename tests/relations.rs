use belly_relations::{
    Connect, ConnectionEntityContext, ConnectionGeneralContext, ConnectionTo, Connections, Deferred,
    Entity, ProcessorKey, SignalProcessors, WithoutComponent,
};

type Filter = fn(&i32) -> bool;
type Bump = fn(&mut i64);
type Reg = Connections<u8, u8, Bump, Filter>;
type Plain = Connections<u8, u8, WithoutComponent, Filter>;

fn positive(v: &i32) -> bool {
    *v > 0
}

fn any(_: &i32) -> bool {
    true
}

fn none(_: &i32) -> bool {
    false
}

fn inc(score: &mut i64) {
    *score += 1;
}

fn e(bits: u64) -> Entity {
    Entity::from_bits(bits)
}

fn key() -> ProcessorKey {
    ProcessorKey { component: 1, signal: 2 }
}

/// Runs one signal sourced at `source` through `reg`, bumping `score` for
/// every component connection that reacts while `has_score` holds.
fn deliver(reg: &Reg, source: Entity, value: i32, has_score: bool, score: &mut i64) -> Vec<usize> {
    let passes = reg.filter_verdicts(&source, &value);
    let n = passes.len();
    let present = vec![has_score; n];
    let slots = reg.deliveries(&source, &passes, &present);
    if let Some(list) = reg.get(&source) {
        for &slot in &slots {
            if let ConnectionTo::Component { handler, .. } = &list[slot].target {
                handler(score);
            }
        }
    }
    slots
}

#[test]
fn scenario_score_connection() {
    let (src, target) = (e(1), e(2));
    let mut procs = SignalProcessors::new();
    let mut reg: Reg = Connections::new();
    let conn = ConnectionTo::<u8, u8, Bump>::component(target, inc as Bump)
        .filter(positive as Filter)
        .from(src);
    assert!(conn.write(&mut procs, key(), &mut reg));
    let mut score: i64 = 10;
    deliver(&reg, src, 5, true, &mut score);
    assert_eq!(score, 11);
    deliver(&reg, src, -1, true, &mut score);
    assert_eq!(score, 11);
    reg.remove(&src);
    deliver(&reg, src, 5, true, &mut score);
    assert_eq!(score, 11);
}

#[test]
fn registration_is_idempotent() {
    let mut procs = SignalProcessors::new();
    let mut reg: Reg = Connections::new();
    let mut scheduled = 0;
    for i in 0..5u64 {
        let c = ConnectionTo::<u8, u8, Bump>::component(e(100), inc as Bump)
            .filter(any as Filter)
            .from(e(i));
        if c.write(&mut procs, key(), &mut reg) {
            scheduled += 1;
        }
    }
    assert_eq!(scheduled, 1);
    assert!(procs.contains(key()));
    assert!(!procs.contains(ProcessorKey { component: 1, signal: 3 }));
    assert!(procs.add_signals_processor(ProcessorKey { component: 1, signal: 3 }));
    assert!(!procs.add_signals_processor(key()));
    let mut score: i64 = 0;
    for i in 0..5u64 {
        deliver(&reg, e(i), 1, true, &mut score);
    }
    assert_eq!(score, 5);
}

#[test]
fn handlers_follow_registration_order() {
    let src = e(7);
    let mut reg: Plain = Connections::new();
    reg.add(ConnectionTo::<u8, u8, WithoutComponent>::general(1).filter(any as Filter).from(src));
    reg.add(ConnectionTo::<u8, u8, WithoutComponent>::entity(e(8), 2).filter(none as Filter).from(src));
    reg.add(ConnectionTo::<u8, u8, WithoutComponent>::general(3).filter(any as Filter).from(src));
    reg.add(ConnectionTo::<u8, u8, WithoutComponent>::entity(e(9), 4).filter(any as Filter).from(src));
    let passes = reg.filter_verdicts(&src, &0);
    assert_eq!(passes, vec![true, false, true, true]);
    let slots = reg.deliveries(&src, &passes, &vec![false; 4]);
    assert_eq!(slots, vec![0, 2, 3]);
    let list = reg.get(&src).unwrap();
    let order: Vec<u8> = slots
        .iter()
        .map(|&s| match &list[s].target {
            ConnectionTo::General { handler } => *handler,
            ConnectionTo::Entity { handler, .. } => *handler,
            ConnectionTo::Component { .. } => 0,
        })
        .collect();
    assert_eq!(order, vec![1, 3, 4]);
}

#[test]
fn filter_decides_delivery() {
    let src = e(3);
    let mut reg: Reg = Connections::new();
    reg.add(ConnectionTo::<u8, u8, Bump>::component(e(4), inc as Bump).filter(positive as Filter).from(src));
    let mut score: i64 = 0;
    assert_eq!(deliver(&reg, src, 0, true, &mut score), Vec::<usize>::new());
    assert_eq!(deliver(&reg, src, -3, true, &mut score), Vec::<usize>::new());
    assert_eq!(deliver(&reg, src, 3, true, &mut score), vec![0]);
    assert_eq!(score, 1);
    assert!(reg.get(&src).unwrap()[0].handles(&2));
    assert!(!reg.get(&src).unwrap()[0].handles(&-2));
}

#[test]
fn missing_component_is_skipped() {
    let src = e(3);
    let mut reg: Reg = Connections::new();
    reg.add(ConnectionTo::<u8, u8, Bump>::component(e(4), inc as Bump).filter(any as Filter).from(src));
    let mut score: i64 = 0;
    assert_eq!(deliver(&reg, src, 1, false, &mut score), Vec::<usize>::new());
    assert_eq!(score, 0);
    // Entity connections do not need the component.
    let mut plain: Plain = Connections::new();
    plain.add(ConnectionTo::<u8, u8, WithoutComponent>::entity(e(4), 1).filter(any as Filter).from(src));
    assert_eq!(plain.deliveries(&src, &vec![true], &vec![false]), vec![0]);
}

#[test]
fn remove_scrubs_both_directions() {
    let (a, b, c) = (e(1), e(2), e(3));
    let mut reg: Plain = Connections::new();
    // b and c react to their own signals by touching a; a touches c.
    reg.add(ConnectionTo::<u8, u8, WithoutComponent>::entity(a, 1).filter(any as Filter).from(b));
    reg.add(ConnectionTo::<u8, u8, WithoutComponent>::general(2).filter(any as Filter).from(b));
    reg.add(ConnectionTo::<u8, u8, WithoutComponent>::entity(a, 3).filter(any as Filter).from(c));
    reg.add(ConnectionTo::<u8, u8, WithoutComponent>::entity(c, 4).filter(any as Filter).from(a));
    reg.remove(&a);
    assert!(reg.get(&a).is_none());
    let bl = reg.get(&b).unwrap();
    assert_eq!(bl.len(), 1);
    assert_eq!(bl[0].target.id(), None);
    assert_eq!(reg.get(&c).unwrap().len(), 0);
    assert_eq!(reg.deliveries(&a, &vec![], &vec![]), Vec::<usize>::new());
    // The stale reverse link c <- a stays: removal is per source, not per link.
    assert_eq!(reg.entities(), vec![b, c]);
}

#[test]
fn entities_lists_each_once() {
    let mut reg: Plain = Connections::new();
    reg.add(ConnectionTo::<u8, u8, WithoutComponent>::entity(e(2), 1).filter(any as Filter).from(e(1)));
    reg.add(ConnectionTo::<u8, u8, WithoutComponent>::entity(e(1), 1).filter(any as Filter).from(e(2)));
    reg.add(ConnectionTo::<u8, u8, WithoutComponent>::entity(e(5), 1).filter(any as Filter).from(e(1)));
    reg.add(ConnectionTo::<u8, u8, WithoutComponent>::general(1).filter(any as Filter).from(e(1)));
    assert_eq!(reg.entities(), vec![e(1), e(2), e(5)]);
    let empty: Plain = Connections::default();
    assert!(empty.entities().is_empty());
}

#[test]
fn duplicate_registration_keeps_both() {
    let (s, t) = (e(1), e(2));
    let mut reg: Plain = Connections::new();
    reg.add(ConnectionTo::<u8, u8, WithoutComponent>::entity(t, 1).filter(any as Filter).from(s));
    reg.add(ConnectionTo::<u8, u8, WithoutComponent>::entity(t, 1).filter(any as Filter).from(s));
    assert_eq!(reg.get(&s).unwrap().len(), 2);
    reg.remove(&t);
    assert_eq!(reg.get(&s).unwrap().len(), 0);
    assert_eq!(reg.entities(), vec![s]);
}

#[test]
fn id_of_each_shape() {
    let g = ConnectionTo::<u8, u8, WithoutComponent>::general(1);
    let en = ConnectionTo::<u8, u8, WithoutComponent>::entity(e(4), 1);
    let c = ConnectionTo::<u8, u8, Bump>::component(e(5), inc as Bump);
    assert_eq!(g.id(), None);
    assert_eq!(en.id(), Some(e(4)));
    assert_eq!(c.id(), Some(e(5)));
    assert_eq!(e(9).to_bits(), 9);
    let conn: Connect<u8, u8, Bump, Filter> = c.filter(any as Filter).from(e(6));
    assert_eq!(conn.source, e(6));
}

#[test]
fn replace_despawns_before_spawning() {
    let host = ();
    let sig = 5i32;
    let ctx: ConnectionGeneralContext<i32, (), &str, u8> = ConnectionGeneralContext::new(&sig, e(1), &host);
    assert_eq!(*ctx.event(), 5);
    assert_eq!(ctx.source(), e(1));
    let mut ectx = ConnectionEntityContext::new(ctx, e(2));
    ectx.add(7);
    ectx.render("a");
    ectx.replace("b");
    assert_eq!(ectx.target(), e(2));
    let cmds = ectx.into_general().into_commands();
    assert_eq!(cmds.len(), 4);
    assert!(matches!(cmds[0], Deferred::Command { command: 7 }));
    assert!(matches!(cmds[1], Deferred::WithElements { entity, tree: "a" } if entity == e(2)));
    assert!(matches!(cmds[2], Deferred::DespawnDescendants { entity } if entity == e(2)));
    assert!(matches!(cmds[3], Deferred::WithElements { entity, tree: "b" } if entity == e(2)));
}
