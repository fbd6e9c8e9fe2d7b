use interaction_argument::chip::Chip;
use interaction_argument::interaction::BusArgument;
use interaction_argument::interaction::Interaction;
use interaction_argument::interaction::InteractionType;
use interaction_argument::interaction::VirtualPairCol;

fn col(index: usize) -> VirtualPairCol {
    VirtualPairCol { constant: 0, weights: vec![(index, 1)] }
}

fn constant(c: u64) -> VirtualPairCol {
    VirtualPairCol { constant: c, weights: vec![] }
}

fn send(bus: BusArgument, field_col: usize) -> Interaction {
    Interaction { fields: vec![col(field_col)], count: constant(1), argument_index: bus }
}

#[test]
fn interaction_scope_predicates() {
    let local = send(BusArgument::Local(3), 0);
    let global = send(BusArgument::Global(3), 0);
    assert!(local.is_local());
    assert!(!local.is_global());
    assert!(global.is_global());
    assert!(!global.is_local());
    assert_eq!(local.argument_index(), 3);
    assert_eq!(global.argument_index(), 3);
}

#[test]
fn all_interactions_keeps_declaration_order() {
    let chip = Chip {
        local_sends: vec![send(BusArgument::Local(1), 0), send(BusArgument::Local(2), 1)],
        local_receives: vec![send(BusArgument::Local(1), 2)],
        global_sends: vec![send(BusArgument::Global(1), 3)],
        global_receives: vec![send(BusArgument::Global(1), 4)],
    };
    let all = chip.all_interactions();
    assert_eq!(all.len(), 5);
    assert!(matches!(all[0].1, InteractionType::LocalSend));
    assert!(matches!(all[1].1, InteractionType::LocalSend));
    assert!(matches!(all[2].1, InteractionType::LocalReceive));
    assert!(matches!(all[3].1, InteractionType::GlobalSend));
    assert!(matches!(all[4].1, InteractionType::GlobalReceive));
    assert_eq!(all[0].0.fields[0].weights[0].0, 0);
    assert_eq!(all[1].0.fields[0].weights[0].0, 1);
    assert_eq!(all[2].0.fields[0].weights[0].0, 2);
    assert_eq!(all[3].0.fields[0].weights[0].0, 3);
    assert_eq!(all[4].0.fields[0].weights[0].0, 4);
    assert_eq!(all[0].0.argument_index, BusArgument::Local(1));
    assert_eq!(all[3].0.argument_index, BusArgument::Global(1));
}

#[test]
fn interaction_map_groups_positions_by_bus() {
    let chip = Chip {
        local_sends: vec![send(BusArgument::Local(1), 0), send(BusArgument::Local(2), 1)],
        local_receives: vec![send(BusArgument::Local(1), 2)],
        global_sends: vec![send(BusArgument::Global(1), 3)],
        global_receives: vec![],
    };
    let map = chip.interaction_map();
    assert_eq!(map.len(), 3);
    assert_eq!(map[0].0, BusArgument::Local(1));
    assert_eq!(map[0].1, vec![0, 2]);
    assert_eq!(map[1].0, BusArgument::Local(2));
    assert_eq!(map[1].1, vec![1]);
    assert_eq!(map[2].0, BusArgument::Global(1));
    assert_eq!(map[2].1, vec![3]);
}

#[test]
fn local_and_global_tag_spaces_are_disjoint() {
    let chip = Chip {
        local_sends: vec![send(BusArgument::Local(1), 0)],
        local_receives: vec![],
        global_sends: vec![send(BusArgument::Global(1), 0)],
        global_receives: vec![],
    };
    let map = chip.interaction_map();
    assert_eq!(map.len(), 2);
    assert_ne!(map[0].0, map[1].0);
}
