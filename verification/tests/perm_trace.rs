use interaction_argument::chip::Chip;
use interaction_argument::interaction::BusArgument;
use interaction_argument::interaction::Interaction;
use interaction_argument::interaction::VirtualPairCol;
use interaction_argument::matrix::RowMajorMatrix;
use interaction_argument::trace::generate_permutation_trace;

const P: u64 = 101;

fn col(index: usize) -> VirtualPairCol {
    VirtualPairCol { constant: 0, weights: vec![(index, 1)] }
}

fn constant(c: u64) -> VirtualPairCol {
    VirtualPairCol { constant: c, weights: vec![] }
}

fn unit_interaction(bus: BusArgument) -> Interaction {
    Interaction { fields: vec![col(0)], count: constant(1), argument_index: bus }
}

fn empty_chip() -> Chip {
    Chip {
        local_sends: vec![],
        local_receives: vec![],
        global_sends: vec![],
        global_receives: vec![],
    }
}

#[test]
fn empty_chip_gives_width_one_zero_column() {
    let chip = empty_chip();
    let main = RowMajorMatrix::new(vec![5, 6, 7], 1);
    let perm = generate_permutation_trace(&chip, &main, &vec![2, 3, 5], P);
    assert_eq!(perm.width, 1);
    assert_eq!(perm.values, vec![0, 0, 0]);
}

#[test]
fn running_sum_starts_at_zero() {
    let chip = Chip {
        local_sends: vec![unit_interaction(BusArgument::Local(1))],
        local_receives: vec![],
        global_sends: vec![],
        global_receives: vec![],
    };
    let main = RowMajorMatrix::new(vec![7, 11], 1);
    let perm = generate_permutation_trace(&chip, &main, &vec![2, 3, 5], P);
    assert_eq!(perm.width, 2);
    // the running-sum column is the last one; row 0 holds the additive identity
    assert_eq!(perm.values[1], 0);
}

#[test]
fn concrete_scenario_mod_101() {
    // One local send, field list [row value], count 1, argument Local(1),
    // challenges (2, 3, 5), two-row main trace [7, 11]:
    //   alpha = 2^1 = 2, beta_0 = 5
    //   row 0 reciprocal input 2 + 5*7  = 37, inverse 71
    //   row 1 reciprocal input 2 + 5*11 = 57, inverse 39
    //   phi[0] = 0, phi[1] = 0 + 1*71 = 71
    let chip = Chip {
        local_sends: vec![unit_interaction(BusArgument::Local(1))],
        local_receives: vec![],
        global_sends: vec![],
        global_receives: vec![],
    };
    let main = RowMajorMatrix::new(vec![7, 11], 1);
    let perm = generate_permutation_trace(&chip, &main, &vec![2, 3, 5], P);
    assert_eq!(perm.width, 2);
    assert_eq!(perm.values, vec![71, 0, 39, 71]);
}

#[test]
fn local_send_and_receive_cancel_row_by_row() {
    let chip = Chip {
        local_sends: vec![unit_interaction(BusArgument::Local(1))],
        local_receives: vec![unit_interaction(BusArgument::Local(1))],
        global_sends: vec![],
        global_receives: vec![],
    };
    let main = RowMajorMatrix::new(vec![7, 11, 42], 1);
    let perm = generate_permutation_trace(&chip, &main, &vec![2, 3, 5], P);
    assert_eq!(perm.width, 3);
    for n in 0..3 {
        // both occurrences share one reciprocal value, and the running sum
        // stays at the additive identity on every row
        assert_eq!(perm.values[3 * n], perm.values[3 * n + 1]);
        assert_eq!(perm.values[3 * n + 2], 0);
    }
}

#[test]
fn global_send_and_receive_balance_across_chips() {
    let sender = Chip {
        local_sends: vec![],
        local_receives: vec![],
        global_sends: vec![unit_interaction(BusArgument::Global(1))],
        global_receives: vec![],
    };
    let receiver = Chip {
        local_sends: vec![],
        local_receives: vec![],
        global_sends: vec![],
        global_receives: vec![unit_interaction(BusArgument::Global(1))],
    };
    let main = RowMajorMatrix::new(vec![7, 11], 1);
    let challenges = vec![2, 3, 5];
    let perm_a = generate_permutation_trace(&sender, &main, &challenges, P);
    let perm_b = generate_permutation_trace(&receiver, &main, &challenges, P);
    // alpha = 3^1 = 3: row 0 input 3 + 5*7 = 38 (inverse 8),
    // row 1 input 3 + 5*11 = 58 (inverse 54)
    assert_eq!(perm_a.values, vec![8, 0, 54, 8]);
    assert_eq!(perm_b.values, vec![8, 0, 54, 101 - 8]);
    // the two running sums cancel on every row: the declared machine-wide
    // cumulative total is zero
    for n in 0..2 {
        let phi_a = perm_a.values[2 * n + 1];
        let phi_b = perm_b.values[2 * n + 1];
        assert_eq!((phi_a + phi_b) % P, 0);
    }
}

#[test]
fn trace_generation_is_deterministic() {
    let chip = Chip {
        local_sends: vec![unit_interaction(BusArgument::Local(1))],
        local_receives: vec![unit_interaction(BusArgument::Local(2))],
        global_sends: vec![unit_interaction(BusArgument::Global(1))],
        global_receives: vec![],
    };
    let main = RowMajorMatrix::new(vec![7, 11, 42, 99], 1);
    let challenges = vec![2, 3, 5];
    let first = generate_permutation_trace(&chip, &main, &challenges, P);
    let second = generate_permutation_trace(&chip, &main, &challenges, P);
    assert_eq!(first.width, second.width);
    assert_eq!(first.values, second.values);
}

#[test]
fn multi_column_fields_use_rising_beta_powers() {
    // field list [row[0], row[1]]: input = alpha + 5*row[0] + 25*row[1]
    let inter = Interaction {
        fields: vec![col(0), col(1)],
        count: constant(1),
        argument_index: BusArgument::Local(1),
    };
    let chip = Chip {
        local_sends: vec![inter],
        local_receives: vec![],
        global_sends: vec![],
        global_receives: vec![],
    };
    let main = RowMajorMatrix::new(vec![7, 2], 2);
    let perm = generate_permutation_trace(&chip, &main, &vec![2, 3, 5], P);
    // input = 2 + 5*7 + 25*2 = 87; the stored entry is its inverse
    let recip = perm.values[0];
    assert_eq!((87 * recip) % P, 1);
}
