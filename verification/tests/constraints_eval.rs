use interaction_argument::chip::Chip;
use interaction_argument::constraints::eval_permutation_constraints;
use interaction_argument::interaction::BusArgument;
use interaction_argument::interaction::Interaction;
use interaction_argument::interaction::VirtualPairCol;

const P: u64 = 101;

fn col(index: usize) -> VirtualPairCol {
    VirtualPairCol { constant: 0, weights: vec![(index, 1)] }
}

fn constant(c: u64) -> VirtualPairCol {
    VirtualPairCol { constant: c, weights: vec![] }
}

fn one_send_chip() -> Chip {
    Chip {
        local_sends: vec![Interaction {
            fields: vec![col(0)],
            count: constant(1),
            argument_index: BusArgument::Local(1),
        }],
        local_receives: vec![],
        global_sends: vec![],
        global_receives: vec![],
    }
}

// For the one-send chip with challenges (2, 3, 5) and main row [7]:
// the recomputed combination is 2 + 5*7 = 37, the multiplicity is 1.

#[test]
fn accepts_a_consistent_window() {
    let chip = one_send_chip();
    // transition: phi_next - phi_local = 1 * perm_local[0] = 37
    let ok = eval_permutation_constraints(
        &chip,
        &vec![7],
        &vec![37, 0],
        &vec![57, 37],
        &vec![2, 3, 5],
        0,
        true,
        false,
        true,
        P,
    );
    assert!(ok);
}

#[test]
fn rejects_a_wrong_reciprocal_column() {
    let chip = one_send_chip();
    let ok = eval_permutation_constraints(
        &chip,
        &vec![7],
        &vec![36, 0],
        &vec![57, 36],
        &vec![2, 3, 5],
        0,
        false,
        false,
        false,
        P,
    );
    assert!(!ok);
}

#[test]
fn rejects_a_wrong_running_sum_step() {
    let chip = one_send_chip();
    let ok = eval_permutation_constraints(
        &chip,
        &vec![7],
        &vec![37, 0],
        &vec![57, 38],
        &vec![2, 3, 5],
        0,
        false,
        false,
        true,
        P,
    );
    assert!(!ok);
}

#[test]
fn first_row_boundary_requires_zero() {
    let chip = one_send_chip();
    let ok = eval_permutation_constraints(
        &chip,
        &vec![7],
        &vec![37, 5],
        &vec![57, 42],
        &vec![2, 3, 5],
        0,
        true,
        false,
        false,
        P,
    );
    assert!(!ok);
}

#[test]
fn last_row_boundary_checks_cumulative_sum() {
    let chip = one_send_chip();
    let good = eval_permutation_constraints(
        &chip,
        &vec![7],
        &vec![37, 42],
        &vec![37, 42],
        &vec![2, 3, 5],
        42,
        false,
        true,
        false,
        P,
    );
    assert!(good);
    let bad = eval_permutation_constraints(
        &chip,
        &vec![7],
        &vec![37, 42],
        &vec![37, 42],
        &vec![2, 3, 5],
        41,
        false,
        true,
        false,
        P,
    );
    assert!(!bad);
}

#[test]
fn receive_subtracts_from_the_running_sum() {
    let chip = Chip {
        local_sends: vec![],
        local_receives: vec![Interaction {
            fields: vec![col(0)],
            count: constant(1),
            argument_index: BusArgument::Local(1),
        }],
        global_sends: vec![],
        global_receives: vec![],
    };
    // phi_next - phi_local must be -perm_local[0] = -37 = 64 mod 101
    let ok = eval_permutation_constraints(
        &chip,
        &vec![7],
        &vec![37, 0],
        &vec![57, 64],
        &vec![2, 3, 5],
        0,
        false,
        false,
        true,
        P,
    );
    assert!(ok);
}
