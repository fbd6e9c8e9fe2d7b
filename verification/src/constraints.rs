//! The constraint evaluator: re-derives the challenge tables exactly as the
//! trace generator does and checks, on a two-row window of main and
//! auxiliary trace, the per-occurrence reciprocal identity, the running-sum
//! transition, and the two boundary conditions.

use crate::chip::{tagged_views, Chip};
use crate::field::{add_mod, mul_mod, sub_mod};
use crate::interaction::{eval_vcol, InteractionType, InteractionV};
use crate::matrix::RowMajorMatrix;
use crate::trace::{
    alpha_of, cols_v, fields_rlc, generate_rlc_elements, lemma_occurrence_in_scope, reduce_row,
    rlc_of,
};
use vstd::prelude::*;

verus! {

/// The public input the surrounding prover or verifier supplies to the
/// evaluator: the machine-wide cumulative sum that anchors the global
/// running-sum argument on the last row.
pub trait PublicInput<F> {
    fn cumulative_sum(&self) -> F;
}

/// The reciprocal-consistency constraints: the recomputed random linear
/// combination of every occurrence matches its auxiliary column.
pub open spec fn reciprocal_constraints_hold(
    chip: Chip,
    main_local: Seq<u64>,
    perm_local: Seq<u64>,
    r0: u64,
    r1: u64,
    r2: u64,
    p: int,
) -> bool {
    forall|m: int|
        0 <= m < chip.interactions_spec().len() ==> perm_local[m] as int == #[trigger] rlc_of(
            chip.interactions_spec()[m].0,
            main_local,
            r0,
            r1,
            r2,
            p,
        )
}

/// The signed sum `sum_m sign(m) * count_m(main_local) * perm_local[m]` over
/// the first `k` occurrences, modulo `p`.
pub open spec fn transition_rhs(
    ivs: Seq<(InteractionV, InteractionType)>,
    main_local: Seq<u64>,
    perm_local: Seq<u64>,
    p: int,
    k: nat,
) -> int
    decreases k,
{
    if k == 0 {
        0
    } else {
        let prev = transition_rhs(ivs, main_local, perm_local, p, (k - 1) as nat);
        let term = (eval_vcol(ivs[k - 1].0.count, main_local, p) * perm_local[k - 1] as int) % p;
        if ivs[k - 1].1.is_send() {
            (prev + term) % p
        } else {
            (prev - term) % p
        }
    }
}

/// All permutation constraints on one window: the reciprocal constraints on
/// the current row; on transition rows, the running-sum step; on the first
/// row, a running sum of zero; on the last row, the running sum equal to the
/// declared public cumulative sum.
pub open spec fn constraints_hold(
    chip: Chip,
    main_local: Seq<u64>,
    perm_local: Seq<u64>,
    perm_next: Seq<u64>,
    r0: u64,
    r1: u64,
    r2: u64,
    p: int,
    is_first_row: bool,
    is_last_row: bool,
    is_transition: bool,
    cumulative_sum: u64,
) -> bool {
    let cnt = chip.interactions_spec().len() as int;
    &&& reciprocal_constraints_hold(chip, main_local, perm_local, r0, r1, r2, p)
    &&& (is_transition ==> (perm_next[cnt] - perm_local[cnt]) % p == transition_rhs(
        chip.interactions_spec(),
        main_local,
        perm_local,
        p,
        cnt as nat,
    ))
    &&& (is_first_row ==> perm_local[cnt] == 0)
    &&& (is_last_row ==> perm_local[cnt] == cumulative_sum)
}

/// Check every permutation constraint on a two-row window, re-deriving the
/// challenge tables exactly as the trace generator does.
#[verifier::loop_isolation(false)]
pub fn eval_permutation_constraints(
    chip: &Chip,
    main_local: &Vec<u64>,
    perm_local: &Vec<u64>,
    perm_next: &Vec<u64>,
    random_elements: &Vec<u64>,
    cumulative_sum: u64,
    is_first_row: bool,
    is_last_row: bool,
    is_transition: bool,
    p: u64,
) -> (ok: bool)
    requires
        2 <= p,
        chip.wf(main_local@.len() as int),
        random_elements@.len() == 3,
        random_elements@[0] < p,
        random_elements@[1] < p,
        random_elements@[2] < p,
        perm_local@.len() == chip.interactions_spec().len() + 1,
        perm_next@.len() == chip.interactions_spec().len() + 1,
        forall|i: int| 0 <= i < perm_local@.len() ==> (#[trigger] perm_local@[i]) < p,
        forall|i: int| 0 <= i < perm_next@.len() ==> (#[trigger] perm_next@[i]) < p,
    ensures
        ok == constraints_hold(
            *chip,
            main_local@,
            perm_local@,
            perm_next@,
            random_elements@[0],
            random_elements@[1],
            random_elements@[2],
            p as int,
            is_first_row,
            is_last_row,
            is_transition,
            cumulative_sum,
        ),
{
    let r2 = random_elements[2];
    let r0 = random_elements[0];
    let r1 = random_elements[1];
    let all = chip.all_interactions();
    let cnt = all.len();
    let ghost ivs = chip.interactions_spec();
    let (alphas_local, alphas_global) = generate_rlc_elements(chip, random_elements, p);

    let mut recip_ok = true;
    let mut rhs: u64 = 0;
    let mut m: usize = 0;
    while m < cnt
        invariant
            m <= cnt,
            rhs < p,
            rhs as int == transition_rhs(ivs, main_local@, perm_local@, p as int, m as nat),
            recip_ok ==> forall|m2: int|
                0 <= m2 < m ==> perm_local@[m2] as int == #[trigger] rlc_of(
                    ivs[m2].0,
                    main_local@,
                    r0,
                    r1,
                    r2,
                    p as int,
                ),
            !recip_ok ==> exists|m2: int|
                0 <= m2 < m && perm_local@[m2] as int != #[trigger] rlc_of(
                    ivs[m2].0,
                    main_local@,
                    r0,
                    r1,
                    r2,
                    p as int,
                ),
        decreases cnt - m,
    {
        let inter = &all[m].0;
        let t = all[m].1;
        proof {
            assert(tagged_views(all@)[m as int] == ivs[m as int]);
            assert(inter@ == ivs[m as int].0);
            assert(t == ivs[m as int].1);
            lemma_occurrence_in_scope(*chip, main_local@.len() as int, m as int);
            assert forall|j: int|
                0 <= j < inter.fields@.len() implies (#[trigger] inter.fields@[j])@.wf(
                main_local@.len() as int,
            ) by {
                assert(ivs[m as int].0.fields[j] == inter.fields@[j]@);
            }
            assert(inter.count@.wf(main_local@.len() as int));
        }
        let idx = inter.argument_index();
        let alpha = if inter.is_local() {
            alphas_local[idx - 1]
        } else {
            alphas_global[idx - 1]
        };
        proof {
            assert(alpha as int == alpha_of(ivs[m as int].0, r0, r1, p as int));
            assert(cols_v(inter.fields@) == ivs[m as int].0.fields);
        }
        let rlc = reduce_row(main_local, &inter.fields, alpha, r2, p);
        proof {
            assert(rlc as int == rlc_of(ivs[m as int].0, main_local@, r0, r1, r2, p as int));
        }
        let this_ok = rlc == perm_local[m];
        recip_ok = recip_ok && this_ok;

        let mult = inter.count.apply(main_local, p);
        let term = mul_mod(mult, perm_local[m], p);
        let is_send = match t {
            InteractionType::LocalSend | InteractionType::GlobalSend => true,
            InteractionType::LocalReceive | InteractionType::GlobalReceive => false,
        };
        proof {
            assert(is_send == ivs[m as int].1.is_send());
            assert(term as int == (eval_vcol(ivs[m as int].0.count, main_local@, p as int)
                * perm_local@[m as int] as int) % (p as int));
        }
        rhs = if is_send {
            add_mod(rhs, term, p)
        } else {
            sub_mod(rhs, term, p)
        };
        m = m + 1;
    }

    let phi_local = perm_local[cnt];
    let phi_next = perm_next[cnt];
    let lhs = sub_mod(phi_next, phi_local, p);
    let transition_ok = !is_transition || lhs == rhs;
    let first_ok = !is_first_row || phi_local == 0;
    let last_ok = !is_last_row || phi_local == cumulative_sum;
    proof {
        if recip_ok {
            assert(reciprocal_constraints_hold(
                *chip,
                main_local@,
                perm_local@,
                r0,
                r1,
                r2,
                p as int,
            ));
        } else {
            assert(!reciprocal_constraints_hold(
                *chip,
                main_local@,
                perm_local@,
                r0,
                r1,
                r2,
                p as int,
            ));
        }
    }
    recip_ok && transition_ok && first_ok && last_ok
}

} // verus!
