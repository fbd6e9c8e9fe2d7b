//! Laws of the permutation argument, stated and proved over the same spec
//! functions that the executable contracts use.

use crate::chip::Chip;
use crate::field::inv_mod;
use crate::interaction::{eval_vcol, InteractionType};
use crate::matrix::RowMajorMatrix;
use crate::trace::{
    is_permutation_trace, lemma_flat_index, phi_spec, rlc_of, row_terms,
};
use vstd::arithmetic::div_mod::{
    lemma_add_mod_noop, lemma_div_pos_is_pos, lemma_fundamental_div_mod, lemma_mod_bound,
    lemma_small_mod,
};
use vstd::arithmetic::mul::{lemma_mul_inequality, lemma_mul_is_commutative};
use vstd::prelude::*;

verus! {

/// The running sum is always a reduced field element.
pub proof fn lemma_phi_bounded(
    chip: Chip,
    main: RowMajorMatrix,
    r0: u64,
    r1: u64,
    r2: u64,
    p: int,
    n: nat,
)
    requires
        1 <= p,
    ensures
        0 <= phi_spec(chip, main, r0, r1, r2, p, n) < p,
    decreases n,
{
    if n == 0 {
    } else {
        lemma_phi_bounded(chip, main, r0, r1, r2, p, (n - 1) as nat);
        let ivs = chip.interactions_spec();
        let cnt = ivs.len();
        if cnt == 0 {
        } else {
            let row = main.row_spec(n - 1);
            let acc = phi_spec(chip, main, r0, r1, r2, p, (n - 1) as nat);
            let prev = row_terms(ivs, row, r0, r1, r2, p, acc, (cnt - 1) as nat);
            let term = (eval_vcol(ivs[cnt - 1].0.count, row, p) * inv_mod(
                rlc_of(ivs[cnt - 1].0, row, r0, r1, r2, p),
                p,
            )) % p;
            if ivs[cnt - 1].1.is_send() {
                lemma_mod_bound(prev + term, p);
            } else {
                lemma_mod_bound(prev - term, p);
            }
        }
    }
}

/// A chip declaring no interactions has a running sum of zero on every row.
pub proof fn lemma_empty_chip_phi_zero(
    chip: Chip,
    main: RowMajorMatrix,
    r0: u64,
    r1: u64,
    r2: u64,
    p: int,
    n: nat,
)
    requires
        chip.interactions_spec().len() == 0,
    ensures
        phi_spec(chip, main, r0, r1, r2, p, n) == 0,
    decreases n,
{
    if n > 0 {
        lemma_empty_chip_phi_zero(chip, main, r0, r1, r2, p, (n - 1) as nat);
    }
}

/// A chip declaring no interactions produces an auxiliary trace of width
/// one whose single column is zero on every row.
pub proof fn lemma_empty_chip_trace(
    chip: Chip,
    main: RowMajorMatrix,
    r0: u64,
    r1: u64,
    r2: u64,
    p: int,
    perm: RowMajorMatrix,
)
    requires
        chip.interactions_spec().len() == 0,
        is_permutation_trace(chip, main, r0, r1, r2, p, perm),
    ensures
        perm.width == 1,
        forall|n: int| 0 <= n < main.height_spec() ==> perm.row_spec(n)[0] as int == 0,
{
    assert forall|n: int| 0 <= n < main.height_spec() implies perm.row_spec(n)[0] as int == 0 by {
        lemma_empty_chip_phi_zero(chip, main, r0, r1, r2, p, n as nat);
        assert(perm.row_spec(n)[0] as int == phi_spec(chip, main, r0, r1, r2, p, n as nat));
    }
}

/// Row zero of the running-sum column is always zero.
pub proof fn lemma_running_sum_starts_at_zero(
    chip: Chip,
    main: RowMajorMatrix,
    r0: u64,
    r1: u64,
    r2: u64,
    p: int,
    perm: RowMajorMatrix,
)
    requires
        is_permutation_trace(chip, main, r0, r1, r2, p, perm),
        main.height_spec() > 0,
    ensures
        perm.row_spec(0)[chip.interactions_spec().len() as int] as int == 0,
{
    assert(phi_spec(chip, main, r0, r1, r2, p, 0nat) == 0);
    assert(perm.row_spec(0)[chip.interactions_spec().len() as int] as int == phi_spec(
        chip,
        main,
        r0,
        r1,
        r2,
        p,
        0nat,
    ));
}

/// A chip with one local send and one local receive of the same fields,
/// multiplicity and bus argument balances itself: its running sum is zero
/// on every row, the send and receive cancelling row by row.
pub proof fn lemma_local_self_balance(
    chip: Chip,
    main: RowMajorMatrix,
    r0: u64,
    r1: u64,
    r2: u64,
    p: int,
    n: nat,
)
    requires
        2 <= p,
        chip.local_sends@.len() == 1,
        chip.local_receives@.len() == 1,
        chip.global_sends@.len() == 0,
        chip.global_receives@.len() == 0,
        chip.local_sends@[0]@ == chip.local_receives@[0]@,
    ensures
        phi_spec(chip, main, r0, r1, r2, p, n) == 0,
    decreases n,
{
    if n > 0 {
        lemma_local_self_balance(chip, main, r0, r1, r2, p, (n - 1) as nat);
        let ivs = chip.interactions_spec();
        assert(ivs.len() == 2);
        assert(ivs[0].0 == chip.local_sends@[0]@ && ivs[0].1 == InteractionType::LocalSend);
        assert(ivs[1].0 == chip.local_receives@[0]@ && ivs[1].1 == InteractionType::LocalReceive);
        let row = main.row_spec(n - 1);
        let term = (eval_vcol(ivs[0].0.count, row, p) * inv_mod(
            rlc_of(ivs[0].0, row, r0, r1, r2, p),
            p,
        )) % p;
        lemma_mod_bound(
            eval_vcol(ivs[0].0.count, row, p) * inv_mod(rlc_of(ivs[0].0, row, r0, r1, r2, p), p),
            p,
        );
        assert(row_terms(ivs, row, r0, r1, r2, p, 0, 0) == 0);
        assert(row_terms(ivs, row, r0, r1, r2, p, 0, 1) == (0 + term) % p);
        lemma_small_mod(term as nat, p as nat);
        assert(row_terms(ivs, row, r0, r1, r2, p, 0, 1) == term);
        assert(row_terms(ivs, row, r0, r1, r2, p, 0, 2) == (term - term) % p);
        lemma_small_mod(0nat, p as nat);
        assert(phi_spec(chip, main, r0, r1, r2, p, n) == 0);
    }
}

/// Two chips that share one global bus argument, one sending and the other
/// receiving the same fields with the same multiplicities over the same
/// main trace, have running sums that cancel: their sum is zero modulo `p`
/// at every row, so the machine-wide cumulative total is zero.
pub proof fn lemma_global_cross_chip_balance(
    a: Chip,
    b: Chip,
    main: RowMajorMatrix,
    r0: u64,
    r1: u64,
    r2: u64,
    p: int,
    n: nat,
)
    requires
        2 <= p,
        a.local_sends@.len() == 0,
        a.local_receives@.len() == 0,
        a.global_sends@.len() == 1,
        a.global_receives@.len() == 0,
        b.local_sends@.len() == 0,
        b.local_receives@.len() == 0,
        b.global_sends@.len() == 0,
        b.global_receives@.len() == 1,
        a.global_sends@[0]@ == b.global_receives@[0]@,
    ensures
        (phi_spec(a, main, r0, r1, r2, p, n) + phi_spec(b, main, r0, r1, r2, p, n)) % p == 0,
    decreases n,
{
    lemma_small_mod(0nat, p as nat);
    if n > 0 {
        lemma_global_cross_chip_balance(a, b, main, r0, r1, r2, p, (n - 1) as nat);
        lemma_phi_bounded(a, main, r0, r1, r2, p, (n - 1) as nat);
        lemma_phi_bounded(b, main, r0, r1, r2, p, (n - 1) as nat);
        let pa = phi_spec(a, main, r0, r1, r2, p, (n - 1) as nat);
        let pb = phi_spec(b, main, r0, r1, r2, p, (n - 1) as nat);
        let iva = a.interactions_spec();
        let ivb = b.interactions_spec();
        assert(iva.len() == 1 && ivb.len() == 1);
        assert(iva[0].0 == a.global_sends@[0]@ && iva[0].1 == InteractionType::GlobalSend);
        assert(ivb[0].0 == b.global_receives@[0]@ && ivb[0].1 == InteractionType::GlobalReceive);
        assert(iva[0].0 == ivb[0].0);
        let row = main.row_spec(n - 1);
        let term = (eval_vcol(iva[0].0.count, row, p) * inv_mod(
            rlc_of(iva[0].0, row, r0, r1, r2, p),
            p,
        )) % p;
        assert(row_terms(iva, row, r0, r1, r2, p, pa, 0) == pa);
        assert(row_terms(ivb, row, r0, r1, r2, p, pb, 0) == pb);
        assert(row_terms(iva, row, r0, r1, r2, p, pa, 1) == (pa + term) % p);
        assert(row_terms(ivb, row, r0, r1, r2, p, pb, 1) == (pb - term) % p);
        assert(phi_spec(a, main, r0, r1, r2, p, n) == (pa + term) % p);
        assert(phi_spec(b, main, r0, r1, r2, p, n) == (pb - term) % p);
        lemma_add_mod_noop(pa + term, pb - term, p);
        assert((phi_spec(a, main, r0, r1, r2, p, n) + phi_spec(b, main, r0, r1, r2, p, n)) % p == (
        pa + term + (pb - term)) % p);
        assert(pa + term + (pb - term) == pa + pb);
        assert((pa + pb) % p == 0);
    }
}

/// Trace generation is deterministic: any two auxiliary traces of the same
/// chip, main trace and challenges are identical.
pub proof fn lemma_trace_generation_deterministic(
    chip: Chip,
    main: RowMajorMatrix,
    r0: u64,
    r1: u64,
    r2: u64,
    p: int,
    t1: RowMajorMatrix,
    t2: RowMajorMatrix,
)
    requires
        is_permutation_trace(chip, main, r0, r1, r2, p, t1),
        is_permutation_trace(chip, main, r0, r1, r2, p, t2),
    ensures
        t1.width == t2.width,
        t1.values@ == t2.values@,
{
    let cnt = chip.interactions_spec().len() as int;
    let w = cnt + 1;
    let height = main.height_spec() as int;
    assert(t1.width as int == w && t2.width as int == w);
    assert(t1.values@.len() == main.height_spec() * (cnt + 1) as nat);
    assert forall|i: int| 0 <= i < t1.values@.len() implies t1.values@[i] == t2.values@[i] by {
        let n2 = i / w;
        let m2 = i % w;
        lemma_fundamental_div_mod(i, w);
        lemma_mod_bound(i, w);
        lemma_div_pos_is_pos(i, w);
        assert(n2 * w + m2 == i) by {
            lemma_mul_is_commutative(w, n2);
        }
        assert(n2 < height) by {
            if n2 >= height {
                lemma_mul_inequality(height, n2, w);
                lemma_mul_is_commutative(n2, w);
                lemma_mul_is_commutative(height, w);
            }
        }
        lemma_flat_index(n2, m2, height, w);
        assert(t1.row_spec(n2)[m2] == t1.values@[i]);
        assert(t2.row_spec(n2)[m2] == t2.values@[i]);
        if m2 < cnt {
            assert(t1.row_spec(n2)[m2] as int == inv_mod(
                rlc_of(chip.interactions_spec()[m2].0, main.row_spec(n2), r0, r1, r2, p),
                p,
            ));
            assert(t2.row_spec(n2)[m2] as int == inv_mod(
                rlc_of(chip.interactions_spec()[m2].0, main.row_spec(n2), r0, r1, r2, p),
                p,
            ));
        } else {
            assert(m2 == cnt);
            assert(t1.row_spec(n2)[m2] as int == phi_spec(chip, main, r0, r1, r2, p, n2 as nat));
            assert(t2.row_spec(n2)[m2] as int == phi_spec(chip, main, r0, r1, r2, p, n2 as nat));
        }
    }
    assert(t1.values@ =~= t2.values@);
}

} // verus!
