//! Generation of the auxiliary (permutation) trace: challenge tables, the
//! random linear combination of each occurrence on each row, the batched
//! inversion of all of them, and the running-sum column.

use crate::chip::{tagged_views, views_of, Chip};
use crate::field::{
    add_mod, batch_invert, has_inverse, inv_mod, mul_mod, pow_mod_spec, sub_mod,
};
use crate::interaction::{
    eval_vcol, BusArgument, Interaction, InteractionType, InteractionV, VirtualPairCol,
    VirtualPairColV,
};
use crate::matrix::RowMajorMatrix;
use vstd::arithmetic::div_mod::{
    lemma_fundamental_div_mod, lemma_mod_bound, lemma_mod_multiples_basic, lemma_small_mod,
};
use vstd::arithmetic::mul::{
    lemma_mul_inequality, lemma_mul_is_commutative, lemma_mul_is_distributive_add_other_way,
    lemma_mul_nonnegative,
};
use vstd::prelude::*;

verus! {

/// The views of a list of column projections.
pub open spec fn cols_v(s: Seq<VirtualPairCol>) -> Seq<VirtualPairColV> {
    s.map_values(|c: VirtualPairCol| c@)
}

/// The separating constant of an occurrence: the bus index'th power of the
/// challenge of its scope (`r0` for local arguments, `r1` for global ones).
pub open spec fn alpha_of(iv: InteractionV, r0: u64, r1: u64, p: int) -> int {
    match iv.argument_index {
        BusArgument::Local(i) => pow_mod_spec(r0 as int, i as nat, p),
        BusArgument::Global(i) => pow_mod_spec(r1 as int, i as nat, p),
    }
}

/// The beta-weighted sum of the first `k` field projections on one row:
/// `sum_j r2^(j+1) * f_j(row)` modulo `p`.
pub open spec fn fields_rlc(
    fields: Seq<VirtualPairColV>,
    row: Seq<u64>,
    r2: u64,
    p: int,
    k: nat,
) -> int
    decreases k,
{
    if k == 0 {
        0
    } else {
        (fields_rlc(fields, row, r2, p, (k - 1) as nat) + pow_mod_spec(r2 as int, k, p)
            * eval_vcol(fields[k - 1], row, p)) % p
    }
}

/// The reciprocal input of an occurrence on one row:
/// `alpha + sum_j beta_j * f_j(row)` modulo `p`.
pub open spec fn rlc_of(iv: InteractionV, row: Seq<u64>, r0: u64, r1: u64, r2: u64, p: int) -> int {
    (alpha_of(iv, r0, r1, p) + fields_rlc(iv.fields, row, r2, p, iv.fields.len())) % p
}

/// Fold the signed contributions of the first `k` occurrences on `row` into
/// the accumulator `acc`: sends add `count(row) / rlc`, receives subtract it.
pub open spec fn row_terms(
    ivs: Seq<(InteractionV, InteractionType)>,
    row: Seq<u64>,
    r0: u64,
    r1: u64,
    r2: u64,
    p: int,
    acc: int,
    k: nat,
) -> int
    decreases k,
{
    if k == 0 {
        acc
    } else {
        let prev = row_terms(ivs, row, r0, r1, r2, p, acc, (k - 1) as nat);
        let term = (eval_vcol(ivs[k - 1].0.count, row, p) * inv_mod(
            rlc_of(ivs[k - 1].0, row, r0, r1, r2, p),
            p,
        )) % p;
        if ivs[k - 1].1.is_send() {
            (prev + term) % p
        } else {
            (prev - term) % p
        }
    }
}

/// The running sum before row `n`: zero at row zero, then one signed
/// reciprocal contribution per occurrence per row.
pub open spec fn phi_spec(
    chip: Chip,
    main: RowMajorMatrix,
    r0: u64,
    r1: u64,
    r2: u64,
    p: int,
    n: nat,
) -> int
    decreases n,
{
    if n == 0 {
        0
    } else {
        row_terms(
            chip.interactions_spec(),
            main.row_spec(n - 1),
            r0,
            r1,
            r2,
            p,
            phi_spec(chip, main, r0, r1, r2, p, (n - 1) as nat),
            chip.interactions_spec().len(),
        )
    }
}

/// Every reciprocal input is invertible; the caller must guarantee this
/// (challenges independent enough from the trace data).
pub open spec fn reciprocals_invertible(
    chip: Chip,
    main: RowMajorMatrix,
    r0: u64,
    r1: u64,
    r2: u64,
    p: int,
) -> bool {
    forall|n: int, m: int|
        0 <= n < main.height_spec() && 0 <= m < chip.interactions_spec().len() ==> has_inverse(
            #[trigger] rlc_of(chip.interactions_spec()[m].0, main.row_spec(n), r0, r1, r2, p),
            p,
        )
}

/// What it means for `perm` to be the auxiliary trace of `chip` on `main`
/// under the three challenges: one reciprocal column per occurrence, in
/// occurrence order, and the running sum as the final column.
pub open spec fn is_permutation_trace(
    chip: Chip,
    main: RowMajorMatrix,
    r0: u64,
    r1: u64,
    r2: u64,
    p: int,
    perm: RowMajorMatrix,
) -> bool {
    let cnt = chip.interactions_spec().len();
    &&& perm.width as nat == cnt + 1
    &&& perm.values@.len() == main.height_spec() * (cnt + 1)
    &&& forall|n: int, m: int|
        0 <= n < main.height_spec() && 0 <= m < cnt ==> perm.row_spec(n)[m] as int == inv_mod(
            #[trigger] rlc_of(chip.interactions_spec()[m].0, main.row_spec(n), r0, r1, r2, p),
            p,
        )
    &&& forall|n: nat|
        n < main.height_spec() ==> perm.row_spec(n as int)[cnt as int] as int == #[trigger] phi_spec(
            chip,
            main,
            r0,
            r1,
            r2,
            p,
            n,
        )
}

/// The largest bus index among the first `k` interactions of a list, zero
/// for an empty list.
pub open spec fn max_arg(s: Seq<InteractionV>, k: nat) -> nat
    decreases k,
{
    if k == 0 {
        0
    } else {
        let m = max_arg(s, (k - 1) as nat);
        let i = s[k - 1].argument_index.index_spec();
        if i > m {
            i
        } else {
            m
        }
    }
}

/// The size of the local challenge table: the largest local bus index.
pub open spec fn max_local_arg(chip: Chip) -> nat {
    max_arg(chip.locals_v(), chip.locals_v().len())
}

/// The size of the global challenge table: the largest global bus index.
pub open spec fn max_global_arg(chip: Chip) -> nat {
    max_arg(chip.globals_v(), chip.globals_v().len())
}

/// Position `(n2, m2)` of a row-major buffer of row length `w` lies inside
/// the first `nrows` rows.
pub(crate) proof fn lemma_flat_index(n2: int, m2: int, nrows: int, w: int)
    requires
        0 <= n2 < nrows,
        0 <= m2 < w,
    ensures
        0 <= n2 * w + m2,
        n2 * w + m2 < n2 * w + w,
        n2 * w + w <= nrows * w,
        n2 * w + m2 < nrows * w,
{
    lemma_mul_inequality(n2 + 1, nrows, w);
    lemma_mul_is_distributive_add_other_way(w, n2, 1);
    lemma_mul_nonnegative(n2, w);
}

proof fn lemma_max_arg_bound(s: Seq<InteractionV>, j: int, k: nat)
    requires
        0 <= j < k,
        k <= s.len(),
    ensures
        s[j].argument_index.index_spec() <= max_arg(s, k),
    decreases k,
{
    if j < k - 1 {
        lemma_max_arg_bound(s, j, (k - 1) as nat);
    }
}

/// Each occurrence of a well-formed chip is itself well formed, carries the
/// tag space of the list it came from, and its bus index is covered by the
/// challenge table of its scope.
pub proof fn lemma_occurrence_in_scope(chip: Chip, width: int, m: int)
    requires
        chip.wf(width),
        0 <= m < chip.interactions_spec().len(),
    ensures
        chip.interactions_spec()[m].0.wf(width),
        1 <= chip.interactions_spec()[m].0.argument_index.index_spec(),
        chip.interactions_spec()[m].0.argument_index is Local
            ==> chip.interactions_spec()[m].0.argument_index.index_spec() <= max_local_arg(chip),
        chip.interactions_spec()[m].0.argument_index is Global
            ==> chip.interactions_spec()[m].0.argument_index.index_spec() <= max_global_arg(chip),
{
    let iv = chip.interactions_spec()[m].0;
    let nl = chip.locals_v().len() as int;
    if m < nl {
        assert(iv == chip.locals_v()[m]);
        lemma_max_arg_bound(chip.locals_v(), m, chip.locals_v().len());
    } else {
        assert(iv == chip.globals_v()[m - nl]);
        lemma_max_arg_bound(chip.globals_v(), m - nl, chip.globals_v().len());
    }
}

/// The largest bus index over two concatenated interaction lists.
#[verifier::loop_isolation(false)]
fn scope_max(a: &Vec<Interaction>, b: &Vec<Interaction>) -> (m: usize)
    ensures
        m as nat == max_arg(views_of(a@) + views_of(b@), a@.len() + b@.len()),
{
    let ghost s = views_of(a@) + views_of(b@);
    let mut m: usize = 0;
    let mut i: usize = 0;
    while i < a.len()
        invariant
            i <= a@.len(),
            m as nat == max_arg(s, i as nat),
        decreases a@.len() - i,
    {
        proof {
            assert(s[i as int] == a@[i as int]@);
        }
        let idx = a[i].argument_index();
        if idx > m {
            m = idx;
        }
        i = i + 1;
    }
    let mut j: usize = 0;
    while j < b.len()
        invariant
            j <= b@.len(),
            m as nat == max_arg(s, a@.len() + j as nat),
        decreases b@.len() - j,
    {
        proof {
            assert(s[a@.len() + j as int] == b@[j as int]@);
        }
        let idx = b[j].argument_index();
        if idx > m {
            m = idx;
        }
        j = j + 1;
    }
    m
}

/// Derive the two challenge tables: entry `j` of each is the `(j+1)`'th
/// power of the scope's challenge, sized by the largest bus index declared
/// in that scope (empty for a scope that declares nothing).
#[verifier::loop_isolation(false)]
pub(crate) fn generate_rlc_elements(chip: &Chip, random_elements: &Vec<u64>, p: u64) -> (r: (
    Vec<u64>,
    Vec<u64>,
))
    requires
        2 <= p,
        random_elements@.len() == 3,
    ensures
        r.0@.len() == max_local_arg(*chip),
        forall|j: int|
            0 <= j < r.0@.len() ==> (#[trigger] r.0@[j]) as int == pow_mod_spec(
                random_elements@[0] as int,
                (j + 1) as nat,
                p as int,
            ) && r.0@[j] < p,
        r.1@.len() == max_global_arg(*chip),
        forall|j: int|
            0 <= j < r.1@.len() ==> (#[trigger] r.1@[j]) as int == pow_mod_spec(
                random_elements@[1] as int,
                (j + 1) as nat,
                p as int,
            ) && r.1@[j] < p,
{
    let max_l = scope_max(&chip.local_sends, &chip.local_receives);
    let max_g = scope_max(&chip.global_sends, &chip.global_receives);
    let r0 = random_elements[0];
    let r1 = random_elements[1];
    proof {
        lemma_small_mod(1nat, p as nat);
    }
    let mut alphas_local: Vec<u64> = Vec::new();
    let mut cur: u64 = 1;
    let mut j: usize = 0;
    while j < max_l
        invariant
            j <= max_l,
            alphas_local@.len() == j,
            cur as int == pow_mod_spec(r0 as int, j as nat, p as int),
            cur < p || cur == 1,
            forall|j2: int|
                0 <= j2 < j ==> (#[trigger] alphas_local@[j2]) as int == pow_mod_spec(
                    r0 as int,
                    (j2 + 1) as nat,
                    p as int,
                ) && alphas_local@[j2] < p,
        decreases max_l - j,
    {
        cur = mul_mod(cur, r0, p);
        alphas_local.push(cur);
        j = j + 1;
    }
    let mut alphas_global: Vec<u64> = Vec::new();
    let mut cur2: u64 = 1;
    j = 0;
    while j < max_g
        invariant
            j <= max_g,
            alphas_global@.len() == j,
            cur2 as int == pow_mod_spec(r1 as int, j as nat, p as int),
            cur2 < p || cur2 == 1,
            forall|j2: int|
                0 <= j2 < j ==> (#[trigger] alphas_global@[j2]) as int == pow_mod_spec(
                    r1 as int,
                    (j2 + 1) as nat,
                    p as int,
                ) && alphas_global@[j2] < p,
        decreases max_g - j,
    {
        cur2 = mul_mod(cur2, r1, p);
        alphas_global.push(cur2);
        j = j + 1;
    }
    (alphas_local, alphas_global)
}

/// The random linear combination of one occurrence on one row:
/// `alpha + sum_j r2^(j+1) * f_j(row)` modulo `p`.
#[verifier::loop_isolation(false)]
pub(crate) fn reduce_row(
    row: &Vec<u64>,
    fields: &Vec<VirtualPairCol>,
    alpha: u64,
    r2: u64,
    p: u64,
) -> (r: u64)
    requires
        2 <= p,
        alpha < p,
        r2 < p,
        forall|j: int| 0 <= j < fields@.len() ==> (#[trigger] fields@[j])@.wf(row@.len() as int),
    ensures
        r as int == (alpha as int + fields_rlc(
            cols_v(fields@),
            row@,
            r2,
            p as int,
            fields@.len(),
        )) % (p as int),
        r < p,
{
    let mut acc: u64 = 0;
    let mut beta: u64 = r2;
    proof {
        lemma_small_mod(1nat, p as nat);
        lemma_small_mod(r2 as nat, p as nat);
        assert(pow_mod_spec(r2 as int, 0nat, p as int) == 1);
        assert(pow_mod_spec(r2 as int, 1nat, p as int) == r2 as int);
    }
    let mut j: usize = 0;
    while j < fields.len()
        invariant
            j <= fields@.len(),
            acc < p,
            acc as int == fields_rlc(cols_v(fields@), row@, r2, p as int, j as nat),
            beta < p,
            beta as int == pow_mod_spec(r2 as int, (j + 1) as nat, p as int),
        decreases fields@.len() - j,
    {
        let v = fields[j].apply(row, p);
        let term = mul_mod(beta, v, p);
        proof {
            assert(cols_v(fields@)[j as int] == fields@[j as int]@);
            vstd::arithmetic::div_mod::lemma_add_mod_noop_right(
                acc as int,
                beta as int * v as int,
                p as int,
            );
        }
        acc = add_mod(acc, term, p);
        beta = mul_mod(beta, r2, p);
        j = j + 1;
    }
    add_mod(alpha, acc, p)
}

/// Generate the permutation trace for a chip: one reciprocal column per
/// interaction occurrence plus the running-sum column.  All reciprocal
/// inputs are inverted together through a single field inversion.
#[verifier::loop_isolation(false)]
#[verifier::rlimit(100)]
pub fn generate_permutation_trace(
    chip: &Chip,
    main: &RowMajorMatrix,
    random_elements: &Vec<u64>,
    p: u64,
) -> (perm: RowMajorMatrix)
    requires
        2 <= p,
        main.wf(),
        chip.wf(main.width as int),
        random_elements@.len() == 3,
        random_elements@[0] < p,
        random_elements@[1] < p,
        random_elements@[2] < p,
        chip.interactions_spec().len() < usize::MAX,
        reciprocals_invertible(
            *chip,
            *main,
            random_elements@[0],
            random_elements@[1],
            random_elements@[2],
            p as int,
        ),
    ensures
        perm.wf(),
        perm.bounded(p as int),
        is_permutation_trace(
            *chip,
            *main,
            random_elements@[0],
            random_elements@[1],
            random_elements@[2],
            p as int,
            perm,
        ),
        main.height_spec() > 0 ==> perm.row_spec(0)[chip.interactions_spec().len() as int]
            == 0,
{
    let r0 = random_elements[0];
    let r1 = random_elements[1];
    let r2 = random_elements[2];
    let pi: Ghost<int> = Ghost(p as int);
    let all = chip.all_interactions();
    let cnt = all.len();
    let ghost ivs = chip.interactions_spec();
    let (alphas_local, alphas_global) = generate_rlc_elements(chip, random_elements, p);
    let height = main.height();

    // Reciprocal inputs, row-major, one entry per occurrence per row.
    let mut buf: Vec<u64> = Vec::new();
    let mut n: usize = 0;
    while n < height
        invariant
            n <= height,
            buf@.len() == n * cnt,
            forall|i: int| 0 <= i < buf@.len() ==> (#[trigger] buf@[i]) < p,
            forall|n2: int, m2: int|
                0 <= n2 < n && 0 <= m2 < cnt ==> buf@[n2 * cnt + m2] as int == #[trigger] rlc_of(
                    ivs[m2].0,
                    main.row_spec(n2),
                    r0,
                    r1,
                    r2,
                    p as int,
                ),
        decreases height - n,
    {
        let row = main.row(n);
        let mut m: usize = 0;
        while m < cnt
            invariant
                n < height,
                m <= cnt,
                buf@.len() == n * cnt + m,
                row@ == main.row_spec(n as int),
                forall|i: int| 0 <= i < buf@.len() ==> (#[trigger] buf@[i]) < p,
                forall|n2: int, m2: int|
                    0 <= n2 < n && 0 <= m2 < cnt ==> buf@[n2 * cnt + m2] as int
                        == #[trigger] rlc_of(
                        ivs[m2].0,
                        main.row_spec(n2),
                        r0,
                        r1,
                        r2,
                        p as int,
                    ),
                forall|m2: int|
                    0 <= m2 < m ==> buf@[n * cnt + m2] as int == #[trigger] rlc_of(
                        ivs[m2].0,
                        main.row_spec(n as int),
                        r0,
                        r1,
                        r2,
                        p as int,
                    ),
            decreases cnt - m,
        {
            let inter = &all[m].0;
            proof {
                assert(tagged_views(all@)[m as int] == ivs[m as int]);
                assert(inter@ == ivs[m as int].0);
                lemma_occurrence_in_scope(*chip, main.width as int, m as int);
                main.lemma_size();
                lemma_flat_index(n as int, 0, height as int, main.width as int);
                assert(row@.len() == main.width as int);
                assert forall|j: int|
                    0 <= j < inter.fields@.len() implies (#[trigger] inter.fields@[j])@.wf(
                    row@.len() as int,
                ) by {
                    assert(ivs[m as int].0.fields[j] == inter.fields@[j]@);
                    assert(ivs[m as int].0.fields[j].wf(main.width as int));
                }
            }
            let idx = inter.argument_index();
            let alpha = if inter.is_local() {
                alphas_local[idx - 1]
            } else {
                alphas_global[idx - 1]
            };
            proof {
                assert(alpha as int == alpha_of(ivs[m as int].0, r0, r1, p as int));
            }
            let val = reduce_row(&row, &inter.fields, alpha, r2, p);
            proof {
                assert(cols_v(inter.fields@) == ivs[m as int].0.fields);
                assert(val as int == rlc_of(
                    ivs[m as int].0,
                    main.row_spec(n as int),
                    r0,
                    r1,
                    r2,
                    p as int,
                ));
            }
            buf.push(val);
            proof {
                assert forall|n2: int, m2: int|
                    0 <= n2 < n && 0 <= m2 < cnt implies buf@[n2 * cnt + m2] as int
                    == #[trigger] rlc_of(
                    ivs[m2].0,
                    main.row_spec(n2),
                    r0,
                    r1,
                    r2,
                    p as int,
                ) by {
                    lemma_flat_index(n2, m2, n as int, cnt as int);
                }
            }
            m = m + 1;
        }
        proof {
            lemma_mul_is_distributive_add_other_way(cnt as int, n as int, 1);
            assert forall|n2: int, m2: int|
                0 <= n2 < n + 1 && 0 <= m2 < cnt implies buf@[n2 * cnt + m2] as int
                == #[trigger] rlc_of(
                ivs[m2].0,
                main.row_spec(n2),
                r0,
                r1,
                r2,
                p as int,
            ) by {
                lemma_flat_index(n2, m2, n as int + 1, cnt as int);
            }
        }
        n = n + 1;
    }

    // Invert the whole buffer at once.
    let ghost buf_view = buf@;
    proof {
        assert forall|i: int| 0 <= i < buf_view.len() implies buf_view[i] < p && has_inverse(
            buf_view[i] as int,
            p as int,
        ) by {
            let n2 = i / cnt as int;
            let m2 = i % cnt as int;
            lemma_fundamental_div_mod(i, cnt as int);
            lemma_mod_bound(i, cnt as int);
            assert(n2 * cnt + m2 == i) by {
                lemma_mul_is_commutative(cnt as int, n2);
            }
            assert(0 <= n2 < height) by {
                vstd::arithmetic::div_mod::lemma_div_pos_is_pos(i, cnt as int);
                if n2 >= height {
                    lemma_mul_inequality(height as int, n2, cnt as int);
                    lemma_mul_is_commutative(n2, cnt as int);
                }
            }
            assert(buf_view[i] as int == rlc_of(
                ivs[m2].0,
                main.row_spec(n2),
                r0,
                r1,
                r2,
                p as int,
            ));
        }
    }
    let recips = batch_invert(buf, p);
    // pins the buffer length as a machine-sized value for the index bounds
    let _recips_len = recips.len();
    proof {
        assert forall|n2: int, m2: int|
            0 <= n2 < height && 0 <= m2 < cnt implies recips@[n2 * cnt + m2] as int == inv_mod(
            #[trigger] rlc_of(ivs[m2].0, main.row_spec(n2), r0, r1, r2, p as int),
            p as int,
        ) && recips@[n2 * cnt + m2] < p by {
            lemma_mul_inequality(n2 + 1, height as int, cnt as int);
            lemma_mul_is_distributive_add_other_way(cnt as int, n2, 1);
            lemma_mul_nonnegative(n2, cnt as int);
            assert(0 <= n2 * cnt + m2 < buf_view.len());
            assert(buf_view[n2 * cnt + m2] as int == rlc_of(
                ivs[m2].0,
                main.row_spec(n2),
                r0,
                r1,
                r2,
                p as int,
            ));
        }
    }

    // Interleave the reciprocal columns with the running-sum column.
    let mut perm_values: Vec<u64> = Vec::new();
    let mut phi: u64 = 0;
    n = 0;
    while n < height
        invariant
            n <= height,
            phi < p,
            phi as int == phi_spec(*chip, *main, r0, r1, r2, p as int, n as nat),
            perm_values@.len() == n * (cnt + 1),
            forall|i: int| 0 <= i < perm_values@.len() ==> (#[trigger] perm_values@[i]) < p,
            forall|n2: int, m2: int|
                0 <= n2 < n && 0 <= m2 < cnt ==> perm_values@[n2 * (cnt + 1) + m2] as int
                    == inv_mod(
                    #[trigger] rlc_of(ivs[m2].0, main.row_spec(n2), r0, r1, r2, p as int),
                    p as int,
                ),
            forall|n2: nat|
                n2 < n ==> perm_values@[n2 * (cnt + 1) + cnt] as int == #[trigger] phi_spec(
                    *chip,
                    *main,
                    r0,
                    r1,
                    r2,
                    p as int,
                    n2,
                ),
        decreases height - n,
    {
        let row = main.row(n);
        proof {
            lemma_mul_inequality(n as int + 1, height as int, cnt as int);
            lemma_mul_inequality(n as int, height as int, cnt as int);
            lemma_mul_is_distributive_add_other_way(cnt as int, n as int, 1);
            lemma_mul_nonnegative(n as int, cnt as int);
            lemma_mul_inequality(n as int, height as int, cnt as int + 1);
        }
        let mut m: usize = 0;
        while m < cnt
            invariant
                n < height,
                m <= cnt,
                row@ == main.row_spec(n as int),
                perm_values@.len() == n * (cnt + 1) + m,
                forall|i: int| 0 <= i < perm_values@.len() ==> (#[trigger] perm_values@[i]) < p,
                forall|n2: int, m2: int|
                    0 <= n2 < n && 0 <= m2 < cnt ==> perm_values@[n2 * (cnt + 1) + m2] as int
                        == inv_mod(
                        #[trigger] rlc_of(ivs[m2].0, main.row_spec(n2), r0, r1, r2, p as int),
                        p as int,
                    ),
                forall|n2: nat|
                    n2 < n ==> perm_values@[n2 * (cnt + 1) + cnt] as int == #[trigger] phi_spec(
                        *chip,
                        *main,
                        r0,
                        r1,
                        r2,
                        p as int,
                        n2,
                    ),
                forall|m2: int|
                    0 <= m2 < m ==> perm_values@[n * (cnt + 1) + m2] as int == inv_mod(
                        #[trigger] rlc_of(
                            ivs[m2].0,
                            main.row_spec(n as int),
                            r0,
                            r1,
                            r2,
                            p as int,
                        ),
                        p as int,
                    ),
            decreases cnt - m,
        {
            let idx = n * cnt + m;
            proof {
                lemma_flat_index(n as int, m as int, height as int, cnt as int);
                assert(recips@[idx as int] as int == inv_mod(
                    rlc_of(ivs[m as int].0, main.row_spec(n as int), r0, r1, r2, p as int),
                    p as int,
                ));
            }
            perm_values.push(recips[idx]);
            proof {
                assert forall|n2: int, m2: int|
                    0 <= n2 < n && 0 <= m2 < cnt implies perm_values@[n2 * (cnt + 1) + m2] as int
                    == inv_mod(
                    #[trigger] rlc_of(ivs[m2].0, main.row_spec(n2), r0, r1, r2, p as int),
                    p as int,
                ) by {
                    lemma_flat_index(n2, m2, n as int, cnt as int + 1);
                }
                assert forall|n2: nat| n2 < n implies perm_values@[n2 * (cnt + 1) + cnt] as int
                    == #[trigger] phi_spec(*chip, *main, r0, r1, r2, p as int, n2) by {
                    lemma_flat_index(n2 as int, cnt as int, n as int, cnt as int + 1);
                }
            }
            m = m + 1;
        }
        perm_values.push(phi);
        proof {
            assert forall|n2: int, m2: int|
                0 <= n2 < n && 0 <= m2 < cnt implies perm_values@[n2 * (cnt + 1) + m2] as int
                == inv_mod(
                #[trigger] rlc_of(ivs[m2].0, main.row_spec(n2), r0, r1, r2, p as int),
                p as int,
            ) by {
                lemma_flat_index(n2, m2, n as int, cnt as int + 1);
            }
            assert forall|n2: nat| n2 < n implies perm_values@[n2 * (cnt + 1) + cnt] as int
                == #[trigger] phi_spec(*chip, *main, r0, r1, r2, p as int, n2) by {
                lemma_flat_index(n2 as int, cnt as int, n as int, cnt as int + 1);
            }
        }
        let ghost phi0 = phi;
        let mut acc: u64 = phi;
        let mut m2: usize = 0;
        while m2 < cnt
            invariant
                n < height,
                m2 <= cnt,
                row@ == main.row_spec(n as int),
                acc < p,
                acc as int == row_terms(
                    ivs,
                    main.row_spec(n as int),
                    r0,
                    r1,
                    r2,
                    p as int,
                    phi0 as int,
                    m2 as nat,
                ),
            decreases cnt - m2,
        {
            let inter = &all[m2].0;
            let t = all[m2].1;
            proof {
                assert(tagged_views(all@)[m2 as int] == ivs[m2 as int]);
                assert(inter@ == ivs[m2 as int].0);
                assert(t == ivs[m2 as int].1);
                lemma_occurrence_in_scope(*chip, main.width as int, m2 as int);
                main.lemma_size();
                lemma_flat_index(n as int, 0, height as int, main.width as int);
                assert(row@.len() == main.width as int);
                assert(inter.count@.wf(row@.len() as int));
                lemma_mul_inequality(n as int + 1, height as int, cnt as int);
                lemma_mul_inequality(n as int, height as int, cnt as int);
                lemma_mul_is_distributive_add_other_way(cnt as int, n as int, 1);
                lemma_mul_nonnegative(n as int, cnt as int);
                lemma_flat_index(n as int, m2 as int, height as int, cnt as int);
            }
            let mult = inter.count.apply(&row, p);
            let idx = n * cnt + m2;
            let term = mul_mod(mult, recips[idx], p);
            let is_send = match t {
                InteractionType::LocalSend | InteractionType::GlobalSend => true,
                InteractionType::LocalReceive | InteractionType::GlobalReceive => false,
            };
            proof {
                assert(term as int == (eval_vcol(ivs[m2 as int].0.count, main.row_spec(n as int), p
                    as int) * inv_mod(
                    rlc_of(ivs[m2 as int].0, main.row_spec(n as int), r0, r1, r2, p as int),
                    p as int,
                )) % (p as int));
                assert(is_send == ivs[m2 as int].1.is_send());
            }
            acc = if is_send {
                add_mod(acc, term, p)
            } else {
                sub_mod(acc, term, p)
            };
            m2 = m2 + 1;
        }
        phi = acc;
        proof {
            lemma_mul_is_distributive_add_other_way(cnt as int + 1, n as int, 1);
            assert(phi as int == phi_spec(*chip, *main, r0, r1, r2, p as int, (n + 1) as nat));
            assert forall|n2: int, m2: int|
                0 <= n2 < n + 1 && 0 <= m2 < cnt implies perm_values@[n2 * (cnt + 1) + m2] as int
                == inv_mod(
                #[trigger] rlc_of(ivs[m2].0, main.row_spec(n2), r0, r1, r2, p as int),
                p as int,
            ) by {
                lemma_flat_index(n2, m2, n as int + 1, cnt as int + 1);
            }
            assert forall|n2: nat| n2 < n + 1 implies perm_values@[n2 * (cnt + 1) + cnt] as int
                == #[trigger] phi_spec(*chip, *main, r0, r1, r2, p as int, n2) by {
                lemma_flat_index(n2 as int, cnt as int, n as int + 1, cnt as int + 1);
            }
        }
        n = n + 1;
    }

    proof {
        lemma_mod_multiples_basic(height as int, cnt as int + 1);
        lemma_mul_is_commutative(height as int, cnt as int + 1);
    }
    let perm = RowMajorMatrix::new(perm_values, cnt + 1);
    proof {
        perm.lemma_size();
        vstd::arithmetic::div_mod::lemma_div_by_multiple(height as int, cnt as int + 1);
        assert(perm.height_spec() == height as nat);
        assert forall|n3: int, m3: int|
            0 <= n3 < main.height_spec() && 0 <= m3 < cnt implies perm.row_spec(n3)[m3] as int
            == inv_mod(
            #[trigger] rlc_of(ivs[m3].0, main.row_spec(n3), r0, r1, r2, p as int),
            p as int,
        ) by {
            lemma_mul_inequality(n3 + 1, height as int, cnt as int + 1);
            lemma_mul_is_distributive_add_other_way(cnt as int + 1, n3, 1);
            lemma_mul_nonnegative(n3, cnt as int + 1);
            assert(perm.row_spec(n3)[m3] == perm.values@[n3 * (cnt + 1) + m3]);
        }
        assert forall|n3: nat| n3 < main.height_spec() implies perm.row_spec(n3 as int)[cnt
            as int] as int == #[trigger] phi_spec(*chip, *main, r0, r1, r2, p as int, n3) by {
            lemma_mul_inequality(n3 as int + 1, height as int, cnt as int + 1);
            lemma_mul_is_distributive_add_other_way(cnt as int + 1, n3 as int, 1);
            lemma_mul_nonnegative(n3 as int, cnt as int + 1);
            assert(perm.row_spec(n3 as int)[cnt as int] == perm.values@[n3 * (cnt + 1) + cnt]);
        }
        if main.height_spec() > 0 {
            assert(phi_spec(*chip, *main, r0, r1, r2, p as int, 0nat) == 0);
            assert(perm.row_spec(0)[cnt as int] as int == phi_spec(
                *chip,
                *main,
                r0,
                r1,
                r2,
                p as int,
                0nat,
            ));
        }
    }
    perm
}

} // verus!
