//! The interaction data model: bus arguments, interaction types, symbolic
//! column projections, and the interactions a chip declares over them.

use crate::field::{add_mod, mul_mod};
use vstd::prelude::*;

verus! {

/// Identifier of the bus argument that ties together the sends and receives
/// that must balance.  The `Local` and `Global` spaces are disjoint:
/// `Local(3)` and `Global(3)` never alias.
#[derive(Clone, Copy, PartialEq, Eq, Structural, Debug)]
pub enum BusArgument {
    Local(usize),
    Global(usize),
}

impl BusArgument {
    /// The raw index, regardless of scope.
    pub open spec fn index_spec(self) -> nat {
        match self {
            BusArgument::Local(i) => i as nat,
            BusArgument::Global(i) => i as nat,
        }
    }

    pub open spec fn is_local_spec(self) -> bool {
        self is Local
    }
}

/// The four kinds of interaction occurrence.  Sends contribute positively to
/// the running sum, receives negatively.
#[derive(Clone, Copy, PartialEq, Eq, Structural, Debug)]
pub enum InteractionType {
    LocalSend,
    LocalReceive,
    GlobalSend,
    GlobalReceive,
}

impl InteractionType {
    pub open spec fn is_send(self) -> bool {
        self is LocalSend || self is GlobalSend
    }
}

/// A symbolic column projection: the affine map
/// `row |-> constant + sum_j weight_j * row[col_j]` over the base field,
/// evaluated modulo `p`.
pub struct VirtualPairCol {
    pub constant: u64,
    pub weights: Vec<(usize, u64)>,
}

/// Mathematical image of a [`VirtualPairCol`].
#[verifier::ext_equal]
pub struct VirtualPairColV {
    pub constant: u64,
    pub weights: Seq<(usize, u64)>,
}

impl View for VirtualPairCol {
    type V = VirtualPairColV;

    open spec fn view(&self) -> VirtualPairColV {
        VirtualPairColV { constant: self.constant, weights: self.weights@ }
    }
}

impl VirtualPairColV {
    /// Every referenced column lies inside a row of the given width.
    pub open spec fn wf(self, width: int) -> bool {
        forall|j: int|
            0 <= j < self.weights.len() ==> (#[trigger] self.weights[j]).0 < width
    }
}

/// The affine evaluation restricted to the first `k` weights, modulo `p`.
pub open spec fn eval_prefix(c: VirtualPairColV, row: Seq<u64>, p: int, k: nat) -> int
    decreases k,
{
    if k == 0 {
        c.constant as int % p
    } else {
        (eval_prefix(c, row, p, (k - 1) as nat) + c.weights[k - 1].1 as int * row[c.weights[k
            - 1].0 as int] as int) % p
    }
}

/// The value of the projection `c` on `row`, modulo `p`.
pub open spec fn eval_vcol(c: VirtualPairColV, row: Seq<u64>, p: int) -> int {
    eval_prefix(c, row, p, c.weights.len())
}

impl VirtualPairCol {
    /// Evaluate the projection on one concrete row.
    pub fn apply(&self, row: &Vec<u64>, p: u64) -> (r: u64)
        requires
            1 <= p,
            self@.wf(row@.len() as int),
        ensures
            r as int == eval_vcol(self@, row@, p as int),
            r < p,
    {
        let mut acc: u64 = self.constant % p;
        proof {
            vstd::arithmetic::div_mod::lemma_mod_bound(self.constant as int, p as int);
        }
        let mut j: usize = 0;
        while j < self.weights.len()
            invariant
                1 <= p,
                j <= self.weights.len(),
                self@.wf(row@.len() as int),
                acc < p,
                acc as int == eval_prefix(self@, row@, p as int, j as nat),
            decreases self.weights.len() - j,
        {
            let (col, w) = self.weights[j];
            let term = mul_mod(w, row[col], p);
            proof {
                vstd::arithmetic::div_mod::lemma_add_mod_noop_right(
                    acc as int,
                    w as int * row@[col as int] as int,
                    p as int,
                );
            }
            acc = add_mod(acc, term, p);
            j = j + 1;
        }
        acc
    }
}

impl Clone for VirtualPairCol {
    fn clone(&self) -> (r: Self)
        ensures
            r@ == self@,
    {
        let mut weights: Vec<(usize, u64)> = Vec::new();
        let mut j: usize = 0;
        while j < self.weights.len()
            invariant
                j <= self.weights.len(),
                weights@ == self.weights@.subrange(0, j as int),
            decreases self.weights.len() - j,
        {
            weights.push(self.weights[j]);
            proof {
                assert(self.weights@.subrange(0, j + 1) =~= self.weights@.subrange(
                    0,
                    j as int,
                ).push(self.weights@[j as int]));
            }
            j = j + 1;
        }
        proof {
            assert(weights@ =~= self.weights@);
        }
        VirtualPairCol { constant: self.constant, weights }
    }
}

/// A single send/receive assertion: the projected field values, the
/// multiplicity projection, and the bus argument it balances over.
pub struct Interaction {
    pub fields: Vec<VirtualPairCol>,
    pub count: VirtualPairCol,
    pub argument_index: BusArgument,
}

/// Mathematical image of an [`Interaction`].
#[verifier::ext_equal]
pub struct InteractionV {
    pub fields: Seq<VirtualPairColV>,
    pub count: VirtualPairColV,
    pub argument_index: BusArgument,
}

impl View for Interaction {
    type V = InteractionV;

    open spec fn view(&self) -> InteractionV {
        InteractionV {
            fields: self.fields@.map_values(|c: VirtualPairCol| c@),
            count: self.count@,
            argument_index: self.argument_index,
        }
    }
}

impl InteractionV {
    /// Projections stay inside a row of the given width, and the bus index
    /// is at least one, so that it selects a nonzero power of the challenge.
    pub open spec fn wf(self, width: int) -> bool {
        &&& self.count.wf(width)
        &&& forall|j: int| 0 <= j < self.fields.len() ==> (#[trigger] self.fields[j]).wf(width)
        &&& self.argument_index.index_spec() >= 1
    }
}

impl Interaction {
    /// Whether the interaction balances over a chip-local bus argument.
    pub fn is_local(&self) -> (r: bool)
        ensures
            r == self@.argument_index.is_local_spec(),
    {
        match self.argument_index {
            BusArgument::Local(_) => true,
            BusArgument::Global(_) => false,
        }
    }

    /// Whether the interaction balances over a machine-wide bus argument.
    pub fn is_global(&self) -> (r: bool)
        ensures
            r == !self@.argument_index.is_local_spec(),
    {
        match self.argument_index {
            BusArgument::Local(_) => false,
            BusArgument::Global(_) => true,
        }
    }

    /// The raw bus index, regardless of scope.
    pub fn argument_index(&self) -> (r: usize)
        ensures
            r as nat == self@.argument_index.index_spec(),
    {
        match self.argument_index {
            BusArgument::Local(i) => i,
            BusArgument::Global(i) => i,
        }
    }
}

impl Clone for Interaction {
    fn clone(&self) -> (r: Self)
        ensures
            r@ == self@,
    {
        let mut fields: Vec<VirtualPairCol> = Vec::new();
        let mut j: usize = 0;
        while j < self.fields.len()
            invariant
                j <= self.fields.len(),
                fields@.len() == j,
                forall|i: int| 0 <= i < j ==> (#[trigger] fields@[i])@ == self.fields@[i]@,
            decreases self.fields.len() - j,
        {
            fields.push(self.fields[j].clone());
            j = j + 1;
        }
        let r = Interaction {
            fields,
            count: self.count.clone(),
            argument_index: self.argument_index,
        };
        proof {
            assert(r@.fields =~= self@.fields);
            assert(r@ =~= self@);
        }
        r
    }
}

} // verus!
