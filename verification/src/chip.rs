//! A chip's static interaction declaration, the flattening of its sends and
//! receives into one ordered occurrence list, and the grouping of that list
//! by bus argument.

use crate::interaction::{BusArgument, Interaction, InteractionType, InteractionV};
use vstd::prelude::*;

verus! {

/// The interaction declaration of one execution unit.  The occurrence list
/// is the concatenation `local_sends ++ local_receives ++ global_sends ++
/// global_receives`, and that order is load-bearing: the permutation column
/// assigned to an occurrence is its position in this list.
pub struct Chip {
    pub local_sends: Vec<Interaction>,
    pub local_receives: Vec<Interaction>,
    pub global_sends: Vec<Interaction>,
    pub global_receives: Vec<Interaction>,
}

/// The views of a sequence of interactions.
pub open spec fn views_of(s: Seq<Interaction>) -> Seq<InteractionV> {
    s.map_values(|x: Interaction| x@)
}

/// Tag every interaction of a list with the same occurrence type.
pub open spec fn tag(s: Seq<InteractionV>, t: InteractionType) -> Seq<(InteractionV,
    InteractionType)> {
    s.map_values(|iv: InteractionV| (iv, t))
}

/// The views of an executable tagged occurrence list.
pub open spec fn tagged_views(s: Seq<(Interaction, InteractionType)>) -> Seq<(InteractionV,
    InteractionType)> {
    s.map_values(|pr: (Interaction, InteractionType)| (pr.0@, pr.1))
}

/// The ordered positions (among the first `k` occurrences) whose bus
/// argument is `b`.
pub open spec fn positions_of(args: Seq<BusArgument>, b: BusArgument, k: nat) -> Seq<int>
    decreases k,
{
    if k == 0 {
        Seq::empty()
    } else {
        let rest = positions_of(args, b, (k - 1) as nat);
        if args[k - 1] == b {
            rest.push(k - 1)
        } else {
            rest
        }
    }
}

/// The distinct bus arguments among the first `k` occurrences, in order of
/// first encounter.
pub open spec fn keys_of(args: Seq<BusArgument>, k: nat) -> Seq<BusArgument>
    decreases k,
{
    if k == 0 {
        Seq::empty()
    } else {
        let rest = keys_of(args, (k - 1) as nat);
        if rest.contains(args[k - 1]) {
            rest
        } else {
            rest.push(args[k - 1])
        }
    }
}

impl Chip {
    /// The flattened, tagged occurrence list, as a mathematical sequence.
    pub open spec fn interactions_spec(self) -> Seq<(InteractionV, InteractionType)> {
        tag(views_of(self.local_sends@), InteractionType::LocalSend) + tag(
            views_of(self.local_receives@),
            InteractionType::LocalReceive,
        ) + tag(views_of(self.global_sends@), InteractionType::GlobalSend) + tag(
            views_of(self.global_receives@),
            InteractionType::GlobalReceive,
        )
    }

    /// The bus argument of each occurrence, in occurrence order.
    pub open spec fn args_spec(self) -> Seq<BusArgument> {
        self.interactions_spec().map_values(
            |pr: (InteractionV, InteractionType)| pr.0.argument_index,
        )
    }

    /// The interactions declared under a chip-local scope.
    pub open spec fn locals_v(self) -> Seq<InteractionV> {
        views_of(self.local_sends@) + views_of(self.local_receives@)
    }

    /// The interactions declared under a machine-wide scope.
    pub open spec fn globals_v(self) -> Seq<InteractionV> {
        views_of(self.global_sends@) + views_of(self.global_receives@)
    }

    /// A well-formed declaration: every projection stays inside a row of
    /// the given width, bus indices are at least one, and the scope of each
    /// list matches the tag space of its bus arguments.
    pub open spec fn wf(self, width: int) -> bool {
        &&& forall|j: int|
            0 <= j < self.locals_v().len() ==> (#[trigger] self.locals_v()[j]).wf(width)
                && self.locals_v()[j].argument_index is Local
        &&& forall|j: int|
            0 <= j < self.globals_v().len() ==> (#[trigger] self.globals_v()[j]).wf(width)
                && self.globals_v()[j].argument_index is Global
    }

    /// Flatten the declaration into the ordered, tagged occurrence list
    /// `local_sends ++ local_receives ++ global_sends ++ global_receives`.
    pub fn all_interactions(&self) -> (r: Vec<(Interaction, InteractionType)>)
        ensures
            tagged_views(r@) == self.interactions_spec(),
            r@.len() == self.interactions_spec().len(),
    {
        let ghost s = self.interactions_spec();
        let mut r: Vec<(Interaction, InteractionType)> = Vec::new();
        let mut i: usize = 0;
        while i < self.local_sends.len()
            invariant
                i <= self.local_sends.len(),
                s == self.interactions_spec(),
                r@.len() == i,
                forall|j: int|
                    0 <= j < r@.len() ==> ((#[trigger] r@[j]).0@, r@[j].1) == s[j],
            decreases self.local_sends.len() - i,
        {
            r.push((self.local_sends[i].clone(), InteractionType::LocalSend));
            i = i + 1;
        }
        let base1 = r.len();
        i = 0;
        while i < self.local_receives.len()
            invariant
                i <= self.local_receives.len(),
                s == self.interactions_spec(),
                base1 == self.local_sends@.len(),
                r@.len() == base1 + i,
                forall|j: int|
                    0 <= j < r@.len() ==> ((#[trigger] r@[j]).0@, r@[j].1) == s[j],
            decreases self.local_receives.len() - i,
        {
            r.push((self.local_receives[i].clone(), InteractionType::LocalReceive));
            i = i + 1;
        }
        let base2 = r.len();
        i = 0;
        while i < self.global_sends.len()
            invariant
                i <= self.global_sends.len(),
                s == self.interactions_spec(),
                base2 == self.local_sends@.len() + self.local_receives@.len(),
                r@.len() == base2 + i,
                forall|j: int|
                    0 <= j < r@.len() ==> ((#[trigger] r@[j]).0@, r@[j].1) == s[j],
            decreases self.global_sends.len() - i,
        {
            r.push((self.global_sends[i].clone(), InteractionType::GlobalSend));
            i = i + 1;
        }
        let base3 = r.len();
        i = 0;
        while i < self.global_receives.len()
            invariant
                i <= self.global_receives.len(),
                s == self.interactions_spec(),
                base3 == self.local_sends@.len() + self.local_receives@.len()
                    + self.global_sends@.len(),
                r@.len() == base3 + i,
                forall|j: int|
                    0 <= j < r@.len() ==> ((#[trigger] r@[j]).0@, r@[j].1) == s[j],
            decreases self.global_receives.len() - i,
        {
            r.push((self.global_receives[i].clone(), InteractionType::GlobalReceive));
            i = i + 1;
        }
        proof {
            assert(tagged_views(r@) =~= s);
        }
        r
    }

    /// Group the occurrence positions by bus argument: one entry per
    /// distinct argument, in order of first encounter, each carrying the
    /// ordered positions that reference it.
    pub fn interaction_map(&self) -> (r: Vec<(BusArgument, Vec<usize>)>)
        ensures
            r@.map_values(|e: (BusArgument, Vec<usize>)| e.0) == keys_of(
                self.args_spec(),
                self.args_spec().len(),
            ),
            forall|i: int|
                0 <= i < r@.len() ==> (#[trigger] r@[i]).1@.map_values(|u: usize| u as int)
                    == positions_of(self.args_spec(), r@[i].0, self.args_spec().len()),
    {
        let ghost args = self.args_spec();
        let all = self.all_interactions();
        proof {
            assert forall|j: int| 0 <= j < all@.len() implies (#[trigger] all@[j]).0@.argument_index
                == args[j] by {
                assert(tagged_views(all@)[j] == self.interactions_spec()[j]);
            }
        }
        let mut r: Vec<(BusArgument, Vec<usize>)> = Vec::new();
        let mut m: usize = 0;
        proof {
            assert(r@.map_values(|e: (BusArgument, Vec<usize>)| e.0) =~= keys_of(args, 0));
        }
        while m < all.len()
            invariant
                m <= all.len(),
                args == self.args_spec(),
                all@.len() == args.len(),
                forall|j: int| 0 <= j < all@.len() ==> (#[trigger] all@[j]).0@.argument_index
                    == args[j],
                r@.map_values(|e: (BusArgument, Vec<usize>)| e.0) == keys_of(args, m as nat),
                forall|i: int, i2: int|
                    0 <= i < i2 < r@.len() ==> (#[trigger] r@[i]).0 != (#[trigger] r@[i2]).0,
                forall|i: int|
                    0 <= i < r@.len() ==> (#[trigger] r@[i]).1@.map_values(|u: usize| u as int)
                        == positions_of(args, r@[i].0, m as nat),
            decreases all.len() - m,
        {
            let b = all[m].0.argument_index;
            proof {
                assert(all@[m as int].0@.argument_index == b);
                assert(args[m as int] == b);
            }
            let mut found: usize = r.len();
            let mut j: usize = 0;
            while j < r.len()
                invariant
                    j <= r@.len(),
                    found <= r@.len(),
                    found == r@.len() ==> forall|i: int| 0 <= i < j ==> (#[trigger] r@[i]).0 != b,
                    found < r@.len() ==> r@[found as int].0 == b,
                decreases r@.len() - j,
            {
                if found == r.len() && r[j].0 == b {
                    found = j;
                }
                j = j + 1;
            }
            if found < r.len() {
                let ghost keys = r@.map_values(|e: (BusArgument, Vec<usize>)| e.0);
                proof {
                    assert(r@[found as int].0 == b);
                    assert(keys[found as int] == b);
                    assert(keys.contains(b));
                    assert(keys_of(args, (m + 1) as nat) == keys_of(args, m as nat));
                }
                let mut positions = clone_positions(&r[found].1);
                positions.push(m);
                let entry = (b, positions);
                proof {
                    let old_pos = r@[found as int].1@.map_values(|u: usize| u as int);
                    assert(entry.1@.map_values(|u: usize| u as int) =~= old_pos.push(m as int));
                }
                let ghost old_r = r@;
                r.set(found, entry);
                proof {
                    assert(r@.map_values(|e: (BusArgument, Vec<usize>)| e.0) =~= keys);
                    assert forall|i: int| 0 <= i < r@.len() implies (#[trigger] r@[i]).1@.map_values(
                        |u: usize| u as int,
                    ) == positions_of(args, r@[i].0, (m + 1) as nat) by {
                        if i == found {
                            assert(r@[i] == entry);
                            assert(positions_of(args, b, (m + 1) as nat) == positions_of(
                                args,
                                b,
                                m as nat,
                            ).push(m as int));
                        } else {
                            assert(r@[i] == old_r[i]);
                            if i < found {
                                assert(old_r[i].0 != old_r[found as int].0);
                            } else {
                                assert(old_r[found as int].0 != old_r[i].0);
                            }
                            assert(r@[i].0 != b);
                            assert(positions_of(args, r@[i].0, (m + 1) as nat) == positions_of(
                                args,
                                r@[i].0,
                                m as nat,
                            ));
                        }
                    }
                }
            } else {
                proof {
                    let keys = r@.map_values(|e: (BusArgument, Vec<usize>)| e.0);
                    assert forall|i: int| 0 <= i < keys.len() implies keys[i] != b by {
                        assert(r@[i].0 != b);
                    }
                    assert(!keys.contains(b));
                    lemma_unseen_has_no_positions(args, b, m as nat);
                }
                let mut positions: Vec<usize> = Vec::new();
                positions.push(m);
                let ghost old_r = r@;
                r.push((b, positions));
                proof {
                    assert(r@.map_values(|e: (BusArgument, Vec<usize>)| e.0) =~= keys_of(
                        args,
                        (m + 1) as nat,
                    ));
                    assert forall|i: int| 0 <= i < r@.len() implies (#[trigger] r@[i]).1@.map_values(
                        |u: usize| u as int,
                    ) == positions_of(args, r@[i].0, (m + 1) as nat) by {
                        if i == r@.len() - 1 {
                            assert(r@[i].0 == b && r@[i].1@ =~= seq![m]);
                            assert(r@[i].1@.map_values(|u: usize| u as int) =~= positions_of(
                                args,
                                b,
                                m as nat,
                            ).push(m as int));
                        } else {
                            assert(r@[i] == old_r[i]);
                            assert(r@[i].0 != b);
                            assert(positions_of(args, r@[i].0, (m + 1) as nat) == positions_of(
                                args,
                                r@[i].0,
                                m as nat,
                            ));
                        }
                    }
                }
            }
            m = m + 1;
        }
        r
    }
}

/// A bus argument outside the first `k` occurrences' keys has no positions
/// among them.
proof fn lemma_unseen_has_no_positions(args: Seq<BusArgument>, b: BusArgument, k: nat)
    requires
        k <= args.len(),
        !keys_of(args, k).contains(b),
    ensures
        positions_of(args, b, k) == Seq::<int>::empty(),
    decreases k,
{
    if k > 0 {
        let rest = keys_of(args, (k - 1) as nat);
        if rest.contains(args[k - 1]) {
            assert(keys_of(args, k) == rest);
        } else {
            assert(keys_of(args, k) == rest.push(args[k - 1]));
            assert forall|x: BusArgument| rest.contains(x) implies keys_of(args, k).contains(
                x,
            ) by {
                let i = choose|i: int| 0 <= i < rest.len() && rest[i] == x;
                assert(keys_of(args, k)[i] == x);
            }
            assert(keys_of(args, k)[keys_of(args, k).len() - 1] == args[k - 1]);
            assert(keys_of(args, k).contains(args[k - 1]));
        }
        assert(!rest.contains(b));
        lemma_unseen_has_no_positions(args, b, (k - 1) as nat);
        assert(args[k - 1] != b);
    }
}

/// Copy a list of occurrence positions.
fn clone_positions(v: &Vec<usize>) -> (r: Vec<usize>)
    ensures
        r@ == v@,
{
    let mut r: Vec<usize> = Vec::new();
    let mut j: usize = 0;
    while j < v.len()
        invariant
            j <= v.len(),
            r@ == v@.subrange(0, j as int),
        decreases v.len() - j,
    {
        r.push(v[j]);
        proof {
            assert(v@.subrange(0, j + 1) =~= v@.subrange(0, j as int).push(v@[j as int]));
        }
        j = j + 1;
    }
    proof {
        assert(r@ =~= v@);
    }
    r
}

} // verus!
