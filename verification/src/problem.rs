use vstd::prelude::*;

use crate::constraint::{all_assigned, doms_wf, vars_in_range, Constraint, ConstraintError,
    ConstraintKind, ConstraintVariable, FunctionConstraint};
use crate::domain::{contains_val, copy_values, lemma_checkpoint_symmetry, Domain};
use crate::variable::Variable;

verus! {

/// A strategy that drives the search for solutions.  The engine ships one
/// built-in strategy: depth-first recursive backtracking with forward
/// checking, the strategy `Problem::solve` and `Problem::solutions` use.
pub trait Solver {

}

/// The complete assignment `s`, one value per variable, as a partial
/// assignment map.
pub open spec fn lift_asg(s: Seq<i32>) -> Seq<Option<i32>> {
    Seq::new(s.len(), |i: int| Some(s[i]))
}

/// The number of unassigned slots of `asg`, counting positions from `i` on.
pub open spec fn none_count_from(asg: Seq<Option<i32>>, i: int) -> int
    decreases asg.len() - i,
{
    if i < 0 || i >= asg.len() {
        0
    } else {
        (if asg[i] is None {
            1int
        } else {
            0int
        }) + none_count_from(asg, i + 1)
    }
}

/// The number of unassigned slots of `asg`.
pub open spec fn none_count(asg: Seq<Option<i32>>) -> int {
    none_count_from(asg, 0)
}

/// Bounds and splits for the unassigned-slot count.
proof fn lemma_none_count_split(asg: Seq<Option<i32>>, i: int)
    requires
        0 <= i <= asg.len(),
    ensures
        none_count_from(asg, i) >= 0,
        none_count_from(asg, i) <= asg.len() - i,
        asg[i] is None && i < asg.len() ==> none_count_from(asg, i) >= 1,
    decreases asg.len() - i,
{
    if i < asg.len() {
        lemma_none_count_split(asg, i + 1);
    }
}

/// Filling one unassigned slot lowers the unassigned count by one.
proof fn lemma_none_count_update(asg: Seq<Option<i32>>, v: int, x: i32, i: int)
    requires
        0 <= v < asg.len(),
        asg[v] is None,
        0 <= i,
    ensures
        none_count_from(asg.update(v, Some(x)), i) == none_count_from(asg, i) - (if i <= v {
            1int
        } else {
            0int
        }),
    decreases asg.len() - i,
{
    if i < asg.len() {
        lemma_none_count_update(asg, v, x, i + 1);
    }
}

/// An unassigned slot makes the unassigned count positive.
proof fn lemma_none_count_ge_one(asg: Seq<Option<i32>>, v: int, i: int)
    requires
        0 <= i <= v < asg.len(),
        asg[v] is None,
    ensures
        none_count_from(asg, i) >= 1,
    decreases v - i,
{
    if i < v {
        lemma_none_count_ge_one(asg, v, i + 1);
        lemma_none_count_split(asg, i + 1);
    } else {
        lemma_none_count_split(asg, i + 1);
    }
}

/// Two duplicate-free sequences over the same value set have the same
/// length.
proof fn lemma_nodup_same_set_same_len(a: Seq<i32>, b: Seq<i32>)
    requires
        a.no_duplicates(),
        b.no_duplicates(),
        a.to_set() == b.to_set(),
    ensures
        a.len() == b.len(),
{
    a.unique_seq_to_set();
    b.unique_seq_to_set();
}

/// The domains of `doms1` hold exactly the same live value sets, hidden
/// sequences and checkpoint stacks as those of `doms0`.
pub open spec fn doms_restored(doms0: Seq<Domain>, doms1: Seq<Domain>) -> bool {
    &&& doms1.len() == doms0.len()
    &&& forall|j: int|
        0 <= j < doms0.len() ==> (#[trigger] doms1[j])@.values.to_set() == doms0[j]@.values.to_set()
            && doms1[j]@.hidden == doms0[j]@.hidden && doms1[j]@.states == doms0[j]@.states
}

/// Every registry entry is usable against `n` domains: it spans at least
/// one variable, all its indices are in range, and its parameters are
/// valid.
pub open spec fn entries_ok(entries: Seq<ConstraintVariable>, n: nat) -> bool {
    forall|k: int|
        0 <= k < entries.len() ==> (#[trigger] entries[k]).variables@.len() >= 1 && vars_in_range(
            entries[k].variables@,
            n,
        ) && entries[k].constraint.valid(entries[k].variables@)
}

/// A constraint-satisfaction problem: variables with their domains, and the
/// registered constraints.
pub struct Problem {
    /// The registered variables; a variable's index is its handle.
    pub variables: Vec<Variable>,
    /// One domain per variable, at matching indices.
    pub domains: Vec<Domain>,
    /// The constraint registry.
    pub constraints: Vec<ConstraintVariable>,
}

impl Problem {
    /// Well-formedness: one domain per variable, all domains well-formed,
    /// and every registry entry in range and valid.
    pub open spec fn wf(&self) -> bool {
        &&& self.domains@.len() == self.variables@.len()
        &&& doms_wf(self.domains@)
        &&& entries_ok(self.constraints@, self.domains@.len() as nat)
    }

    /// The number of variables.
    pub open spec fn spec_len(&self) -> nat {
        self.variables@.len() as nat
    }

    /// Creates an empty problem.
    pub fn new() -> (p: Problem)
        ensures
            p.wf(),
            p.variables@.len() == 0,
            p.constraints@.len() == 0,
    {
        Problem { variables: Vec::new(), domains: Vec::new(), constraints: Vec::new() }
    }

    /// The registered variables, in registration order; a variable's index
    /// in this vector is its handle.
    pub fn variables(&self) -> (r: &Vec<Variable>)
        ensures
            r@ == self.variables@,
    {
        &self.variables
    }

    /// The registered constraints.
    pub fn constraints(&self) -> (r: &Vec<ConstraintVariable>)
        ensures
            r@ == self.constraints@,
    {
        &self.constraints
    }

    /// The domain of the variable with index `v`.
    pub fn domain(&self, v: usize) -> (r: &Domain)
        requires
            v < self.spec_len(),
            self.wf(),
        ensures
            r@ == self.domains@[v as int]@,
    {
        &self.domains[v]
    }

    /// Registers a variable with its initial candidate values and returns
    /// its index.
    pub fn add_variable(&mut self, variable: Variable, initial_values: Vec<i32>) -> (idx: usize)
        requires
            old(self).wf(),
            initial_values@.no_duplicates(),
        ensures
            final(self).wf(),
            idx == old(self).spec_len(),
            final(self).variables@ == old(self).variables@.push(variable),
            final(self).constraints@ == old(self).constraints@,
            final(self).domains@.len() == old(self).domains@.len() + 1,
            final(self).domains@[idx as int]@.values == initial_values@,
            final(self).domains@[idx as int]@.hidden == Seq::<i32>::empty(),
            final(self).domains@[idx as int]@.states == Seq::<usize>::empty(),
            forall|j: int|
                0 <= j < old(self).domains@.len() ==> (#[trigger] final(self).domains@[j])@ == old(self).domains@[j]@,
    {
        let idx = self.variables.len();
        self.variables.push(variable);
        let d = Domain::new(initial_values.as_slice());
        self.domains.push(d);
        proof {
            assert(doms_wf(self.domains@)) by {
                assert forall|j: int| 0 <= j < self.domains@.len() implies (
                #[trigger] self.domains@[j])@.wf() by {
                    if j < old(self).domains@.len() {
                        assert(self.domains@[j] == old(self).domains@[j]);
                    }
                }
            }
            assert(entries_ok(self.constraints@, self.domains@.len() as nat)) by {
                assert forall|k: int|
                    0 <= k < self.constraints@.len() implies (
                #[trigger] self.constraints@[k]).variables@.len() >= 1 && vars_in_range(
                    self.constraints@[k].variables@,
                    self.domains@.len() as nat,
                ) && self.constraints@[k].constraint.valid(self.constraints@[k].variables@) by {
                    assert(self.constraints@[k] == old(self).constraints@[k]);
                }
            }
        }
        idx
    }

    /// Registers a constraint against an ordered list of variable indices.
    /// A constraint must span at least one registered variable and its
    /// parameters must fit the list; a malformed registration is rejected
    /// with an error and leaves the problem unchanged.
    pub fn add_constraint(&mut self, constraint: ConstraintKind, variables: Vec<usize>) -> (r:
        Result<(), ConstraintError>)
        requires
            old(self).wf(),
        ensures
            final(self).wf(),
            final(self).variables@ == old(self).variables@,
            final(self).domains@ == old(self).domains@,
            r is Ok <==> (variables@.len() >= 1 && vars_in_range(
                variables@,
                old(self).spec_len(),
            ) && constraint.valid(variables@)),
            r is Ok ==> final(self).constraints@ == old(self).constraints@.push(
                ConstraintVariable { constraint, variables },
            ),
            r is Err ==> final(self).constraints@ == old(self).constraints@,
    {
        if variables.len() == 0 {
            return Err(ConstraintError::new("a constraint must span at least one variable"));
        }
        let mut i: usize = 0;
        while i < variables.len()
            invariant
                i <= variables@.len(),
                self == old(self),
                self.wf(),
                forall|k: int| 0 <= k < i ==> (#[trigger] variables@[k]) < old(self).spec_len(),
            decreases variables@.len() - i,
        {
            if variables[i] >= self.variables.len() {
                return Err(ConstraintError::new("a constraint names an unregistered variable"));
            }
            i += 1;
        }
        let valid = constraint.check_valid(&variables);
        if !valid {
            return Err(
                ConstraintError::new("the constraint parameters do not fit its variable list"),
            );
        }
        let entry = ConstraintVariable { constraint, variables };
        self.constraints.push(entry);
        proof {
            assert(entries_ok(self.constraints@, self.domains@.len() as nat)) by {
                assert forall|k: int|
                    0 <= k < self.constraints@.len() implies (
                #[trigger] self.constraints@[k]).variables@.len() >= 1 && vars_in_range(
                    self.constraints@[k].variables@,
                    self.domains@.len() as nat,
                ) && self.constraints@[k].constraint.valid(self.constraints@[k].variables@) by {
                    if k < old(self).constraints@.len() {
                        assert(self.constraints@[k] == old(self).constraints@[k]);
                    }
                }
            }
        }
        Ok(())
    }

    /// Resets every domain to its full initial value set, then runs each
    /// registered constraint's one-time preprocessing in registration
    /// order, permanently narrowing domains and dropping from the registry
    /// every constraint that preprocessing resolves.  After the call no
    /// surviving entry is of a kind that preprocessing removes
    /// unconditionally, and every domain value that survives is one the
    /// processed constraints allow.
    pub fn pre_process(&mut self)
        requires
            old(self).wf(),
        ensures
            final(self).wf(),
            final(self).variables@ == old(self).variables@,
            final(self).domains@.len() == old(self).domains@.len(),
            forall|j: int|
                0 <= j < final(self).domains@.len() ==> (#[trigger] final(self).domains@[j])@.hidden.len() == 0 && final(self).domains@[j]@.states.len() == 0,
            forall|k: int|
                0 <= k < final(self).constraints@.len() ==> old(self).constraints@.contains(
                    #[trigger] final(self).constraints@[k],
                ) && !final(self).constraints@[k].constraint.pre_removes(
                    final(self).constraints@[k].variables@,
                ),
            forall|k: int|
                0 <= k < old(self).constraints@.len() && !(#[trigger] old(self).constraints@[k]).constraint.pre_removes(
                    old(self).constraints@[k].variables@,
                ) ==> final(self).constraints@.contains(old(self).constraints@[k]),
            forall|k: int, i: int, x: i32|
                0 <= k < old(self).constraints@.len() && 0 <= i < old(self).constraints@[k].variables@.len() && (#[trigger] final(self).domains@[old(self).constraints@[k].variables@[i] as int]@.values.contains(x)) ==> old(self).constraints@[k].constraint.pre_keeps(
                    old(self).constraints@[k].variables@,
                    old(self).domains@.len() as nat,
                    old(self).constraints@[k].variables@[i],
                    x,
                ),
            forall|v: int, x: i32|
                0 <= v < final(self).domains@.len() ==> ((#[trigger] final(self).domains@[v]@.values.contains(x)) <==> ((old(self).domains@[v]@.values.contains(x) || old(self).domains@[v]@.hidden.contains(x)) && (forall|k: int|
                    0 <= k < old(self).constraints@.len() && (#[trigger] old(self).constraints@[k].variables@.contains(v as usize)) ==> old(self).constraints@[k].constraint.pre_keeps(
                        old(self).constraints@[k].variables@,
                        old(self).domains@.len() as nat,
                        v as usize,
                        x,
                    )))),
    {
        let ghost n = self.domains@.len();
        // Restore every domain to its full value set.
        let mut j: usize = 0;
        while j < self.domains.len()
            invariant
                j <= self.domains@.len(),
                self.domains@.len() == n,
                self.variables@ == old(self).variables@,
                self.constraints@ == old(self).constraints@,
                old(self).wf(),
                doms_wf(self.domains@),
                forall|t: int|
                    0 <= t < j ==> (#[trigger] self.domains@[t])@.hidden.len() == 0
                        && self.domains@[t]@.states.len() == 0,
                forall|t: int|
                    j <= t < n ==> (#[trigger] self.domains@[t])@ == old(self).domains@[t]@,
                forall|t: int, x: i32|
                    0 <= t < j ==> ((#[trigger] self.domains@[t]@.values.contains(x)) <==> (old(self).domains@[t]@.values.contains(x) || old(self).domains@[t]@.hidden.contains(x))),
            decreases self.domains@.len() - j,
        {
            let ghost dbefore = self.domains@[j as int]@;
            self.domains[j].reset_state();
            proof {
                assert forall|x: i32|
                    (#[trigger] self.domains@[j as int]@.values.contains(x)) <==> (
                dbefore.values.contains(x) || dbefore.hidden.contains(x)) by {
                    let cat = dbefore.values + dbefore.hidden;
                    assert(self.domains@[j as int]@.values == cat);
                    if cat.contains(x) {
                        let k2 = choose|k2: int| 0 <= k2 < cat.len() && cat[k2] == x;
                        if k2 < dbefore.values.len() {
                            assert(dbefore.values[k2] == x);
                        } else {
                            assert(dbefore.hidden[k2 - dbefore.values.len()] == x);
                        }
                    }
                    if dbefore.values.contains(x) {
                        let k2 = choose|k2: int|
                            0 <= k2 < dbefore.values.len() && dbefore.values[k2] == x;
                        assert(cat[k2] == x);
                    }
                    if dbefore.hidden.contains(x) {
                        let k2 = choose|k2: int|
                            0 <= k2 < dbefore.hidden.len() && dbefore.hidden[k2] == x;
                        assert(cat[dbefore.values.len() + k2] == x);
                    }
                }
            }
            proof {
                assert(doms_wf(self.domains@)) by {
                    assert forall|t: int| 0 <= t < self.domains@.len() implies (
                    #[trigger] self.domains@[t])@.wf() by {}
                }
            }
            j += 1;
        }
        let ghost orig = self.constraints@;
        let ghost n2 = self.domains@.len() as nat;
        let ghost mut kk: int = 0;
        let mut k: usize = 0;
        while k < self.constraints.len()
            invariant
                0 <= k <= self.constraints@.len(),
                k <= kk <= orig.len(),
                orig == old(self).constraints@,
                self.constraints@.len() - k == orig.len() - kk,
                self.constraints@.subrange(k as int, self.constraints@.len() as int)
                    == orig.subrange(kk, orig.len() as int),
                self.variables@ == old(self).variables@,
                self.domains@.len() == n2,
                n2 == old(self).domains@.len() as nat,
                entries_ok(orig, n2),
                entries_ok(self.constraints@, n2),
                doms_wf(self.domains@),
                forall|t: int|
                    0 <= t < self.domains@.len() ==> (#[trigger] self.domains@[t])@.hidden.len()
                        == 0 && self.domains@[t]@.states.len() == 0,
                forall|t: int|
                    0 <= t < k ==> orig.contains(#[trigger] self.constraints@[t])
                        && !self.constraints@[t].constraint.pre_removes(
                        self.constraints@[t].variables@,
                    ),
                forall|k2: int|
                    0 <= k2 < kk && !(#[trigger] orig[k2]).constraint.pre_removes(
                        orig[k2].variables@,
                    ) ==> exists|t: int| 0 <= t < k && self.constraints@[t] == orig[k2],
                forall|k2: int, i: int, x: i32|
                    0 <= k2 < kk && 0 <= i < orig[k2].variables@.len() && (
                    #[trigger] self.domains@[orig[k2].variables@[i] as int]@.values.contains(x))
                        ==> orig[k2].constraint.pre_keeps(
                        orig[k2].variables@,
                        n2,
                        orig[k2].variables@[i],
                        x,
                    ),
                forall|v: int, x: i32|
                    0 <= v < self.domains@.len() ==> ((#[trigger] self.domains@[v]@.values.contains(x)) <==> ((old(self).domains@[v]@.values.contains(x) || old(self).domains@[v]@.hidden.contains(x)) && (forall|k2: int|
                        0 <= k2 < kk && (#[trigger] orig[k2].variables@.contains(v as usize)) ==> orig[k2].constraint.pre_keeps(
                            orig[k2].variables@,
                            n2,
                            v as usize,
                            x,
                        )))),
            decreases self.constraints@.len() - k,
        {
            let ghost dpre = self.domains@;
            let ghost cpre = self.constraints@;
            proof {
                assert(self.constraints@[k as int] == orig[kk]) by {
                    assert(self.constraints@.subrange(
                        k as int,
                        self.constraints@.len() as int,
                    )[0] == orig.subrange(kk, orig.len() as int)[0]);
                }
            }
            let remove = self.constraints[k].constraint.pre_process(
                &self.constraints[k].variables,
                &mut self.domains,
            );
            if remove {
                self.constraints.remove(k);
                proof {
                    assert(self.constraints@ =~= cpre.remove(k as int));
                    assert(self.constraints@.subrange(
                        k as int,
                        self.constraints@.len() as int,
                    ) =~= orig.subrange(kk + 1, orig.len() as int)) by {
                        assert forall|t: int|
                            0 <= t < self.constraints@.len() - k implies #[trigger] self.constraints@.subrange(
                            k as int,
                            self.constraints@.len() as int,
                        )[t] == orig.subrange(kk + 1, orig.len() as int)[t] by {
                            assert(self.constraints@[k + t] == cpre[k + t + 1]);
                            assert(cpre.subrange(k as int, cpre.len() as int)[t + 1] == orig.subrange(
                                kk,
                                orig.len() as int,
                            )[t + 1]);
                        }
                    }
                    assert(entries_ok(self.constraints@, n2)) by {
                        assert forall|t: int|
                            0 <= t < self.constraints@.len() implies (
                        #[trigger] self.constraints@[t]).variables@.len() >= 1 && vars_in_range(
                            self.constraints@[t].variables@,
                            n2,
                        ) && self.constraints@[t].constraint.valid(
                            self.constraints@[t].variables@,
                        ) by {
                            if t < k {
                                assert(self.constraints@[t] == cpre[t]);
                            } else {
                                assert(self.constraints@[t] == cpre[t + 1]);
                            }
                        }
                    }
                    assert forall|t: int|
                        0 <= t < k implies orig.contains(#[trigger] self.constraints@[t])
                        && !self.constraints@[t].constraint.pre_removes(
                        self.constraints@[t].variables@,
                    ) by {
                        assert(self.constraints@[t] == cpre[t]);
                    }
                    assert forall|k2: int|
                        0 <= k2 < kk + 1 && !(#[trigger] orig[k2]).constraint.pre_removes(
                            orig[k2].variables@,
                        ) implies exists|t: int|
                        0 <= t < k && self.constraints@[t] == orig[k2] by {
                        if k2 < kk {
                            let t = choose|t: int| 0 <= t < k && cpre[t] == orig[k2];
                            assert(self.constraints@[t] == cpre[t]);
                        } else {
                            assert(orig[k2] == cpre[k as int]);
                            assert(remove);
                        }
                    }
                }
            } else {
                proof {
                    assert(self.constraints@.subrange(
                        k + 1,
                        self.constraints@.len() as int,
                    ) =~= orig.subrange(kk + 1, orig.len() as int)) by {
                        assert forall|t: int|
                            0 <= t < self.constraints@.len() - k - 1 implies #[trigger] self.constraints@.subrange(
                            k + 1,
                            self.constraints@.len() as int,
                        )[t] == orig.subrange(kk + 1, orig.len() as int)[t] by {
                            assert(self.constraints@.subrange(
                                k as int,
                                self.constraints@.len() as int,
                            )[t + 1] == orig.subrange(kk, orig.len() as int)[t + 1]);
                        }
                    }
                    assert forall|t: int|
                        0 <= t < k + 1 implies orig.contains(#[trigger] self.constraints@[t])
                        && !self.constraints@[t].constraint.pre_removes(
                        self.constraints@[t].variables@,
                    ) by {
                        if t == k as int {
                            assert(self.constraints@[t] == orig[kk]);
                            assert(orig.contains(orig[kk]));
                        }
                    }
                    assert forall|k2: int|
                        0 <= k2 < kk + 1 && !(#[trigger] orig[k2]).constraint.pre_removes(
                            orig[k2].variables@,
                        ) implies exists|t: int|
                        0 <= t < k + 1 && self.constraints@[t] == orig[k2] by {
                        if k2 < kk {
                            let t = choose|t: int| 0 <= t < k && self.constraints@[t] == orig[k2];
                        } else {
                            assert(self.constraints@[k as int] == orig[kk]);
                        }
                    }
                }
                k += 1;
            }
            proof {
                assert forall|k2: int, i: int, x: i32|
                    0 <= k2 < kk + 1 && 0 <= i < orig[k2].variables@.len() && (
                    #[trigger] self.domains@[orig[k2].variables@[i] as int]@.values.contains(
                        x,
                    )) implies orig[k2].constraint.pre_keeps(
                    orig[k2].variables@,
                    n2,
                    orig[k2].variables@[i],
                    x,
                ) by {
                    let v = orig[k2].variables@[i] as int;
                    assert(dpre[v]@.values.contains(x));
                    if k2 == kk {
                        assert(orig[k2].variables@.contains(orig[k2].variables@[i]));
                        if orig[k2].constraint.decisive() {
                            assert(self.domains@[v]@.values.contains(x) <==> (
                            dpre[v]@.values.contains(x) && orig[k2].constraint.pre_keeps(
                                orig[k2].variables@,
                                n2,
                                orig[k2].variables@[i],
                                x,
                            )));
                        }
                    }
                }
                assert forall|v: int, x: i32|
                    0 <= v < self.domains@.len() implies ((
                #[trigger] self.domains@[v]@.values.contains(x)) <==> ((old(self).domains@[v]@.values.contains(x) || old(self).domains@[v]@.hidden.contains(x)) && (forall|k2: int|
                    0 <= k2 < kk + 1 && (#[trigger] orig[k2].variables@.contains(v as usize)) ==> orig[k2].constraint.pre_keeps(
                        orig[k2].variables@,
                        n2,
                        v as usize,
                        x,
                    )))) by {
                    if orig[kk].variables@.contains(v as usize) {
                        assert(self.domains@[v]@.values.contains(x) <==> (
                        dpre[v]@.values.contains(x) && orig[kk].constraint.pre_keeps(
                            orig[kk].variables@,
                            n2,
                            v as usize,
                            x,
                        )));
                    } else {
                        assert(self.domains@[v]@ == dpre[v]@);
                    }
                    if self.domains@[v]@.values.contains(x) {
                        assert forall|k2: int|
                            0 <= k2 < kk + 1 && (#[trigger] orig[k2].variables@.contains(
                                v as usize,
                            )) implies orig[k2].constraint.pre_keeps(
                            orig[k2].variables@,
                            n2,
                            v as usize,
                            x,
                        ) by {
                            assert(dpre[v]@.values.contains(x));
                        }
                    }
                }
                kk = kk + 1;
            }
        }
    }

    /// Finds the first solution: a complete assignment, one value per
    /// variable in registration order, that satisfies every registered
    /// constraint.  Returns `None` when the problem is unsatisfiable.
    /// Preprocessing runs first and permanently narrows the domains.
    pub fn solve(&mut self) -> (r: Result<Option<Vec<i32>>, ConstraintError>)
        requires
            old(self).wf(),
        ensures
            r is Ok,
            final(self).wf(),
            final(self).variables@ == old(self).variables@,
            r is Ok ==> final(self).domains@.len() == old(self).domains@.len() && (forall|
                k: int,
            |
                0 <= k < final(self).constraints@.len() ==> old(self).constraints@.contains(
                    #[trigger] final(self).constraints@[k],
                ) && !final(self).constraints@[k].constraint.pre_removes(
                    final(self).constraints@[k].variables@,
                )) && (forall|k: int|
                0 <= k < old(self).constraints@.len() && !(#[trigger] old(self).constraints@[k]).constraint.pre_removes(
                    old(self).constraints@[k].variables@,
                ) ==> final(self).constraints@.contains(old(self).constraints@[k])) && (forall|
                k: int,
                i: int,
                x: i32,
            |
                0 <= k < old(self).constraints@.len() && 0 <= i < old(self).constraints@[k].variables@.len() && (#[trigger] final(self).domains@[old(self).constraints@[k].variables@[i] as int]@.values.contains(x)) ==> old(self).constraints@[k].constraint.pre_keeps(
                    old(self).constraints@[k].variables@,
                    old(self).domains@.len() as nat,
                    old(self).constraints@[k].variables@[i],
                    x,
                )),
            r matches Ok(Some(s)) ==> s@.len() == final(self).spec_len() && (forall|k: int|
                0 <= k < final(self).constraints@.len() ==> (#[trigger] final(self).constraints@[k]).constraint.satisfied(
                    final(self).constraints@[k].variables@,
                    lift_asg(s@),
                )) && (forall|v: int|
                0 <= v < final(self).domains@.len() ==> (#[trigger] final(self).domains@[v])@.values.contains(s@[v])),
    {
        let sols = self.run_search(true);
        match sols {
            Ok(mut found) => {
                if found.len() > 0 {
                    let first = found.remove(0);
                    Ok(Some(first))
                } else {
                    Ok(None)
                }
            },
            Err(e) => Err(e),
        }
    }

    /// Enumerates all solutions, in the deterministic order the search
    /// visits them, computed in full before returning; a fresh enumeration
    /// restarts from preprocessing.  Preprocessing runs first and
    /// permanently narrows the domains.
    pub fn solutions(&mut self) -> (r: Result<Vec<Vec<i32>>, ConstraintError>)
        requires
            old(self).wf(),
        ensures
            r is Ok,
            final(self).wf(),
            final(self).variables@ == old(self).variables@,
            r is Ok ==> final(self).domains@.len() == old(self).domains@.len() && (forall|
                k: int,
            |
                0 <= k < final(self).constraints@.len() ==> old(self).constraints@.contains(
                    #[trigger] final(self).constraints@[k],
                ) && !final(self).constraints@[k].constraint.pre_removes(
                    final(self).constraints@[k].variables@,
                )) && (forall|k: int|
                0 <= k < old(self).constraints@.len() && !(#[trigger] old(self).constraints@[k]).constraint.pre_removes(
                    old(self).constraints@[k].variables@,
                ) ==> final(self).constraints@.contains(old(self).constraints@[k])) && (forall|
                k: int,
                i: int,
                x: i32,
            |
                0 <= k < old(self).constraints@.len() && 0 <= i < old(self).constraints@[k].variables@.len() && (#[trigger] final(self).domains@[old(self).constraints@[k].variables@[i] as int]@.values.contains(x)) ==> old(self).constraints@[k].constraint.pre_keeps(
                    old(self).constraints@[k].variables@,
                    old(self).domains@.len() as nat,
                    old(self).constraints@[k].variables@[i],
                    x,
                )),
            r matches Ok(sols) ==> (forall|t1: int, t2: int|
                0 <= t1 < t2 < sols@.len() ==> (#[trigger] sols@[t1])@ != (#[trigger] sols@[t2])@),
            r matches Ok(sols) ==> forall|t: int|
                0 <= t < sols@.len() ==> (#[trigger] sols@[t])@.len() == final(self).spec_len() && (
                forall|k: int|
                    0 <= k < final(self).constraints@.len() ==> (#[trigger] final(self).constraints@[k]).constraint.satisfied(
                        final(self).constraints@[k].variables@,
                        lift_asg(sols@[t]@),
                    )) && (forall|v: int|
                    0 <= v < final(self).domains@.len() ==> (#[trigger] final(self).domains@[v])@.values.contains(sols@[t]@[v])),
    {
        self.run_search(false)
    }

    /// Enumerates the solutions that additionally satisfy a set of
    /// function-backed constraints, each a predicate paired with the ordered
    /// variable list it spans.  The built-in constraints drive the search;
    /// each complete assignment is then put to every predicate on its tuple
    /// of values, and a predicate's error aborts the solve and is handed
    /// back unchanged.
    pub fn solutions_with<F: Fn(Vec<i32>) -> Result<bool, ConstraintError>>(
        &mut self,
        predicates: &Vec<(FunctionConstraint<F>, Vec<usize>)>,
    ) -> (r: Result<Vec<Vec<i32>>, ConstraintError>)
        requires
            old(self).wf(),
            forall|t: int|
                0 <= t < predicates@.len() ==> vars_in_range(
                    (#[trigger] predicates@[t]).1@,
                    old(self).spec_len(),
                ) && (forall|pv: Vec<i32>| call_requires(predicates@[t].0.function, (pv,))),
        ensures
            final(self).wf(),
            final(self).variables@ == old(self).variables@,
            r matches Ok(sols) ==> (forall|t1: int, t2: int|
                0 <= t1 < t2 < sols@.len() ==> (#[trigger] sols@[t1])@ != (#[trigger] sols@[t2])@),
            r matches Ok(sols) ==> forall|t: int|
                0 <= t < sols@.len() ==> (#[trigger] sols@[t])@.len() == final(self).spec_len() && (
                forall|k: int|
                    0 <= k < final(self).constraints@.len() ==> (#[trigger] final(self).constraints@[k]).constraint.satisfied(
                        final(self).constraints@[k].variables@,
                        lift_asg(sols@[t]@),
                    )) && (forall|v: int|
                    0 <= v < final(self).domains@.len() ==> (#[trigger] final(self).domains@[v])@.values.contains(
                        sols@[t]@[v],
                    )) && (forall|q: int|
                    0 <= q < predicates@.len() ==> (#[trigger] predicates@[q]).0.satisfied(
                        predicates@[q].1@,
                        lift_asg(sols@[t]@),
                    )),
    {
        let base = self.run_search(false);
        let mut found: Vec<Vec<i32>> = match base {
            Ok(v) => v,
            Err(e) => {
                proof {
                    assert(false);
                }
                return Err(e);
            },
        };
        let ghost dsearch = self.domains@;
        let ghost csearch = self.constraints@;
        let ghost vsearch = self.variables@;
        let n = self.domains.len();
        let ghost sols0 = found@;
        let mut kept: Vec<Vec<i32>> = Vec::new();
        let mut t: usize = 0;
        while t < found.len()
            invariant
                t <= found@.len(),
                found@ == sols0,
                vsearch == old(self).variables@,
                self.wf(),
                n == self.domains@.len(),
                self.variables@ == vsearch,
                self.constraints@ == csearch,
                dsearch.len() == n,
                forall|j: int| 0 <= j < n ==> (#[trigger] self.domains@[j])@ == dsearch[j]@,
                forall|t2: int|
                    0 <= t2 < sols0.len() ==> (#[trigger] sols0[t2])@.len() == n && (forall|
                        k: int,
                    |
                        0 <= k < csearch.len() ==> (#[trigger] csearch[k]).constraint.satisfied(
                            csearch[k].variables@,
                            lift_asg(sols0[t2]@),
                        )) && (forall|v: int|
                        0 <= v < n ==> (#[trigger] dsearch[v])@.values.contains(sols0[t2]@[v])),
                forall|t2: int|
                    0 <= t2 < predicates@.len() ==> vars_in_range(
                        (#[trigger] predicates@[t2]).1@,
                        n as nat,
                    ) && (forall|pv: Vec<i32>| call_requires(predicates@[t2].0.function, (pv,))),
                forall|t1: int, t2: int|
                    0 <= t1 < t2 < sols0.len() ==> (#[trigger] sols0[t1])@ != (
                    #[trigger] sols0[t2])@,
                forall|k2: int|
                    0 <= k2 < kept@.len() ==> exists|t2: int|
                        0 <= t2 < t && (#[trigger] kept@[k2])@ == sols0[t2]@,
                forall|t1: int, t2: int|
                    0 <= t1 < t2 < kept@.len() ==> (#[trigger] kept@[t1])@ != (
                    #[trigger] kept@[t2])@,
                forall|t2: int|
                    0 <= t2 < kept@.len() ==> (#[trigger] kept@[t2])@.len() == n && (forall|k: int|
                        0 <= k < csearch.len() ==> (#[trigger] csearch[k]).constraint.satisfied(
                            csearch[k].variables@,
                            lift_asg(kept@[t2]@),
                        )) && (forall|v: int|
                        0 <= v < n ==> (#[trigger] dsearch[v])@.values.contains(kept@[t2]@[v]))
                        && (forall|q: int|
                        0 <= q < predicates@.len() ==> (#[trigger] predicates@[q]).0.satisfied(
                            predicates@[q].1@,
                            lift_asg(kept@[t2]@),
                        )),
            decreases found@.len() - t,
        {
            let cand = copy_values(&found[t]);
            // The complete tuple as an assignment mapping.
            let mut asg: Vec<Option<i32>> = Vec::new();
            let mut j: usize = 0;
            while j < cand.len()
                invariant
                    j <= cand@.len(),
                    asg@.len() == j,
                    forall|t3: int| 0 <= t3 < j ==> (#[trigger] asg@[t3]) == Some(cand@[t3]),
                decreases cand@.len() - j,
            {
                asg.push(Some(cand[j]));
                j += 1;
            }
            proof {
                assert(asg@ =~= lift_asg(cand@));
            }
            let mut ok = true;
            let mut q: usize = 0;
            while q < predicates.len() && ok
                invariant
                    q <= predicates@.len(),
                    cand@ == sols0[t as int]@,
                    t < sols0.len(),
                    cand@.len() == n,
                    asg@ == lift_asg(cand@),
                    asg@.len() == n,
                    vsearch == old(self).variables@,
                    self.wf(),
                    n == self.domains@.len(),
                    self.variables@ == vsearch,
                    self.constraints@ == csearch,
                    dsearch.len() == n,
                    forall|j2: int| 0 <= j2 < n ==> (#[trigger] self.domains@[j2])@ == dsearch[j2]@,
                    forall|t2: int|
                        0 <= t2 < predicates@.len() ==> vars_in_range(
                            (#[trigger] predicates@[t2]).1@,
                            n as nat,
                        ) && (forall|pv: Vec<i32>| call_requires(
                            predicates@[t2].0.function,
                            (pv,),
                        )),
                    ok ==> forall|q2: int|
                        0 <= q2 < q ==> (#[trigger] predicates@[q2]).0.satisfied(
                            predicates@[q2].1@,
                            lift_asg(cand@),
                        ),
                decreases predicates@.len() - q,
            {
                let ghost dq = self.domains@;
                let res = predicates[q].0.call(
                    &predicates[q].1,
                    &mut self.domains,
                    &mut asg,
                    false,
                );
                proof {
                    assert forall|j2: int|
                        0 <= j2 < n implies (#[trigger] self.domains@[j2])@ == dsearch[j2]@ by {
                        assert(self.domains@[j2]@ == dq[j2]@);
                    }
                    assert(doms_wf(self.domains@)) by {
                        assert forall|j2: int| 0 <= j2 < self.domains@.len() implies (
                        #[trigger] self.domains@[j2])@.wf() by {}
                    }
                }
                match res {
                    Ok(b) => {
                        proof {
                            if b {
                                assert(all_assigned(predicates@[q as int].1@, asg@)) by {
                                    assert forall|i: int|
                                        0 <= i < predicates@[q as int].1@.len() implies (
                                    #[trigger] asg@[predicates@[q as int].1@[i] as int])
                                        is Some by {}
                                }
                                assert(predicates@[q as int].0.satisfied(
                                    predicates@[q as int].1@,
                                    lift_asg(cand@),
                                ));
                            }
                        }
                        if !b {
                            ok = false;
                        }
                    },
                    Err(e) => {
                        return Err(e);
                    },
                }
                q += 1;
            }
            if ok {
                let ghost kpre = kept@;
                kept.push(cand);
                proof {
                    assert forall|k2: int|
                        0 <= k2 < kept@.len() implies exists|t2: int|
                        0 <= t2 < t + 1 && (#[trigger] kept@[k2])@ == sols0[t2]@ by {
                        if k2 < kpre.len() {
                            assert(kept@[k2] == kpre[k2]);
                            let t2 = choose|t2: int|
                                0 <= t2 < t && (#[trigger] kpre[k2])@ == sols0[t2]@;
                        } else {
                            assert(kept@[k2] == cand);
                            assert(cand@ == sols0[t as int]@);
                        }
                    }
                    assert forall|t1: int, t2: int|
                        0 <= t1 < t2 < kept@.len() implies (#[trigger] kept@[t1])@ != (
                        #[trigger] kept@[t2])@ by {
                        if t2 == kept@.len() - 1 {
                            assert(kept@[t1] == kpre[t1]);
                            let t3 = choose|t3: int|
                                0 <= t3 < t && (#[trigger] kpre[t1])@ == sols0[t3]@;
                            assert(sols0[t3]@ != sols0[t as int]@);
                            assert(kept@[t2]@ == sols0[t as int]@);
                        } else {
                            assert(kept@[t1] == kpre[t1] && kept@[t2] == kpre[t2]);
                        }
                    }
                    assert forall|t2: int|
                        0 <= t2 < kept@.len() implies (#[trigger] kept@[t2])@.len() == n && (forall|
                        k: int,
                    |
                        0 <= k < csearch.len() ==> (#[trigger] csearch[k]).constraint.satisfied(
                            csearch[k].variables@,
                            lift_asg(kept@[t2]@),
                        )) && (forall|v: int|
                        0 <= v < n ==> (#[trigger] dsearch[v])@.values.contains(kept@[t2]@[v]))
                        && (forall|q2: int|
                        0 <= q2 < predicates@.len() ==> (#[trigger] predicates@[q2]).0.satisfied(
                            predicates@[q2].1@,
                            lift_asg(kept@[t2]@),
                        )) by {
                        if t2 < kpre.len() {
                            assert(kept@[t2] == kpre[t2]);
                        } else {
                            assert(kept@[t2] == cand);
                        }
                    }
                }
            }
            t += 1;
        }
        Ok(kept)
    }

    /// Finds the first solution that additionally satisfies a set of
    /// function-backed constraints; see `Problem::solutions_with`.
    pub fn solve_with<F: Fn(Vec<i32>) -> Result<bool, ConstraintError>>(
        &mut self,
        predicates: &Vec<(FunctionConstraint<F>, Vec<usize>)>,
    ) -> (r: Result<Option<Vec<i32>>, ConstraintError>)
        requires
            old(self).wf(),
            forall|t: int|
                0 <= t < predicates@.len() ==> vars_in_range(
                    (#[trigger] predicates@[t]).1@,
                    old(self).spec_len(),
                ) && (forall|pv: Vec<i32>| call_requires(predicates@[t].0.function, (pv,))),
        ensures
            final(self).wf(),
            final(self).variables@ == old(self).variables@,
            r matches Ok(Some(s)) ==> s@.len() == final(self).spec_len() && (forall|k: int|
                0 <= k < final(self).constraints@.len() ==> (#[trigger] final(self).constraints@[k]).constraint.satisfied(
                    final(self).constraints@[k].variables@,
                    lift_asg(s@),
                )) && (forall|v: int|
                0 <= v < final(self).domains@.len() ==> (#[trigger] final(self).domains@[v])@.values.contains(
                    s@[v],
                )) && (forall|q: int|
                0 <= q < predicates@.len() ==> (#[trigger] predicates@[q]).0.satisfied(
                    predicates@[q].1@,
                    lift_asg(s@),
                )),
    {
        let sols = self.solutions_with(predicates);
        match sols {
            Ok(mut all) => {
                if all.len() > 0 {
                    let first = all.remove(0);
                    Ok(Some(first))
                } else {
                    Ok(None)
                }
            },
            Err(e) => Err(e),
        }
    }

    /// Preprocesses, searches depth first with forward checking, and hands
    /// back the verified solutions.
    fn run_search(&mut self, single: bool) -> (r: Result<Vec<Vec<i32>>, ConstraintError>)
        requires
            old(self).wf(),
        ensures
            r is Ok,
            final(self).wf(),
            final(self).variables@ == old(self).variables@,
            r is Ok ==> final(self).domains@.len() == old(self).domains@.len() && (forall|
                k: int,
            |
                0 <= k < final(self).constraints@.len() ==> old(self).constraints@.contains(
                    #[trigger] final(self).constraints@[k],
                ) && !final(self).constraints@[k].constraint.pre_removes(
                    final(self).constraints@[k].variables@,
                )) && (forall|k: int|
                0 <= k < old(self).constraints@.len() && !(#[trigger] old(self).constraints@[k]).constraint.pre_removes(
                    old(self).constraints@[k].variables@,
                ) ==> final(self).constraints@.contains(old(self).constraints@[k])) && (forall|
                k: int,
                i: int,
                x: i32,
            |
                0 <= k < old(self).constraints@.len() && 0 <= i < old(self).constraints@[k].variables@.len() && (#[trigger] final(self).domains@[old(self).constraints@[k].variables@[i] as int]@.values.contains(x)) ==> old(self).constraints@[k].constraint.pre_keeps(
                    old(self).constraints@[k].variables@,
                    old(self).domains@.len() as nat,
                    old(self).constraints@[k].variables@[i],
                    x,
                )),
            r matches Ok(sols) ==> (forall|t1: int, t2: int|
                0 <= t1 < t2 < sols@.len() ==> (#[trigger] sols@[t1])@ != (#[trigger] sols@[t2])@),
            r matches Ok(sols) ==> forall|t: int|
                0 <= t < sols@.len() ==> (#[trigger] sols@[t])@.len() == final(self).spec_len() && (
                forall|k: int|
                    0 <= k < final(self).constraints@.len() ==> (#[trigger] final(self).constraints@[k]).constraint.satisfied(
                        final(self).constraints@[k].variables@,
                        lift_asg(sols@[t]@),
                    )) && (forall|v: int|
                    0 <= v < final(self).domains@.len() ==> (#[trigger] final(self).domains@[v])@.values.contains(sols@[t]@[v])),
    {
        self.pre_process();
        let ghost cpost = self.constraints@;
        let ghost dpost = self.domains@;
        proof {
            // Every surviving registry entry is of an infallible kind, so
            // the search and the final re-check cannot raise an error.
            assert forall|k: int|
                0 <= k < self.constraints@.len() implies (#[trigger] self.constraints@[k]).constraint.infallible() by {
                crate::constraint::lemma_survivor_infallible(
                    self.constraints@[k].constraint,
                    self.constraints@[k].variables@,
                );
            }
        }
        let n = self.domains.len();
        // Empty domains mean immediate unsatisfiability.
        let mut v0: usize = 0;
        let mut any_empty = false;
        while v0 < n
            invariant
                v0 <= n,
                n == self.domains@.len(),
            decreases n - v0,
        {
            if self.domains[v0].values.len() == 0 {
                any_empty = true;
            }
            v0 += 1;
        }
        if any_empty {
            return Ok(Vec::new());
        }
        // Per-variable index: which registry entries mention each variable.
        let mut vconstraints: Vec<Vec<usize>> = Vec::new();
        let mut j: usize = 0;
        while j < n
            invariant
                j <= n,
                vconstraints@.len() == j,
                forall|v: int, t: int|
                    0 <= v < j && 0 <= t < vconstraints@[v]@.len() ==> (
                    #[trigger] vconstraints@[v]@[t]) < self.constraints@.len(),
            decreases n - j,
        {
            vconstraints.push(Vec::new());
            j += 1;
        }
        let mut k: usize = 0;
        while k < self.constraints.len()
            invariant
                k <= self.constraints@.len(),
                vconstraints@.len() == n,
                n == self.domains@.len(),
                self.wf(),
                forall|v: int, t: int|
                    0 <= v < n && 0 <= t < vconstraints@[v]@.len() ==> (
                    #[trigger] vconstraints@[v]@[t]) < self.constraints@.len(),
            decreases self.constraints@.len() - k,
        {
            let mut i: usize = 0;
            let m = self.constraints[k].variables.len();
            while i < m
                invariant
                    i <= m,
                    k < self.constraints@.len(),
                    m == self.constraints@[k as int].variables@.len(),
                    vconstraints@.len() == n,
                    n == self.domains@.len(),
                    self.wf(),
                    forall|v: int, t: int|
                        0 <= v < n && 0 <= t < vconstraints@[v]@.len() ==> (
                        #[trigger] vconstraints@[v]@[t]) < self.constraints@.len(),
                decreases m - i,
            {
                let v = self.constraints[k].variables[i];
                proof {
                    assert(self.constraints@[k as int].variables@[i as int] < n);
                }
                let ghost vold = vconstraints@;
                let slot = &mut vconstraints[v];
                slot.push(k);
                proof {
                    assert forall|v2: int, t: int|
                        0 <= v2 < n && 0 <= t < vconstraints@[v2]@.len() implies (
                    #[trigger] vconstraints@[v2]@[t]) < self.constraints@.len() by {
                        if v2 == v as int {
                            if t < vold[v2]@.len() {
                                assert(vconstraints@[v2]@[t] == vold[v2]@[t]);
                            }
                        } else {
                            assert(vconstraints@[v2]@ == vold[v2]@);
                        }
                    }
                }
                i += 1;
            }
            k += 1;
        }
        // Depth-first search with forward checking.
        let mut assignments: Vec<Option<i32>> = Vec::new();
        let mut j2: usize = 0;
        while j2 < n
            invariant
                j2 <= n,
                assignments@.len() == j2,
                forall|t: int| 0 <= t < j2 ==> (#[trigger] assignments@[t]) is None,
            decreases n - j2,
        {
            assignments.push(None);
            j2 += 1;
        }
        proof {
            lemma_all_none_count(assignments@, 0);
        }
        let mut candidates: Vec<Vec<i32>> = Vec::new();
        let ghost depth0 = none_count(assignments@) as nat;
        let res = search(
            &self.constraints,
            &vconstraints,
            &mut self.domains,
            &mut assignments,
            &mut candidates,
            single,
            Ghost(depth0),
        );
        if let Err(e) = res {
            proof {
                assert(false);
            }
            return Err(e);
        }
        let ghost dsearch = self.domains@;
        proof {
            assert(doms_restored(dpost, dsearch));
        }
        // Keep only candidates that every constraint accepts and whose
        // values are live domain values; the search only produces such
        // assignments, and this check carries the guarantee.
        let mut verified: Vec<Vec<i32>> = Vec::new();
        let mut t: usize = 0;
        while t < candidates.len()
            invariant
                t <= candidates@.len(),
                n == self.domains@.len(),
                self.wf(),
                self.variables@ == old(self).variables@,
                self.domains@.len() == self.variables@.len(),
                self.constraints@ == cpost,
                forall|k2: int|
                    0 <= k2 < self.constraints@.len() ==> (#[trigger] self.constraints@[k2]).constraint.infallible(),
                dsearch.len() == n,
                dpost.len() == n,
                doms_restored(dpost, dsearch),
                forall|j: int|
                    0 <= j < n ==> (#[trigger] self.domains@[j])@ == dsearch[j]@,
                forall|t1: int, t2: int|
                    0 <= t1 < t2 < candidates@.len() ==> (#[trigger] candidates@[t1])@ != (
                    #[trigger] candidates@[t2])@,
                forall|k2: int|
                    0 <= k2 < verified@.len() ==> exists|t2: int|
                        0 <= t2 < t && (#[trigger] verified@[k2])@ == candidates@[t2]@,
                forall|t1: int, t2: int|
                    0 <= t1 < t2 < verified@.len() ==> (#[trigger] verified@[t1])@ != (
                    #[trigger] verified@[t2])@,
                forall|t2: int|
                    0 <= t2 < verified@.len() ==> (#[trigger] verified@[t2])@.len() == n && (
                    forall|k2: int|
                        0 <= k2 < self.constraints@.len() ==> (#[trigger] self.constraints@[k2]).constraint.satisfied(
                            self.constraints@[k2].variables@,
                            lift_asg(verified@[t2]@),
                        )) && (forall|v: int|
                        0 <= v < self.domains@.len() ==> (#[trigger] self.domains@[v])@.values.contains(
                            verified@[t2]@[v],
                        )),
            decreases candidates@.len() - t,
        {
            let cand = copy_values(&candidates[t]);
            let ghost dloop = self.domains@;
            let ok = self.check_solution(&cand);
            proof {
                assert forall|j: int|
                    0 <= j < n implies (#[trigger] self.domains@[j])@ == dsearch[j]@ by {
                    assert(self.domains@[j]@ == dloop[j]@);
                }
            }
            match ok {
                Ok(true) => {
                    let ghost vpre = verified@;
                    verified.push(cand);
                    proof {
                        assert forall|k2: int|
                            0 <= k2 < verified@.len() implies exists|t2: int|
                            0 <= t2 < t + 1 && (#[trigger] verified@[k2])@ == candidates@[t2]@ by {
                            if k2 < vpre.len() {
                                assert(verified@[k2] == vpre[k2]);
                                let t2 = choose|t2: int|
                                    0 <= t2 < t && (#[trigger] vpre[k2])@ == candidates@[t2]@;
                            } else {
                                assert(verified@[k2] == cand);
                                assert(cand@ == candidates@[t as int]@);
                            }
                        }
                        assert forall|t1: int, t2: int|
                            0 <= t1 < t2 < verified@.len() implies (#[trigger] verified@[t1])@
                            != (#[trigger] verified@[t2])@ by {
                            if t2 == verified@.len() - 1 {
                                assert(verified@[t1] == vpre[t1]);
                                let t3 = choose|t3: int|
                                    0 <= t3 < t && (#[trigger] vpre[t1])@ == candidates@[t3]@;
                                assert(candidates@[t3]@ != candidates@[t as int]@);
                                assert(verified@[t2]@ == candidates@[t as int]@);
                            } else {
                                assert(verified@[t1] == vpre[t1] && verified@[t2] == vpre[t2]);
                            }
                        }
                        assert forall|t2: int|
                            0 <= t2 < verified@.len() implies (#[trigger] verified@[t2])@.len()
                            == n && (forall|k2: int|
                            0 <= k2 < self.constraints@.len() ==> (
                            #[trigger] self.constraints@[k2]).constraint.satisfied(
                                self.constraints@[k2].variables@,
                                lift_asg(verified@[t2]@),
                            )) && (forall|v: int|
                            0 <= v < self.domains@.len() ==> (
                            #[trigger] self.domains@[v])@.values.contains(verified@[t2]@[v])) by {
                            if t2 < vpre.len() {
                                assert(verified@[t2] == vpre[t2]);
                            }
                        }
                    }
                },
                Ok(false) => {},
                Err(e) => {
                    proof {
                        assert(false);
                    }
                    return Err(e);
                },
            }
            t += 1;
        }
        proof {
            assert forall|k: int, i: int, x: i32|
                0 <= k < old(self).constraints@.len() && 0 <= i < old(
                    self,
                ).constraints@[k].variables@.len() && (#[trigger] self.domains@[old(
                    self,
                ).constraints@[k].variables@[i] as int]@.values.contains(x)) implies old(
                self,
            ).constraints@[k].constraint.pre_keeps(
                old(self).constraints@[k].variables@,
                old(self).domains@.len() as nat,
                old(self).constraints@[k].variables@[i],
                x,
            ) by {
                let v = old(self).constraints@[k].variables@[i] as int;
                assert(self.domains@[v]@ == dsearch[v]@);
                assert(dsearch[v]@.values.to_set() == dpost[v]@.values.to_set());
                assert(dsearch[v]@.values.to_set().contains(x)) by {
                    assert(dsearch[v]@.values.contains(x));
                    let w = choose|w: int|
                        0 <= w < dsearch[v]@.values.len() && dsearch[v]@.values[w] == x;
                    broadcast use vstd::set::group_set_axioms;

                    assert(dsearch[v]@.values.to_set().contains(dsearch[v]@.values[w]));
                }
                assert(dpost[v]@.values.contains(x)) by {
                    broadcast use vstd::set::group_set_axioms;
                }
            }
        }
        Ok(verified)
    }

    /// Checks a complete candidate assignment: every value must be a live
    /// domain value and every registered constraint must accept the
    /// assignment.
    fn check_solution(&mut self, s: &Vec<i32>) -> (r: Result<bool, ConstraintError>)
        requires
            old(self).wf(),
            forall|k: int|
                0 <= k < old(self).constraints@.len() ==> (#[trigger] old(self).constraints@[k]).constraint.infallible(),
        ensures
            r is Ok,
            final(self).wf(),
            final(self).variables@ == old(self).variables@,
            final(self).constraints@ == old(self).constraints@,
            final(self).domains@.len() == old(self).domains@.len(),
            forall|j: int|
                0 <= j < old(self).domains@.len() ==> (#[trigger] final(self).domains@[j])@ == old(self).domains@[j]@,
            r == Ok::<bool, ConstraintError>(true) ==> s@.len() == old(self).spec_len() && (forall|
                k: int,
            |
                0 <= k < old(self).constraints@.len() ==> (#[trigger] old(self).constraints@[k]).constraint.satisfied(
                    old(self).constraints@[k].variables@,
                    lift_asg(s@),
                )) && (forall|v: int|
                0 <= v < old(self).domains@.len() ==> (#[trigger] old(self).domains@[v])@.values.contains(s@[v])),
    {
        let n = self.domains.len();
        if s.len() != n {
            return Ok(false);
        }
        let mut v: usize = 0;
        while v < n
            invariant
                v <= n,
                n == self.domains@.len(),
                s@.len() == n,
                self == old(self),
                old(self).wf(),
                forall|v2: int|
                    0 <= v2 < v ==> (#[trigger] self.domains@[v2])@.values.contains(s@[v2]),
            decreases n - v,
        {
            let present = {
                let d = &self.domains[v];
                contains_val(&d.values, s[v])
            };
            if !present {
                return Ok(false);
            }
            v += 1;
        }
        let mut asg: Vec<Option<i32>> = Vec::new();
        let mut j: usize = 0;
        while j < n
            invariant
                j <= n,
                s@.len() == n,
                asg@.len() == j,
                forall|t: int| 0 <= t < j ==> (#[trigger] asg@[t]) == Some(s@[t]),
            decreases n - j,
        {
            asg.push(Some(s[j]));
            j += 1;
        }
        proof {
            assert(asg@ =~= lift_asg(s@));
        }
        let mut k: usize = 0;
        while k < self.constraints.len()
            invariant
                k <= self.constraints@.len(),
                n == self.domains@.len(),
                s@.len() == n,
                asg@ == lift_asg(s@),
                asg@.len() == n,
                self.wf(),
                self.variables@ == old(self).variables@,
                self.constraints@ == old(self).constraints@,
                self.domains@.len() == old(self).domains@.len(),
                forall|j2: int|
                    0 <= j2 < old(self).domains@.len() ==> (#[trigger] self.domains@[j2])@ == old(self).domains@[j2]@,
                forall|k2: int|
                    0 <= k2 < self.constraints@.len() ==> (#[trigger] self.constraints@[k2]).constraint.infallible(),
                forall|k2: int|
                    0 <= k2 < k ==> (#[trigger] self.constraints@[k2]).constraint.satisfied(
                        self.constraints@[k2].variables@,
                        lift_asg(s@),
                    ),
            decreases self.constraints@.len() - k,
        {
            let ghost dpre = self.domains@;
            let res = self.constraints[k].constraint.call(
                &self.constraints[k].variables,
                &mut self.domains,
                &mut asg,
                false,
            );
            proof {
                assert forall|j2: int|
                    0 <= j2 < old(self).domains@.len() implies (#[trigger] self.domains@[j2])@
                    == old(self).domains@[j2]@ by {
                    assert(self.domains@[j2]@ == dpre[j2]@);
                }
                assert(doms_wf(self.domains@)) by {
                    assert forall|j2: int| 0 <= j2 < self.domains@.len() implies (
                    #[trigger] self.domains@[j2])@.wf() by {}
                }
            }
            match res {
                Ok(b) => {
                    if !b {
                        return Ok(false);
                    }
                    proof {
                        assert(all_assigned(self.constraints@[k as int].variables@, asg@)) by {
                            assert forall|i: int|
                                0 <= i < self.constraints@[k as int].variables@.len() implies (
                            #[trigger] asg@[self.constraints@[k as int].variables@[i] as int])
                                is Some by {}
                        }
                        assert(self.constraints@[k as int].constraint.satisfied(
                            self.constraints@[k as int].variables@,
                            asg@,
                        ));
                    }
                },
                Err(e) => {
                    proof {
                        assert(self.constraints@[k as int].constraint.infallible());
                        assert(false);
                    }
                    return Err(e);
                },
            }
            k += 1;
        }
        Ok(true)
    }
}

/// Every freshly built all-unassigned mapping has as many unassigned slots
/// as entries.
proof fn lemma_all_none_count(asg: Seq<Option<i32>>, i: int)
    requires
        0 <= i <= asg.len(),
        forall|t: int| 0 <= t < asg.len() ==> (#[trigger] asg[t]) is None,
    ensures
        none_count_from(asg, i) == asg.len() - i,
    decreases asg.len() - i,
{
    if i < asg.len() {
        lemma_all_none_count(asg, i + 1);
    }
}

/// The depth-first backtracking search: picks the first unassigned
/// variable, tries its live values in domain order under a checkpoint,
/// forward-checks every constraint registered against the variable, and
/// recurses; exhausted values backtrack.  Complete assignments that pass
/// all checks are appended to `solutions`.  Returns `Ok(true)` to stop the
/// search after a solution when `single` is set; an error aborts the whole
/// search.
fn search(
    constraints: &Vec<ConstraintVariable>,
    vconstraints: &Vec<Vec<usize>>,
    domains: &mut Vec<Domain>,
    assignments: &mut Vec<Option<i32>>,
    solutions: &mut Vec<Vec<i32>>,
    single: bool,
    Ghost(depth): Ghost<nat>,
) -> (r: Result<bool, ConstraintError>)
    requires
        none_count(old(assignments)@) == depth,
        old(assignments)@.len() == old(domains)@.len(),
        vconstraints@.len() == old(domains)@.len(),
        doms_wf(old(domains)@),
        entries_ok(constraints@, old(domains)@.len() as nat),
        forall|k: int|
            0 <= k < constraints@.len() ==> (#[trigger] constraints@[k]).constraint.infallible(),
        forall|v: int, t: int|
            0 <= v < vconstraints@.len() && 0 <= t < vconstraints@[v]@.len() ==> (
            #[trigger] vconstraints@[v]@[t]) < constraints@.len(),
    ensures
        r is Ok,
        final(domains)@.len() == old(domains)@.len(),
        final(assignments)@.len() == old(assignments)@.len(),
        doms_wf(final(domains)@),
        r is Ok ==> final(assignments)@ == old(assignments)@,
        r is Ok ==> doms_restored(old(domains)@, final(domains)@),
        final(solutions)@.len() >= old(solutions)@.len(),
        forall|t: int|
            0 <= t < old(solutions)@.len() ==> (#[trigger] final(solutions)@[t]) == old(solutions)@[t],
        forall|t: int|
            old(solutions)@.len() <= t < final(solutions)@.len() ==> (#[trigger] final(solutions)@[t])@.len() == old(assignments)@.len() && (forall|v: int|
                0 <= v < old(assignments)@.len() && old(assignments)@[v] is Some ==> final(solutions)@[t]@[v] == old(assignments)@[v]->Some_0),
        forall|t1: int, t2: int|
            old(solutions)@.len() <= t1 < t2 < final(solutions)@.len() ==> (#[trigger] final(solutions)@[t1])@ != (#[trigger] final(solutions)@[t2])@,
    decreases depth,
{
    let ghost doms0 = domains@;
    let ghost asg0 = assignments@;
    let n = assignments.len();
    // Pick the first unassigned variable.
    let mut vi: usize = 0;
    while vi < n && assignments[vi].is_some()
        invariant
            vi <= n,
            n == assignments@.len(),
            assignments@ == asg0,
            forall|t: int| 0 <= t < vi ==> (#[trigger] asg0[t]) is Some,
        decreases n - vi,
    {
        vi += 1;
    }
    if vi == n {
        // Complete assignment: record it.
        let mut cand: Vec<i32> = Vec::new();
        let mut u: usize = 0;
        while u < n
            invariant
                u <= n,
                n == assignments@.len(),
                assignments@ == asg0,
                forall|k: int| 0 <= k < n ==> (#[trigger] asg0[k]) is Some,
                cand@.len() == u,
                forall|k: int| 0 <= k < u ==> (#[trigger] cand@[k]) == asg0[k]->Some_0,
            decreases n - u,
        {
            let a = assignments[u];
            match a {
                Some(x) => cand.push(x),
                None => cand.push(0),
            }
            u += 1;
        }
        solutions.push(cand);
        proof {
            lemma_doms_restored_refl(doms0);
            assert forall|t: int|
                0 <= t < old(solutions)@.len() implies (#[trigger] solutions@[t]) == old(solutions)@[t] by {}
        }
        return Ok(single);
    }
    proof {
        assert(asg0[vi as int] is None);
        lemma_none_count_split(asg0, vi as int);
    }
    let ghost sols0 = solutions@;
    let snapshot = {
        let d = &domains[vi];
        copy_values(&d.values)
    };
    proof {
        assert(snapshot@.no_duplicates()) by {
            assert(domains@[vi as int]@.wf());
        }
    }
    let mut t: usize = 0;
    while t < snapshot.len()
        invariant
            t <= snapshot@.len(),
            vi < n,
            n == asg0.len(),
            doms0 == old(domains)@,
            asg0 == old(assignments)@,
            asg0[vi as int] is None,
            none_count(asg0) == depth,
            assignments@ == asg0,
            assignments@.len() == n,
            domains@.len() == doms0.len(),
            n == doms0.len(),
            vconstraints@.len() == n,
            doms_wf(domains@),
            doms_wf(doms0),
            entries_ok(constraints@, doms0.len() as nat),
            forall|k2: int|
                0 <= k2 < constraints@.len() ==> (
                #[trigger] constraints@[k2]).constraint.infallible(),
            forall|v: int, t2: int|
                0 <= v < vconstraints@.len() && 0 <= t2 < vconstraints@[v]@.len() ==> (
                #[trigger] vconstraints@[v]@[t2]) < constraints@.len(),
            doms_restored(doms0, domains@),
            snapshot@.no_duplicates(),
            sols0 == old(solutions)@,
            sols0.len() <= solutions@.len(),
            forall|t2: int|
                0 <= t2 < sols0.len() ==> (#[trigger] solutions@[t2]) == sols0[t2],
            forall|t2: int|
                sols0.len() <= t2 < solutions@.len() ==> (#[trigger] solutions@[t2])@.len() == n
                    && (forall|v: int|
                    0 <= v < n && asg0[v] is Some ==> solutions@[t2]@[v] == asg0[v]->Some_0)
                    && snapshot@.subrange(0, t as int).contains(solutions@[t2]@[vi as int]),
            forall|t1: int, t2: int|
                sols0.len() <= t1 < t2 < solutions@.len() ==> (#[trigger] solutions@[t1])@ != (
                #[trigger] solutions@[t2])@,
        decreases snapshot@.len() - t,
    {
        let ghost dent = domains@;
        let x = snapshot[t];
        // Checkpoint every domain for this trial.
        let mut j: usize = 0;
        while j < n
            invariant
                j <= n,
                n == domains@.len(),
                doms_wf(domains@),
                forall|j2: int|
                    0 <= j2 < j ==> (#[trigger] domains@[j2])@ == dent[j2]@.after_push(),
                forall|j2: int| j <= j2 < n ==> (#[trigger] domains@[j2])@ == dent[j2]@,
                dent.len() == n,
                forall|j2: int| 0 <= j2 < n ==> (#[trigger] dent[j2])@.wf(),
            decreases n - j,
        {
            domains[j].push_state();
            proof {
                assert(doms_wf(domains@)) by {
                    assert forall|j2: int| 0 <= j2 < domains@.len() implies (
                    #[trigger] domains@[j2])@.wf() by {}
                }
            }
            j += 1;
        }
        let ghost dpush = domains@;
        assignments[vi] = Some(x);
        proof {
            assert(assignments@ =~= asg0.update(vi as int, Some(x)));
            assert forall|j2: int|
                0 <= j2 < n implies (#[trigger] domains@[j2])@.hides_from(dpush[j2]@) by {
                crate::domain::lemma_hides_from_refl(dpush[j2]@);
            }
        }
        // Re-check every constraint registered against this variable.
        let mut ok = true;
        let mut q: usize = 0;
        let cn = vconstraints[vi].len();
        while q < cn
            invariant
                q <= cn,
                vi < n,
                cn == vconstraints@[vi as int]@.len(),
                doms0 == old(domains)@,
                asg0 == old(assignments)@,
                assignments@.len() == n,
                n == asg0.len(),
                asg0[vi as int] is None,
                assignments@ == asg0.update(vi as int, Some(x)),
                domains@.len() == n,
                n == doms0.len(),
                dpush.len() == n,
                vconstraints@.len() == n,
                doms_wf(domains@),
                entries_ok(constraints@, doms0.len() as nat),
                forall|k2: int|
                    0 <= k2 < constraints@.len() ==> (
                    #[trigger] constraints@[k2]).constraint.infallible(),
                forall|v: int, t2: int|
                    0 <= v < vconstraints@.len() && 0 <= t2 < vconstraints@[v]@.len() ==> (
                    #[trigger] vconstraints@[v]@[t2]) < constraints@.len(),
                forall|j2: int|
                    0 <= j2 < n ==> (#[trigger] domains@[j2])@.hides_from(dpush[j2]@),
                forall|j2: int| 0 <= j2 < n ==> (#[trigger] dpush[j2])@.wf(),
            decreases cn - q,
        {
            let ci = vconstraints[vi][q];
            let ghost dq = domains@;
            let res = constraints[ci].constraint.call(
                &constraints[ci].variables,
                domains,
                assignments,
                true,
            );
            proof {
                assert(doms_wf(domains@));
                assert forall|j2: int|
                    0 <= j2 < n implies (#[trigger] domains@[j2])@.hides_from(dpush[j2]@) by {
                    if constraints@[ci as int].variables@.contains(j2 as usize)
                        && assignments@[j2] is None {
                        crate::domain::lemma_hides_from_trans(
                            domains@[j2]@,
                            dq[j2]@,
                            dpush[j2]@,
                        );
                    } else {
                        assert(domains@[j2]@ == dq[j2]@);
                    }
                }
            }
            match res {
                Ok(b) => {
                    if !b {
                        ok = false;
                        proof {
                            assert(assignments@ == asg0.update(vi as int, Some(x)));
                        }
                    }
                },
                Err(e) => {
                    proof {
                        assert(constraints@[ci as int].constraint.infallible());
                        assert(false);
                    }
                    return Err(e);
                },
            }
            if !ok {
                break ;
            }
            q += 1;
        }
        if ok {
            proof {
                lemma_none_count_update(asg0, vi as int, x, 0);
                lemma_none_count_ge_one(asg0, vi as int, 0);
            }
            let ghost drec = domains@;
            let ghost spre = solutions@;
            let ghost trial_asg = assignments@;
            let res2 = search(
                constraints,
                vconstraints,
                domains,
                assignments,
                solutions,
                single,
                Ghost((depth - 1) as nat),
            );
            match res2 {
                Err(e) => {
                    proof {
                        assert(false);
                    }
                    return Err(e);
                },
                Ok(stop) => {
                    proof {
                        lemma_restored_keeps_hides(dpush, drec, domains@);
                        lemma_solution_blocks(
                            sols0,
                            spre,
                            solutions@,
                            snapshot@,
                            asg0,
                            trial_asg,
                            vi as int,
                            x,
                            t as int,
                            n as int,
                        );
                    }
                    if stop {
                        // Unwind this frame and stop.
                        undo_trial(domains, Ghost(dent), Ghost(dpush));
                        assignments[vi] = None;
                        proof {
                            assert(assignments@ =~= asg0);
                            lemma_restored_trans(doms0, dent, domains@);
                        }
                        return Ok(true);
                    }
                },
            }
        }
        // Undo this value's trial.
        undo_trial(domains, Ghost(dent), Ghost(dpush));
        assignments[vi] = None;
        proof {
            assert(assignments@ =~= asg0);
            lemma_restored_trans(doms0, dent, domains@);
            assert(snapshot@.subrange(0, t + 1 as int) =~= snapshot@.subrange(
                0,
                t as int,
            ).push(snapshot@[t as int]));
            crate::domain::lemma_push_contains(snapshot@.subrange(0, t as int), snapshot@[t as int]);
        }
        t += 1;
    }
    proof {
        assert(snapshot@.subrange(0, snapshot@.len() as int) =~= snapshot@);
    }
    Ok(false)
}

/// Splices the solutions a recursive call appended into this frame's
/// bookkeeping: every appended assignment extends the frame's partial
/// assignment, carries the trial value at the branching variable, and the
/// appended block stays pairwise distinct -- across trials because the
/// branching values differ.
proof fn lemma_solution_blocks(
    sols0: Seq<Vec<i32>>,
    spre: Seq<Vec<i32>>,
    scur: Seq<Vec<i32>>,
    snapshot: Seq<i32>,
    asg0: Seq<Option<i32>>,
    trial_asg: Seq<Option<i32>>,
    vi: int,
    x: i32,
    t: int,
    n: int,
)
    requires
        0 <= t < snapshot.len(),
        snapshot.no_duplicates(),
        x == snapshot[t],
        0 <= vi < n,
        asg0.len() == n,
        trial_asg == asg0.update(vi, Some(x)),
        asg0[vi] is None,
        sols0.len() <= spre.len() <= scur.len(),
        forall|t2: int| 0 <= t2 < spre.len() ==> (#[trigger] scur[t2]) == spre[t2],
        forall|t2: int| 0 <= t2 < sols0.len() ==> (#[trigger] spre[t2]) == sols0[t2],
        forall|t2: int|
            sols0.len() <= t2 < spre.len() ==> (#[trigger] spre[t2])@.len() == n && (forall|
                v: int,
            |
                0 <= v < n && asg0[v] is Some ==> spre[t2]@[v] == asg0[v]->Some_0)
                && snapshot.subrange(0, t).contains(spre[t2]@[vi]),
        forall|t1: int, t2: int|
            sols0.len() <= t1 < t2 < spre.len() ==> (#[trigger] spre[t1])@ != (
            #[trigger] spre[t2])@,
        forall|t2: int|
            spre.len() <= t2 < scur.len() ==> (#[trigger] scur[t2])@.len() == trial_asg.len() && (
            forall|v: int|
                0 <= v < trial_asg.len() && trial_asg[v] is Some ==> scur[t2]@[v]
                    == trial_asg[v]->Some_0),
        forall|t1: int, t2: int|
            spre.len() <= t1 < t2 < scur.len() ==> (#[trigger] scur[t1])@ != (
            #[trigger] scur[t2])@,
    ensures
        forall|t2: int| 0 <= t2 < sols0.len() ==> (#[trigger] scur[t2]) == sols0[t2],
        forall|t2: int|
            sols0.len() <= t2 < scur.len() ==> (#[trigger] scur[t2])@.len() == n && (forall|
                v: int,
            |
                0 <= v < n && asg0[v] is Some ==> scur[t2]@[v] == asg0[v]->Some_0)
                && snapshot.subrange(0, t + 1).contains(scur[t2]@[vi]),
        forall|t1: int, t2: int|
            sols0.len() <= t1 < t2 < scur.len() ==> (#[trigger] scur[t1])@ != (
            #[trigger] scur[t2])@,
{
    let pre = snapshot.subrange(0, t);
    let pre1 = snapshot.subrange(0, t + 1);
    assert(pre1 =~= pre.push(x));
    crate::domain::lemma_push_contains(pre, x);
    assert(!pre.contains(x)) by {
        if pre.contains(x) {
            let k = choose|k: int| 0 <= k < pre.len() && pre[k] == x;
            assert(snapshot[k] == snapshot[t]);
        }
    }
    assert forall|t2: int|
        sols0.len() <= t2 < scur.len() implies (#[trigger] scur[t2])@.len() == n && (forall|
        v: int,
    |
        0 <= v < n && asg0[v] is Some ==> scur[t2]@[v] == asg0[v]->Some_0) && snapshot.subrange(
        0,
        t + 1,
    ).contains(scur[t2]@[vi]) by {
        if t2 < spre.len() {
            assert(scur[t2] == spre[t2]);
            assert(pre.contains(spre[t2]@[vi]));
        } else {
            assert(scur[t2]@[vi] == trial_asg[vi]->Some_0);
            assert forall|v: int|
                0 <= v < n && asg0[v] is Some implies scur[t2]@[v] == asg0[v]->Some_0 by {
                assert(v != vi);
                assert(trial_asg[v] == asg0[v]);
            }
        }
    }
    assert forall|t1: int, t2: int|
        sols0.len() <= t1 < t2 < scur.len() implies (#[trigger] scur[t1])@ != (
    #[trigger] scur[t2])@ by {
        if t2 < spre.len() {
        } else if t1 >= spre.len() {
        } else {
            assert(scur[t1] == spre[t1]);
            assert(pre.contains(spre[t1]@[vi]));
            assert(scur[t2]@[vi] == x);
            if scur[t1]@ == scur[t2]@ {
                assert(scur[t1]@[vi] == x);
                assert(pre.contains(x));
            }
        }
    }
}

/// Restoration is reflexive.
proof fn lemma_doms_restored_refl(doms: Seq<Domain>)
    ensures
        doms_restored(doms, doms),
{
}

/// Restoration composes.
proof fn lemma_restored_trans(a: Seq<Domain>, b: Seq<Domain>, c: Seq<Domain>)
    requires
        doms_restored(a, b),
        doms_restored(b, c),
    ensures
        doms_restored(a, c),
{
}

/// A recursion that restored live sets, hidden sequences and checkpoint
/// stacks also preserved every hide-sequence relation out of the
/// checkpointed state.
proof fn lemma_restored_keeps_hides(dpush: Seq<Domain>, prev: Seq<Domain>, cur: Seq<Domain>)
    requires
        prev.len() == dpush.len(),
        doms_restored(prev, cur),
        doms_wf(prev),
        doms_wf(cur),
        forall|j: int| 0 <= j < dpush.len() ==> (#[trigger] prev[j])@.hides_from(dpush[j]@),
    ensures
        forall|j: int| 0 <= j < dpush.len() ==> (#[trigger] cur[j])@.hides_from(dpush[j]@),
{
    assert forall|j: int| 0 <= j < dpush.len() implies (#[trigger] cur[j])@.hides_from(
        dpush[j]@,
    ) by {
        lemma_nodup_same_set_same_len(prev[j]@.values, cur[j]@.values);
        assert(cur[j]@.hidden.subrange(0, dpush[j]@.hidden.len() as int) == prev[j]@.hidden.subrange(
            0,
            dpush[j]@.hidden.len() as int,
        ));
        assert(cur[j]@.hidden.subrange(dpush[j]@.hidden.len() as int, cur[j]@.hidden.len() as int)
            == prev[j]@.hidden.subrange(
            dpush[j]@.hidden.len() as int,
            prev[j]@.hidden.len() as int,
        ));
    }
}

/// Constraints that preprocessing removes from the registry still hold of
/// every solution.  Preprocessing filters each affected domain down to the
/// values the removed constraint keeps (`pre_keeps`, as `Problem::pre_process`
/// guarantees), and solutions draw their values from those domains, so the
/// removed constraint is satisfied even though no registry entry re-checks
/// it at search time.
pub proof fn lemma_removed_constraints_hold(
    c: ConstraintKind,
    vars: Seq<usize>,
    n: nat,
    doms: Seq<Domain>,
    s: Seq<i32>,
)
    requires
        c.pre_removes(vars),
        s.len() == doms.len(),
        doms.len() == n,
        vars.len() >= 1,
        vars_in_range(vars, n),
        forall|v: int| 0 <= v < doms.len() ==> (#[trigger] doms[v])@.values.contains(s[v]),
        forall|i: int, x: i32|
            0 <= i < vars.len() && (#[trigger] doms[vars[i] as int]@.values.contains(x))
                ==> c.pre_keeps(vars, n, vars[i], x),
    ensures
        c.satisfied(vars, lift_asg(s)),
{
    let asg = lift_asg(s);
    match c {
        ConstraintKind::InSet(ci) => {
            assert forall|i: int|
                0 <= i < vars.len() && (#[trigger] asg[vars[i] as int]) is Some implies ci.set@.contains(
                asg[vars[i] as int]->Some_0,
            ) by {
                assert(doms[vars[i] as int]@.values.contains(s[vars[i] as int]));
                assert(c.pre_keeps(vars, n, vars[i], s[vars[i] as int]));
            }
        },
        ConstraintKind::NotInSet(ci) => {
            assert forall|i: int|
                0 <= i < vars.len() && (#[trigger] asg[vars[i] as int]) is Some implies !ci.set@.contains(
                asg[vars[i] as int]->Some_0,
            ) by {
                assert(doms[vars[i] as int]@.values.contains(s[vars[i] as int]));
                assert(c.pre_keeps(vars, n, vars[i], s[vars[i] as int]));
            }
        },
        _ => {
            // Every other removable constraint spans exactly one variable,
            // and preprocessing kept only the values it accepts there.
            assert(vars.len() == 1);
            let v = vars[0];
            let x = s[v as int];
            assert(doms[vars[0] as int]@.values.contains(x));
            assert(c.pre_keeps(vars, n, v, x));
            let single = crate::constraint::single_asg(n, v, x);
            assert(c.satisfied(vars, single));
            crate::constraint::lemma_satisfied_congruence(c, vars, single, asg);
        },
    }
}

/// The engine's headline guarantee, assembled from the solver's contract:
/// an assignment the solver returns satisfies every constraint that was
/// registered before solving.  Surviving registry entries are re-checked by
/// the solver directly; the entries preprocessing removed live on in the
/// narrowed domains the solution draws its values from.  The premises are
/// exactly what `Problem::solve` and `Problem::solutions` ensure about a
/// returned assignment.
pub proof fn lemma_solution_satisfies_all_registered(
    entries0: Seq<ConstraintVariable>,
    entries1: Seq<ConstraintVariable>,
    doms: Seq<Domain>,
    n: nat,
    s: Seq<i32>,
)
    requires
        s.len() == doms.len(),
        doms.len() == n,
        entries_ok(entries0, n),
        forall|k: int|
            0 <= k < entries1.len() ==> (#[trigger] entries1[k]).constraint.satisfied(
                entries1[k].variables@,
                lift_asg(s),
            ),
        forall|v: int| 0 <= v < doms.len() ==> (#[trigger] doms[v])@.values.contains(s[v]),
        forall|k: int|
            0 <= k < entries0.len() && !(#[trigger] entries0[k]).constraint.pre_removes(
                entries0[k].variables@,
            ) ==> entries1.contains(entries0[k]),
        forall|k: int, i: int, x: i32|
            0 <= k < entries0.len() && 0 <= i < entries0[k].variables@.len() && (
            #[trigger] doms[entries0[k].variables@[i] as int]@.values.contains(x))
                ==> entries0[k].constraint.pre_keeps(
                entries0[k].variables@,
                n,
                entries0[k].variables@[i],
                x,
            ),
    ensures
        forall|k: int|
            0 <= k < entries0.len() ==> (#[trigger] entries0[k]).constraint.satisfied(
                entries0[k].variables@,
                lift_asg(s),
            ),
{
    assert forall|k: int|
        0 <= k < entries0.len() implies (#[trigger] entries0[k]).constraint.satisfied(
        entries0[k].variables@,
        lift_asg(s),
    ) by {
        let c = entries0[k].constraint;
        let vars = entries0[k].variables@;
        if c.pre_removes(vars) {
            assert forall|i: int, x: i32|
                0 <= i < vars.len() && (#[trigger] doms[vars[i] as int]@.values.contains(x))
                implies c.pre_keeps(vars, n, vars[i], x) by {}
            lemma_removed_constraints_hold(c, vars, n, doms, s);
        } else {
            assert(entries1.contains(entries0[k]));
            let t = choose|t: int| 0 <= t < entries1.len() && entries1[t] == entries0[k];
            assert(entries1[t].constraint.satisfied(entries1[t].variables@, lift_asg(s)));
        }
    }
}

/// Pops the per-trial checkpoint on every domain, restoring the live and
/// hidden values each domain held when the trial began.
fn undo_trial(domains: &mut Vec<Domain>, Ghost(dent): Ghost<Seq<Domain>>, Ghost(dpush): Ghost<
    Seq<Domain>>)
    requires
        old(domains)@.len() == dent.len(),
        dpush.len() == dent.len(),
        doms_wf(old(domains)@),
        forall|j: int| 0 <= j < dent.len() ==> (#[trigger] dent[j])@.wf(),
        forall|j: int| 0 <= j < dent.len() ==> (#[trigger] dpush[j])@ == dent[j]@.after_push(),
        forall|j: int|
            0 <= j < dent.len() ==> (#[trigger] old(domains)@[j])@.hides_from(dpush[j]@),
    ensures
        final(domains)@.len() == dent.len(),
        doms_wf(final(domains)@),
        doms_restored(dent, final(domains)@),
{
    let n = domains.len();
    let mut j: usize = 0;
    while j < n
        invariant
            j <= n,
            n == domains@.len(),
            n == dent.len(),
            dpush.len() == n,
            doms_wf(domains@),
            forall|j2: int| 0 <= j2 < n ==> (#[trigger] dent[j2])@.wf(),
            forall|j2: int| 0 <= j2 < n ==> (#[trigger] dpush[j2])@ == dent[j2]@.after_push(),
            forall|j2: int|
                j <= j2 < n ==> (#[trigger] domains@[j2])@.hides_from(dpush[j2]@),
            forall|j2: int|
                0 <= j2 < j ==> (#[trigger] domains@[j2])@.values.to_set()
                    == dent[j2]@.values.to_set() && domains@[j2]@.hidden == dent[j2]@.hidden
                    && domains@[j2]@.states == dent[j2]@.states,
        decreases n - j,
    {
        proof {
            lemma_checkpoint_symmetry(dent[j as int]@, domains@[j as int]@);
        }
        domains[j].pop_state();
        proof {
            assert(doms_wf(domains@)) by {
                assert forall|j2: int| 0 <= j2 < domains@.len() implies (
                #[trigger] domains@[j2])@.wf() by {}
            }
        }
        j += 1;
    }
}

} // verus!
