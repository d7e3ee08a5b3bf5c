use vstd::prelude::*;

use crate::domain::{contains_val, copy_values, lemma_hides_from_refl, lemma_hides_from_trans,
    Domain};

verus! {

/// The error raised for engine-invariant violations: a malformed constraint
/// configuration, or invoking an operation that preprocessing should have
/// made unreachable.  Never used for an ordinary constraint violation, which
/// is reported as `Ok(false)`.
#[derive(Debug, Clone, Copy, PartialEq, Eq)]
pub struct ConstraintError {
    pub msg: &'static str,
}

impl ConstraintError {
    /// Creates an error carrying a human-readable message.
    pub fn new(msg: &'static str) -> (e: ConstraintError)
        ensures
            e.msg == msg,
    {
        ConstraintError { msg }
    }

    /// The message this error carries.
    pub fn message(&self) -> (m: &'static str)
        ensures
            m == self.msg,
    {
        self.msg
    }
}

/// Every listed variable index addresses one of the `n` domains.
pub open spec fn vars_in_range(vars: Seq<usize>, n: nat) -> bool {
    forall|i: int| 0 <= i < vars.len() ==> (#[trigger] vars[i]) < n
}

/// Every listed variable currently has an assigned value.
pub open spec fn all_assigned(vars: Seq<usize>, asg: Seq<Option<i32>>) -> bool {
    forall|i: int| 0 <= i < vars.len() ==> (#[trigger] asg[vars[i] as int]) is Some
}

/// Every domain is well-formed.
pub open spec fn doms_wf(doms: Seq<Domain>) -> bool {
    forall|j: int| 0 <= j < doms.len() ==> (#[trigger] doms[j])@.wf()
}

/// The two domain vectors have the same length and equal models.
pub open spec fn doms_eq(a: Seq<Domain>, b: Seq<Domain>) -> bool {
    a.len() == b.len() && forall|j: int| 0 <= j < a.len() ==> (#[trigger] a[j])@ == b[j]@
}

/// The partial assignment over `n` variables in which only variable `v`
/// carries a value, namely `x`.
pub open spec fn single_asg(n: nat, v: usize, x: i32) -> Seq<Option<i32>> {
    Seq::new(n, |i: int| if i == v as int { Some(x) } else { None })
}

/// The frame every `call` obeys: the assignment mapping is handed back
/// unchanged, domains stay well-formed, only the domains of unassigned
/// variables among `vars` are touched, and then only by hiding live values;
/// without forward checking, no domain changes at all.
pub open spec fn call_frame(
    vars: Seq<usize>,
    doms0: Seq<Domain>,
    doms1: Seq<Domain>,
    asg0: Seq<Option<i32>>,
    asg1: Seq<Option<i32>>,
    forward_check: bool,
) -> bool {
    &&& asg1 == asg0
    &&& doms1.len() == doms0.len()
    &&& doms_wf(doms1)
    &&& forall|v: int|
        0 <= v < doms0.len() && !(vars.contains(v as usize) && asg0[v] is None) ==> (
        #[trigger] doms1[v])@ == doms0[v]@
    &&& forall|v: int|
        0 <= v < doms0.len() && vars.contains(v as usize) && asg0[v] is None ==> (
        #[trigger] doms1[v])@.hides_from(doms0[v]@)
    &&& (!forward_check ==> forall|v: int|
        0 <= v < doms0.len() ==> (#[trigger] doms1[v])@ == doms0[v]@)
}

/// Some variable listed in `vars` and still unassigned has an empty domain.
pub open spec fn some_open_domain_empty(
    vars: Seq<usize>,
    asg: Seq<Option<i32>>,
    doms: Seq<Domain>,
) -> bool {
    exists|v: int|
        0 <= v < doms.len() && vars.contains(v as usize) && asg[v] is None && (
        #[trigger] doms[v])@.values.len() == 0
}

/// Leaving every domain untouched obeys the call frame.
pub proof fn lemma_frame_refl(
    vars: Seq<usize>,
    doms: Seq<Domain>,
    asg: Seq<Option<i32>>,
    forward_check: bool,
)
    requires
        doms_wf(doms),
    ensures
        call_frame(vars, doms, doms, asg, asg, forward_check),
{
    assert forall|v: int|
        0 <= v < doms.len() && vars.contains(v as usize) && asg[v] is None implies (
    #[trigger] doms[v])@.hides_from(doms[v]@) by {
        lemma_hides_from_refl(doms[v]@);
    }
}

/// The number of unassigned variables among `vars`, counting positions from
/// `i` on.
pub open spec fn count_unassigned_from(vars: Seq<usize>, asg: Seq<Option<i32>>, i: int) -> int
    decreases vars.len() - i,
{
    if i < 0 || i >= vars.len() {
        0
    } else {
        (if asg[vars[i] as int] is None {
            1int
        } else {
            0int
        }) + count_unassigned_from(vars, asg, i + 1)
    }
}

/// The number of unassigned variables among `vars`.
pub open spec fn count_unassigned(vars: Seq<usize>, asg: Seq<Option<i32>>) -> int {
    count_unassigned_from(vars, asg, 0)
}

/// Splits the unassigned count at position `i`.
pub proof fn lemma_count_unassigned_split(vars: Seq<usize>, asg: Seq<Option<i32>>, i: int)
    requires
        0 <= i <= vars.len(),
    ensures
        count_unassigned(vars, asg) == count_unassigned_from(vars, asg, i) + (count_unassigned(
            vars,
            asg,
        ) - count_unassigned_from(vars, asg, i)),
        count_unassigned_from(vars, asg, i) >= 0,
        count_unassigned_from(vars, asg, i) == 0 <==> forall|k: int|
            i <= k < vars.len() ==> !((#[trigger] asg[vars[k] as int]) is None),
    decreases vars.len() - i,
{
    if i < vars.len() {
        lemma_count_unassigned_split(vars, asg, i + 1);
    }
}

/// One open position makes the unassigned count positive.
proof fn lemma_count_unassigned_ge_one(vars: Seq<usize>, asg: Seq<Option<i32>>, k: int, i: int)
    requires
        0 <= i <= k < vars.len(),
        asg[vars[k] as int] is None,
    ensures
        count_unassigned_from(vars, asg, i) >= 1,
    decreases k - i,
{
    if i < k {
        lemma_count_unassigned_ge_one(vars, asg, k, i + 1);
        lemma_count_unassigned_split(vars, asg, i + 1);
    } else {
        lemma_count_unassigned_split(vars, asg, i + 1);
    }
}

/// Two distinct open positions make the unassigned count at least two.
proof fn lemma_count_unassigned_ge_two(
    vars: Seq<usize>,
    asg: Seq<Option<i32>>,
    k1: int,
    k2: int,
    i: int,
)
    requires
        0 <= i <= k1 < k2 < vars.len(),
        asg[vars[k1] as int] is None,
        asg[vars[k2] as int] is None,
    ensures
        count_unassigned_from(vars, asg, i) >= 2,
    decreases k1 - i,
{
    if i < k1 {
        lemma_count_unassigned_ge_two(vars, asg, k1, k2, i + 1);
        lemma_count_unassigned_split(vars, asg, i + 1);
    } else {
        lemma_count_unassigned_ge_one(vars, asg, k2, i + 1);
    }
}

/// The protocol every constraint implements.
///
/// A constraint is immutable configuration over an ordered variable list; all
/// evaluation state (the domains and the partial assignment) is passed in.
/// The specification functions pin down what `call` and `pre_process` do:
/// `satisfied` is the constraint's satisfaction predicate, `must_prune` the
/// values forward checking hides, and `pre_keeps` the values preprocessing
/// retains.  `decisive` marks constraints whose verdict is exactly determined
/// by `satisfied` (all built-in constraints; a function-backed constraint is
/// not, since its predicate is opaque), `infallible` those that never raise
/// an error, and `preprocess_only` those that must never be evaluated at
/// search time.
pub trait Constraint: Sized {
    /// The constraint's parameters fit the variable list (multiplier lists
    /// align, and so on).
    spec fn valid(&self, vars: Seq<usize>) -> bool;

    /// Whether the currently assigned variables among `vars` are consistent
    /// with the constraint.  Unassigned variables are ignored, so this is a
    /// consistency check on partial assignments and the full satisfaction
    /// rule on complete ones.
    spec fn satisfied(&self, vars: Seq<usize>, asg: Seq<Option<i32>>) -> bool;

    /// Whether `call`'s verdict and pruning are exactly pinned by
    /// `satisfied` and `must_prune`.
    spec fn decisive(&self) -> bool;

    /// Whether `call` never returns an error.
    spec fn infallible(&self) -> bool;

    /// Whether `call` must never be invoked because preprocessing resolves
    /// the constraint completely; invoking it is an engine error.
    spec fn preprocess_only(&self) -> bool;

    /// Whether forward checking hides value `x` from the domain of the
    /// (unassigned) variable `v`, one of `vars`.
    spec fn must_prune(&self, vars: Seq<usize>, asg: Seq<Option<i32>>, v: int, x: i32) -> bool;

    /// The exact characterization of `call`'s result, over the assignment,
    /// the domains `call` leaves behind, and the forward-check flag: each
    /// constraint kind pins its verdict here, including how it reacts to a
    /// domain that pruning leaves empty.
    spec fn call_result(
        &self,
        vars: Seq<usize>,
        asg: Seq<Option<i32>>,
        doms1: Seq<Domain>,
        forward_check: bool,
        r: Result<bool, ConstraintError>,
    ) -> bool;

    /// Whether preprocessing keeps value `x` in the domain of variable `v`
    /// (one of `vars`), with `n` the total number of variables.
    spec fn pre_keeps(&self, vars: Seq<usize>, n: nat, v: usize, x: i32) -> bool;

    /// Whether preprocessing removes the constraint from the registry.
    spec fn pre_removes(&self, vars: Seq<usize>) -> bool;

    /// Evaluates the constraint against the currently assigned subset of
    /// `variables`, returning `Ok(false)` on violation and `Ok(true)`
    /// otherwise.  With `forward_check` set, additionally hides inconsistent
    /// values from the domains of unassigned variables among `variables`,
    /// reporting `Ok(false)` if a domain empties.  Errors are reserved for
    /// malformed or unevaluable configurations.
    fn call(
        &self,
        variables: &Vec<usize>,
        domains: &mut Vec<Domain>,
        assignments: &mut Vec<Option<i32>>,
        forward_check: bool,
    ) -> (r: Result<bool, ConstraintError>)
        requires
            self.valid(variables@),
            vars_in_range(variables@, old(domains)@.len() as nat),
            old(assignments)@.len() == old(domains)@.len(),
            doms_wf(old(domains)@),
        ensures
            call_frame(
                variables@,
                old(domains)@,
                final(domains)@,
                old(assignments)@,
                final(assignments)@,
                forward_check,
            ),
            self.call_result(variables@, old(assignments)@, final(domains)@, forward_check, r),
            self.infallible() ==> r is Ok,
            self.preprocess_only() ==> r is Err,
            all_assigned(variables@, old(assignments)@) && r == Ok::<bool, ConstraintError>(true)
                ==> self.satisfied(variables@, old(assignments)@),
            self.decisive() && r is Ok && all_assigned(variables@, old(assignments)@) ==> r == Ok::<bool, ConstraintError>(
                self.satisfied(variables@, old(assignments)@),
            ),
            self.decisive() && r == Ok::<bool, ConstraintError>(true) ==> self.satisfied(variables@, old(assignments)@),
            self.decisive() ==> forall|v: int, x: i32|
                0 <= v < old(domains)@.len() && variables@.contains(v as usize) && old(assignments)@[v] is None && old(domains)@[v]@.values.contains(x) && !(#[trigger] final(domains)@[v]@.values.contains(x)) ==> !self.satisfied(
                    variables@,
                    old(assignments)@.update(v, Some(x)),
                ),
            self.decisive() && forward_check && r == Ok::<bool, ConstraintError>(true) ==> forall|
                v: int,
                x: i32,
            |
                0 <= v < old(domains)@.len() && variables@.contains(v as usize) && old(assignments)@[v] is None ==> ((#[trigger] final(domains)@[v]@.values.contains(x)) <==> (old(domains)@[v]@.values.contains(x) && !self.must_prune(
                    variables@,
                    old(assignments)@,
                    v,
                    x,
                ))),
            self.decisive() && r == Ok::<bool, ConstraintError>(false) ==> (!self.satisfied(
                variables@,
                old(assignments)@,
            ) || (forward_check && exists|v: int|
                0 <= v < final(domains)@.len() && variables@.contains(v as usize) && old(assignments)@[v] is None && (#[trigger] final(domains)@[v])@.values.len() == 0)),
    ;

    /// One-time narrowing before search begins, with no assignment present.
    /// Returns whether the constraint is now fully baked into the domains
    /// and must be removed from the registry.
    fn pre_process(&self, variables: &Vec<usize>, domains: &mut Vec<Domain>) -> (remove: bool)
        requires
            self.valid(variables@),
            vars_in_range(variables@, old(domains)@.len() as nat),
            doms_wf(old(domains)@),
            forall|j: int|
                0 <= j < old(domains)@.len() ==> (#[trigger] old(domains)@[j])@.states.len() == 0,
        ensures
            final(domains)@.len() == old(domains)@.len(),
            doms_wf(final(domains)@),
            remove == self.pre_removes(variables@),
            forall|v: int|
                0 <= v < old(domains)@.len() && !variables@.contains(v as usize) ==> (
                #[trigger] final(domains)@[v])@ == old(domains)@[v]@,
            forall|v: int|
                0 <= v < old(domains)@.len() ==> (#[trigger] final(domains)@[v])@.hidden == old(domains)@[v]@.hidden && final(domains)@[v]@.states == old(domains)@[v]@.states,
            forall|v: int, x: i32|
                0 <= v < old(domains)@.len() && (#[trigger] final(domains)@[v]@.values.contains(x)) ==> old(domains)@[v]@.values.contains(x),
            self.decisive() ==> forall|v: int, x: i32|
                0 <= v < old(domains)@.len() && variables@.contains(v as usize) ==> ((
                #[trigger] final(domains)@[v]@.values.contains(x)) <==> (old(domains)@[v]@.values.contains(x) && self.pre_keeps(
                    variables@,
                    old(domains)@.len() as nat,
                    v as usize,
                    x,
                ))),
    ;

    /// The default preprocessing: a constraint spanning exactly one variable
    /// is evaluated against each candidate value individually, values it
    /// rejects are removed for good, and the constraint reports itself ready
    /// for removal from the registry.  Constraints spanning several
    /// variables are left for search.
    fn default_pre_process(&self, variables: &Vec<usize>, domains: &mut Vec<Domain>) -> (remove:
        bool)
        requires
            self.valid(variables@),
            vars_in_range(variables@, old(domains)@.len() as nat),
            doms_wf(old(domains)@),
            forall|j: int|
                0 <= j < old(domains)@.len() ==> (#[trigger] old(domains)@[j])@.states.len() == 0,
        ensures
            final(domains)@.len() == old(domains)@.len(),
            doms_wf(final(domains)@),
            remove == (variables@.len() == 1),
            variables@.len() != 1 ==> final(domains)@ == old(domains)@,
            forall|v: int|
                0 <= v < old(domains)@.len() && v != variables@[0] ==> (#[trigger] final(domains)@[v])@ == old(domains)@[v]@,
            forall|v: int|
                0 <= v < old(domains)@.len() ==> (#[trigger] final(domains)@[v])@.hidden == old(domains)@[v]@.hidden && final(domains)@[v]@.states == old(domains)@[v]@.states,
            forall|v: int, x: i32|
                0 <= v < old(domains)@.len() && (#[trigger] final(domains)@[v]@.values.contains(x)) ==> old(domains)@[v]@.values.contains(x),
            (self.decisive() && self.infallible() && variables@.len() == 1) ==> forall|x: i32|
                (#[trigger] final(domains)@[variables@[0] as int]@.values.contains(x)) <==> (old(domains)@[variables@[0] as int]@.values.contains(x) && self.satisfied(
                    variables@,
                    single_asg(old(domains)@.len() as nat, variables@[0], x),
                )),
    {
        let ghost doms0 = domains@;
        if variables.len() != 1 {
            return false;
        }
        let u = variables[0];
        let n = domains.len();
        let snapshot = copy_values(&domains[u].values);
        let mut asg: Vec<Option<i32>> = Vec::new();
        let mut j: usize = 0;
        while j < n
            invariant
                j <= n,
                asg@.len() == j,
                forall|k: int| 0 <= k < j ==> (#[trigger] asg@[k]) is None,
            decreases n - j,
        {
            asg.push(None);
            j += 1;
        }
        let mut to_remove: Vec<i32> = Vec::new();
        let mut i: usize = 0;
        while i < snapshot.len()
            invariant
                i <= snapshot@.len(),
                n == doms0.len(),
                u == variables@[0],
                variables@.len() == 1,
                u < n,
                self.valid(variables@),
                doms_eq(domains@, doms0),
                doms_wf(doms0),
                doms_wf(domains@),
                vars_in_range(variables@, doms0.len() as nat),
                snapshot@ == doms0[u as int]@.values,
                asg@.len() == n,
                forall|k: int| 0 <= k < n && k != u ==> (#[trigger] asg@[k]) is None,
                forall|y: i32| #[trigger] to_remove@.contains(y) ==> snapshot@.contains(y),
                (self.decisive() && self.infallible()) ==> forall|y: i32|
                    #[trigger] to_remove@.contains(y) <==> (snapshot@.subrange(
                        0,
                        i as int,
                    ).contains(y) && !self.satisfied(variables@, single_asg(n as nat, u, y))),
            decreases snapshot@.len() - i,
        {
            let ghost prefix = snapshot@.subrange(0, i as int);
            let ghost rpre = to_remove@;
            let x = snapshot[i];
            asg[u] = Some(x);
            proof {
                assert(asg@ =~= single_asg(n as nat, u, x));
                assert(all_assigned(variables@, asg@)) by {
                    assert(asg@[variables@[0] as int] is Some);
                }
            }
            let ghost dmid = domains@;
            let res = self.call(variables, domains, &mut asg, false);
            proof {
                assert(doms_eq(domains@, doms0)) by {
                    assert forall|j2: int| 0 <= j2 < doms0.len() implies (
                    #[trigger] domains@[j2])@ == doms0[j2]@ by {
                        assert(domains@[j2]@ == dmid[j2]@);
                    }
                }
                assert(doms_wf(domains@));
                assert(snapshot@.subrange(0, i + 1 as int) =~= prefix.push(x));
                assert forall|y: i32| #[trigger] prefix.push(x).contains(y) <==> (prefix.contains(
                    y,
                ) || y == x) by {
                    if prefix.push(x).contains(y) {
                        let k = choose|k: int|
                            0 <= k < prefix.push(x).len() && prefix.push(x)[k] == y;
                        if k < prefix.len() {
                            assert(prefix[k] == y);
                        }
                    }
                    if prefix.contains(y) {
                        let k = choose|k: int| 0 <= k < prefix.len() && prefix[k] == y;
                        assert(prefix.push(x)[k] == y);
                    }
                    if y == x {
                        assert(prefix.push(x)[prefix.len() as int] == y);
                    }
                }
            }
            let reject = match res {
                Ok(b) => !b,
                Err(_) => false,
            };
            if reject {
                to_remove.push(x);
                proof {
                    assert forall|y: i32| #[trigger] to_remove@.contains(y) <==> (rpre.contains(y)
                        || y == x) by {
                        if to_remove@.contains(y) {
                            let k = choose|k: int|
                                0 <= k < to_remove@.len() && to_remove@[k] == y;
                            if k < rpre.len() {
                                assert(rpre[k] == y);
                            }
                        }
                        if rpre.contains(y) {
                            let k = choose|k: int| 0 <= k < rpre.len() && rpre[k] == y;
                            assert(to_remove@[k] == y);
                        }
                        if y == x {
                            assert(to_remove@[to_remove@.len() - 1] == y);
                        }
                    }
                    assert(snapshot@.contains(x)) by {
                        assert(snapshot@[i as int] == x);
                    }
                }
            }
            i += 1;
        }
        proof {
            assert(snapshot@.subrange(0, snapshot@.len() as int) =~= snapshot@);
        }
        let ghost dpre = domains@[u as int]@;
        domains[u].remove_values(&to_remove);
        proof {
            assert forall|v: int|
                0 <= v < doms0.len() && v != variables@[0] implies (#[trigger] domains@[v])@
                == doms0[v]@ by {}
            assert(doms_wf(domains@)) by {
                assert forall|j2: int| 0 <= j2 < domains@.len() implies (
                #[trigger] domains@[j2])@.wf() by {
                    if j2 != u as int {
                        assert(domains@[j2]@ == doms0[j2]@);
                    }
                }
            }
            assert forall|v: int, x: i32|
                0 <= v < doms0.len() && (#[trigger] domains@[v]@.values.contains(x)) implies doms0[v]@.values.contains(
                x,
            ) by {
                if v == u as int {
                    assert(dpre.values.contains(x));
                } else {
                    assert(domains@[v]@ == doms0[v]@);
                }
            }
            if self.decisive() && self.infallible() {
                assert forall|x: i32|
                    (#[trigger] domains@[u as int]@.values.contains(x)) <==> (doms0[u as int]@.values.contains(
                        x,
                    ) && self.satisfied(variables@, single_asg(n as nat, u, x))) by {
                    assert(domains@[u as int]@.values.contains(x) <==> (dpre.values.contains(x)
                        && !to_remove@.contains(x)));
                }
            }
        }
        true
    }

    /// The shared forward-checking helper, usable when exactly one variable
    /// among `variables` is unassigned: it trial-assigns each candidate
    /// value of that variable, re-evaluates the constraint on the full
    /// tuple, and hides the values that fail, leaving the assignment mapping
    /// as it was.  Returns `false` exactly when it cannot identify a lone
    /// unassigned variable.
    fn forward_check(
        &self,
        variables: &Vec<usize>,
        domains: &mut Vec<Domain>,
        assignments: &mut Vec<Option<i32>>,
    ) -> (r: bool)
        requires
            self.valid(variables@),
            vars_in_range(variables@, old(domains)@.len() as nat),
            old(assignments)@.len() == old(domains)@.len(),
            doms_wf(old(domains)@),
        ensures
            call_frame(
                variables@,
                old(domains)@,
                final(domains)@,
                old(assignments)@,
                final(assignments)@,
                true,
            ),
            r == (count_unassigned(variables@, old(assignments)@) == 1),
            self.decisive() ==> forall|v: int, x: i32|
                0 <= v < old(domains)@.len() && variables@.contains(v as usize) && old(assignments)@[v] is None && old(domains)@[v]@.values.contains(x) && !(#[trigger] final(domains)@[v]@.values.contains(x)) ==> !self.satisfied(
                    variables@,
                    old(assignments)@.update(v, Some(x)),
                ),
            (self.decisive() && self.infallible() && count_unassigned(
                variables@,
                old(assignments)@,
            ) == 1) ==> forall|v: int, x: i32|
                0 <= v < old(domains)@.len() && variables@.contains(v as usize) && old(assignments)@[v] is None ==> ((#[trigger] final(domains)@[v]@.values.contains(x)) <==> (old(domains)@[v]@.values.contains(x) && self.satisfied(
                    variables@,
                    old(assignments)@.update(v, Some(x)),
                ))),
    {
        let ghost doms0 = domains@;
        let ghost asg0 = assignments@;
        // Identify the lone unassigned variable, if there is exactly one.
        let mut found: usize = 0;
        let mut uv: usize = 0;
        let mut i: usize = 0;
        while i < variables.len()
            invariant
                i <= variables@.len(),
                found <= i,
                assignments@ == asg0,
                domains@ == doms0,
                vars_in_range(variables@, doms0.len() as nat),
                asg0.len() == doms0.len(),
                found == count_unassigned(variables@, asg0) - count_unassigned_from(
                    variables@,
                    asg0,
                    i as int,
                ),
                found > 0 ==> (uv < doms0.len() && variables@.contains(uv) && asg0[uv as int]
                    is None),
            decreases variables@.len() - i,
        {
            proof {
                lemma_count_unassigned_split(variables@, asg0, i as int);
                lemma_count_unassigned_split(variables@, asg0, i + 1);
            }
            let v = variables[i];
            if assignments[v].is_none() {
                uv = v;
                found += 1;
                proof {
                    assert(variables@.contains(uv)) by {
                        assert(variables@[i as int] == uv);
                    }
                }
            }
            i += 1;
        }
        proof {
            lemma_count_unassigned_split(variables@, asg0, variables@.len() as int);
            lemma_frame_refl(variables@, doms0, asg0, true);
        }
        if found != 1 {
            return false;
        }
        let nd = domains.len();
        proof {
            assert(doms0.len() <= usize::MAX);
            // With exactly one open position, the found variable is the only
            // open listed one, and assigning it completes the tuple.
            assert forall|v: int|
                0 <= v < doms0.len() && variables@.contains(v as usize) && asg0[v]
                    is None implies v == uv as int by {
                if v != uv as int {
                    let k1 = choose|k1: int|
                        0 <= k1 < variables@.len() && variables@[k1] == v as usize;
                    let k2 = choose|k2: int|
                        0 <= k2 < variables@.len() && variables@[k2] == uv;
                    assert(variables@[k1] as int == v);
                    assert(asg0[variables@[k1] as int] is None);
                    assert(asg0[variables@[k2] as int] is None);
                    assert(variables@[k1] != variables@[k2]);
                    assert(k1 != k2);
                    if k1 < k2 {
                        lemma_count_unassigned_ge_two(variables@, asg0, k1, k2, 0);
                    } else {
                        lemma_count_unassigned_ge_two(variables@, asg0, k2, k1, 0);
                    }
                }
            }
        }
        proof {
            assert forall|k2: int|
                0 <= k2 < variables@.len() && variables@[k2] != uv implies (
            #[trigger] asg0[variables@[k2] as int]) is Some by {
                if asg0[variables@[k2] as int] is None {
                    assert(variables@.contains(variables@[k2]));
                    assert(variables@[k2] as int == uv as int);
                }
            }
        }
        // Trial-assign each candidate value of the unassigned variable and
        // collect the values the constraint rejects.
        let snapshot = copy_values(&domains[uv].values);
        let mut to_hide: Vec<i32> = Vec::new();
        let mut k: usize = 0;
        while k < snapshot.len()
            invariant
                k <= snapshot@.len(),
                uv < doms0.len(),
                variables@.contains(uv),
                asg0[uv as int] is None,
                self.valid(variables@),
                vars_in_range(variables@, doms0.len() as nat),
                doms_wf(doms0),
                doms_eq(domains@, doms0),
                doms_wf(domains@),
                asg0.len() == doms0.len(),
                assignments@.len() == asg0.len(),
                forall|j: int| 0 <= j < asg0.len() && j != uv ==> assignments@[j] == #[trigger] asg0[j],
                snapshot@ == doms0[uv as int]@.values,
                to_hide@.no_duplicates(),
                forall|k2: int|
                    0 <= k2 < variables@.len() && variables@[k2] != uv ==> (
                    #[trigger] asg0[variables@[k2] as int]) is Some,
                forall|y: i32| #[trigger] to_hide@.contains(y) ==> snapshot@.subrange(
                    0,
                    k as int,
                ).contains(y),
                self.decisive() ==> forall|y: i32| #[trigger] to_hide@.contains(y)
                    ==> !self.satisfied(variables@, asg0.update(uv as int, Some(y))),
                (self.decisive() && self.infallible()) ==> forall|y: i32| #[trigger] to_hide@.contains(
                    y,
                ) <==> (snapshot@.subrange(0, k as int).contains(y) && !self.satisfied(
                    variables@,
                    asg0.update(uv as int, Some(y)),
                )),
            decreases snapshot@.len() - k,
        {
            let ghost prefix = snapshot@.subrange(0, k as int);
            let ghost hpre = to_hide@;
            let x = snapshot[k];
            assignments[uv] = Some(x);
            proof {
                assert(assignments@ =~= asg0.update(uv as int, Some(x)));
            }
            let ghost dmid = domains@;
            let res = self.call(variables, domains, assignments, false);
            let reject = match res {
                Ok(b) => !b,
                Err(_) => false,
            };
            proof {
                assert(doms_eq(domains@, doms0)) by {
                    assert forall|j2: int| 0 <= j2 < doms0.len() implies (
                    #[trigger] domains@[j2])@ == doms0[j2]@ by {
                        assert(domains@[j2]@ == dmid[j2]@);
                    }
                }
                assert(doms_wf(domains@));
                assert(snapshot@.subrange(0, k + 1 as int) =~= prefix.push(x));
                assert(!prefix.push(x).contains(x) ==> false) by {
                    assert(prefix.push(x)[prefix.len() as int] == x);
                }
                assert forall|y: i32| prefix.contains(y) implies prefix.push(x).contains(y) by {
                    let j = choose|j: int| 0 <= j < prefix.len() && prefix[j] == y;
                    assert(prefix.push(x)[j] == y);
                }
            }
            if reject {
                let already = contains_val(&to_hide, x);
                if !already {
                    to_hide.push(x);
                    proof {
                        assert(to_hide@ =~= hpre.push(x));
                        crate::domain::lemma_push_contains(hpre, x);
                        assert forall|p: int, q: int|
                            0 <= p < q < to_hide@.len() implies to_hide@[p] != to_hide@[q] by {
                            if q == to_hide@.len() - 1 {
                                assert(hpre.contains(hpre[p]));
                            }
                        }
                        if self.decisive() {
                            assert(!self.satisfied(variables@, asg0.update(uv as int, Some(x))))
                                by {
                                assert(res == Ok::<bool, ConstraintError>(false));
                            }
                        }
                    }
                }
            }
            proof {
                assert forall|y: i32| #[trigger] to_hide@.contains(y) implies snapshot@.subrange(
                    0,
                    k + 1 as int,
                ).contains(y) by {
                    if hpre.contains(y) {
                        assert(prefix.contains(y));
                    }
                }
                if self.decisive() && self.infallible() {
                    crate::domain::lemma_push_contains(prefix, x);
                    assert(all_assigned(variables@, asg0.update(uv as int, Some(x)))) by {
                        assert forall|k2: int|
                            0 <= k2 < variables@.len() implies (#[trigger] asg0.update(
                            uv as int,
                            Some(x),
                        )[variables@[k2] as int]) is Some by {
                            if variables@[k2] != uv {
                                assert(asg0[variables@[k2] as int] is Some);
                            }
                        }
                    }
                    assert(res == Ok::<bool, ConstraintError>(self.satisfied(
                        variables@,
                        asg0.update(uv as int, Some(x)),
                    )));
                    assert forall|y: i32| #[trigger] to_hide@.contains(y) <==> (
                    snapshot@.subrange(0, k + 1 as int).contains(y) && !self.satisfied(
                        variables@,
                        asg0.update(uv as int, Some(y)),
                    )) by {
                        assert(snapshot@.subrange(0, k + 1 as int) =~= prefix.push(x));
                        if to_hide@.contains(y) {
                            if hpre.contains(y) {
                                assert(prefix.contains(y));
                                assert(prefix.push(x).contains(y));
                            } else {
                                assert(y == x);
                                assert(prefix.push(x).contains(y));
                            }
                        }
                        if prefix.push(x).contains(y) && !self.satisfied(
                            variables@,
                            asg0.update(uv as int, Some(y)),
                        ) {
                            if prefix.contains(y) {
                                assert(hpre.contains(y));
                            } else {
                                assert(y == x);
                            }
                        }
                    }
                }
            }
            k += 1;
        }
        // Restore the assignment mapping and apply the pruning.
        assignments[uv] = None;
        proof {
            assert(assignments@ =~= asg0);
            assert(snapshot@.subrange(0, snapshot@.len() as int) =~= snapshot@);
            assert forall|j: int|
                0 <= j < to_hide@.len() implies doms0[uv as int]@.values.contains(
                #[trigger] to_hide@[j],
            ) by {
                assert(to_hide@.contains(to_hide@[j]));
            }
        }
        let ghost dpre = domains@[uv as int]@;
        domains[uv].hide_values(&to_hide);
        proof {
            assert forall|v: int|
                0 <= v < doms0.len() && !(variables@.contains(v as usize) && asg0[v] is None)
                implies (#[trigger] domains@[v])@ == doms0[v]@ by {}
            assert(doms_wf(domains@)) by {
                assert forall|j2: int| 0 <= j2 < domains@.len() implies (
                #[trigger] domains@[j2])@.wf() by {
                    if j2 != uv as int {
                        assert(domains@[j2]@ == doms0[j2]@);
                    }
                }
            }
            assert forall|v: int|
                0 <= v < doms0.len() && variables@.contains(v as usize) && asg0[v] is None implies (
            #[trigger] domains@[v])@.hides_from(doms0[v]@) by {
                if v == uv as int {
                } else {
                    lemma_hides_from_refl(doms0[v]@);
                }
            }
            if self.decisive() && self.infallible() {
                assert forall|v: int, x: i32|
                    0 <= v < doms0.len() && variables@.contains(v as usize) && asg0[v]
                        is None implies ((#[trigger] domains@[v]@.values.contains(x)) <==> (
                doms0[v]@.values.contains(x) && self.satisfied(
                    variables@,
                    asg0.update(v, Some(x)),
                ))) by {
                    assert(v == uv as int);
                    assert(domains@[v]@.values.contains(x) <==> (doms0[v]@.values.contains(x)
                        && !to_hide@.contains(x)));
                    assert(to_hide@.contains(x) <==> (snapshot@.contains(x) && !self.satisfied(
                        variables@,
                        asg0.update(uv as int, Some(x)),
                    )));
                }
            }
            if self.decisive() {
                assert forall|v: int, x: i32|
                    0 <= v < doms0.len() && variables@.contains(v as usize) && asg0[v] is None
                        && doms0[v]@.values.contains(x) && !(#[trigger] domains@[v]@.values.contains(
                        x,
                    )) implies !self.satisfied(variables@, asg0.update(v, Some(x))) by {
                    if v == uv as int {
                        assert(to_hide@.contains(x));
                    } else {
                        assert(domains@[v]@ == doms0[v]@);
                    }
                }
            }
        }
        true
    }
}

/// Requires every pair of assigned variables among `vars` to take different
/// values.
#[derive(Debug)]
pub struct AllDifferentConstraint {}

impl AllDifferentConstraint {
    /// Creates the constraint.
    pub fn new() -> (c: AllDifferentConstraint) {
        AllDifferentConstraint {  }
    }
}

impl Constraint for AllDifferentConstraint {
    open spec fn valid(&self, vars: Seq<usize>) -> bool {
        true
    }

    open spec fn satisfied(&self, vars: Seq<usize>, asg: Seq<Option<i32>>) -> bool {
        forall|p: int, q: int|
            0 <= p < q < vars.len() && (#[trigger] asg[vars[p] as int]) is Some && (
            #[trigger] asg[vars[q] as int]) is Some ==> asg[vars[p] as int]->Some_0 != asg[vars[q] as int]->Some_0
    }

    open spec fn decisive(&self) -> bool {
        true
    }

    open spec fn infallible(&self) -> bool {
        true
    }

    open spec fn preprocess_only(&self) -> bool {
        false
    }

    /// Forward checking hides every value already used by an assigned
    /// variable.
    open spec fn must_prune(&self, vars: Seq<usize>, asg: Seq<Option<i32>>, v: int, x: i32) -> bool {
        exists|j: int| 0 <= j < vars.len() && (#[trigger] asg[vars[j] as int]) == Some(x)
    }

    /// True exactly when no pair of assigned values collides and, under
    /// forward checking, no listed open domain is left empty.
    open spec fn call_result(
        &self,
        vars: Seq<usize>,
        asg: Seq<Option<i32>>,
        doms1: Seq<Domain>,
        forward_check: bool,
        r: Result<bool, ConstraintError>,
    ) -> bool {
        r == Ok::<bool, ConstraintError>(self.satisfied(vars, asg) && !(forward_check
            && some_open_domain_empty(vars, asg, doms1)))
    }

    open spec fn pre_keeps(&self, vars: Seq<usize>, n: nat, v: usize, x: i32) -> bool {
        vars.len() != 1 || self.satisfied(vars, single_asg(n, vars[0], x))
    }

    open spec fn pre_removes(&self, vars: Seq<usize>) -> bool {
        vars.len() == 1
    }

    fn call(
        &self,
        variables: &Vec<usize>,
        domains: &mut Vec<Domain>,
        assignments: &mut Vec<Option<i32>>,
        forward_check: bool,
    ) -> (r: Result<bool, ConstraintError>) {
        let ghost doms0 = domains@;
        let ghost asg0 = assignments@;
        let nd = domains.len();
        proof {
            assert(doms0.len() <= usize::MAX);
        }
        // Collect the values of assigned variables; any repetition violates
        // the constraint.
        let mut seen: Vec<i32> = Vec::new();
        let mut i: usize = 0;
        while i < variables.len()
            invariant
                i <= variables@.len(),
                doms0 == old(domains)@,
                asg0 == old(assignments)@,
                domains@ == doms0,
                assignments@ == asg0,
                vars_in_range(variables@, doms0.len() as nat),
                asg0.len() == doms0.len(),
                doms_wf(doms0),
                seen@.no_duplicates(),
                forall|k: int|
                    0 <= k < i && (#[trigger] asg0[variables@[k] as int]) is Some
                        ==> seen@.contains(asg0[variables@[k] as int]->Some_0),
                forall|y: i32| #[trigger] seen@.contains(y) ==> exists|k: int|
                    0 <= k < i && (#[trigger] asg0[variables@[k] as int]) == Some(y),
                forall|p: int, q: int|
                    0 <= p < q < i && (#[trigger] asg0[variables@[p] as int]) is Some && (
                    #[trigger] asg0[variables@[q] as int]) is Some
                        ==> asg0[variables@[p] as int]->Some_0 != asg0[variables@[q] as int]->Some_0,
            decreases variables@.len() - i,
        {
            let v = variables[i];
            let a = assignments[v];
            if let Some(x) = a {
                let dup = contains_val(&seen, x);
                if dup {
                    proof {
                        let k = choose|k: int|
                            0 <= k < i && (#[trigger] asg0[variables@[k] as int]) == Some(x);
                        assert(!self.satisfied(variables@, asg0)) by {
                            assert(asg0[variables@[k] as int] is Some);
                            assert(asg0[variables@[i as int] as int] is Some);
                        }
                        lemma_frame_refl(variables@, doms0, asg0, forward_check);
                        assert(self.call_result(
                            variables@,
                            asg0,
                            domains@,
                            forward_check,
                            Ok::<bool, ConstraintError>(false),
                        ));
                    }
                    return Ok(false);
                }
                let ghost spre = seen@;
                seen.push(x);
                proof {
                    assert forall|y: i32| #[trigger] seen@.contains(y) implies (spre.contains(y)
                        || y == x) by {
                        let j = choose|j: int| 0 <= j < seen@.len() && seen@[j] == y;
                        if j < spre.len() {
                            assert(spre[j] == y);
                        }
                    }
                    assert forall|p: int, q: int|
                        0 <= p < q < seen@.len() implies seen@[p] != seen@[q] by {
                        if q == seen@.len() - 1 {
                            assert(spre.contains(spre[p]));
                        }
                    }
                    assert(seen@.contains(x)) by {
                        assert(seen@[seen@.len() - 1] == x);
                    }
                    assert forall|y: i32| spre.contains(y) implies seen@.contains(y) by {
                        let j = choose|j: int| 0 <= j < spre.len() && spre[j] == y;
                        assert(seen@[j] == y);
                    }
                    assert(asg0[variables@[i as int] as int] == Some(x));
                }
            }
            i += 1;
        }
        proof {
            assert(self.satisfied(variables@, asg0));
            assert forall|y: i32| #[trigger] seen@.contains(y) <==> exists|k: int|
                0 <= k < variables@.len() && (#[trigger] asg0[variables@[k] as int]) == Some(
                    y,
                ) by {
                if exists|k: int|
                    0 <= k < variables@.len() && (#[trigger] asg0[variables@[k] as int]) == Some(
                        y,
                    ) {
                    let k = choose|k: int|
                        0 <= k < variables@.len() && (#[trigger] asg0[variables@[k] as int])
                            == Some(y);
                    assert(seen@.contains(asg0[variables@[k] as int]->Some_0));
                }
            }
        }
        proof {
            assert(!self.preprocess_only());
            assert(self.decisive());
            assert forall|v: int|
                0 <= v < doms0.len() && variables@.contains(v as usize) && asg0[v] is None implies (
            #[trigger] domains@[v])@.hides_from(doms0[v]@) by {
                lemma_hides_from_refl(doms0[v]@);
            }
        }
        if forward_check {
            // Hide each already-used value from every unassigned variable's
            // domain; an emptied domain is a violation.
            let mut j: usize = 0;
            while j < variables.len()
                invariant
                    forward_check,
                    j <= variables@.len(),
                    doms0 == old(domains)@,
                    asg0 == old(assignments)@,
                    assignments@ == asg0,
                    vars_in_range(variables@, doms0.len() as nat),
                    doms0.len() <= usize::MAX,
                    asg0.len() == doms0.len(),
                    doms_wf(doms0),
                    self.valid(variables@),
                    self.satisfied(variables@, asg0),
                    seen@.no_duplicates(),
                    forall|y: i32| #[trigger] seen@.contains(y) <==> exists|k: int|
                        0 <= k < variables@.len() && (#[trigger] asg0[variables@[k] as int])
                            == Some(y),
                    domains@.len() == doms0.len(),
                    doms_wf(domains@),
                    forall|v: int|
                        0 <= v < doms0.len() && !(variables@.contains(v as usize) && asg0[v]
                            is None) ==> (#[trigger] domains@[v])@ == doms0[v]@,
                    forall|v: int|
                        0 <= v < doms0.len() && variables@.contains(v as usize) && asg0[v] is None
                            ==> (#[trigger] domains@[v])@.hides_from(doms0[v]@),
                    forall|v: int, x: i32|
                        0 <= v < doms0.len() && variables@.subrange(0, j as int).contains(
                            v as usize,
                        ) && asg0[v] is None ==> ((#[trigger] domains@[v]@.values.contains(x))
                            <==> (doms0[v]@.values.contains(x) && !seen@.contains(x))),
                    forall|v: int|
                        0 <= v < doms0.len() && variables@.subrange(0, j as int).contains(
                            v as usize,
                        ) && asg0[v] is None ==> (#[trigger] domains@[v])@.values.len() > 0,
                    forall|v: int|
                        0 <= v < doms0.len() && !variables@.subrange(0, j as int).contains(
                            v as usize,
                        ) ==> (#[trigger] domains@[v])@ == doms0[v]@,
                decreases variables@.len() - j,
            {
                let ghost prefix = variables@.subrange(0, j as int);
                let ghost dstart = domains@;
                let v = variables[j];
                proof {
                    assert(variables@.subrange(0, j + 1 as int) =~= prefix.push(v));
                    assert forall|w: usize| #[trigger] prefix.push(v).contains(w) <==> (
                    prefix.contains(w) || w == v) by {
                        if prefix.push(v).contains(w) {
                            let t = choose|t: int|
                                0 <= t < prefix.push(v).len() && prefix.push(v)[t] == w;
                            if t < prefix.len() {
                                assert(prefix[t] == w);
                            }
                        }
                        if prefix.contains(w) {
                            let t = choose|t: int| 0 <= t < prefix.len() && prefix[t] == w;
                            assert(prefix.push(v)[t] == w);
                        }
                        if w == v {
                            assert(prefix.push(v)[prefix.len() as int] == w);
                        }
                    }
                    assert(variables@.contains(v)) by {
                        assert(variables@[j as int] == v);
                    }
                }
                let a = assignments[v];
                if a.is_none() {
                    let ghost dpre = domains@[v as int]@;
                    // Collect the used values that are present in this
                    // domain.
                    let mut to_hide: Vec<i32> = Vec::new();
                    let mut t: usize = 0;
                    let m = seen.len();
                    while t < m
                        invariant
                            t <= m,
                            m == seen@.len(),
                            v < domains@.len(),
                            domains@[v as int]@ == dpre,
                            seen@.no_duplicates(),
                            to_hide@.no_duplicates(),
                            forall|y: i32| #[trigger] to_hide@.contains(y) <==> (seen@.subrange(
                                0,
                                t as int,
                            ).contains(y) && dpre.values.contains(y)),
                        decreases m - t,
                    {
                        let ghost hpre = to_hide@;
                        let ghost sprefix = seen@.subrange(0, t as int);
                        let y = seen[t];
                        proof {
                            assert(seen@.subrange(0, t + 1 as int) =~= sprefix.push(y));
                            assert forall|z: i32| #[trigger] sprefix.push(y).contains(z) <==> (
                            sprefix.contains(z) || z == y) by {
                                if sprefix.push(y).contains(z) {
                                    let w = choose|w: int|
                                        0 <= w < sprefix.push(y).len() && sprefix.push(y)[w] == z;
                                    if w < sprefix.len() {
                                        assert(sprefix[w] == z);
                                    }
                                }
                                if sprefix.contains(z) {
                                    let w = choose|w: int|
                                        0 <= w < sprefix.len() && sprefix[w] == z;
                                    assert(sprefix.push(y)[w] == z);
                                }
                                if z == y {
                                    assert(sprefix.push(y)[sprefix.len() as int] == z);
                                }
                            }
                            assert(!sprefix.contains(y)) by {
                                if sprefix.contains(y) {
                                    let w = choose|w: int|
                                        0 <= w < sprefix.len() && sprefix[w] == y;
                                    assert(seen@[w] == seen@[t as int]);
                                }
                            }
                        }
                        let present = {
                            let d = &domains[v];
                            contains_val(&d.values, y)
                        };
                        if present {
                            proof {
                                assert(!to_hide@.contains(y));
                            }
                            to_hide.push(y);
                            proof {
                                assert forall|z: i32| #[trigger] to_hide@.contains(z) implies (
                                hpre.contains(z) || z == y) by {
                                    let w = choose|w: int|
                                        0 <= w < to_hide@.len() && to_hide@[w] == z;
                                    if w < hpre.len() {
                                        assert(hpre[w] == z);
                                    }
                                }
                                assert forall|z: i32| hpre.contains(z) implies to_hide@.contains(
                                    z,
                                ) by {
                                    let w = choose|w: int| 0 <= w < hpre.len() && hpre[w] == z;
                                    assert(to_hide@[w] == z);
                                }
                                assert(to_hide@.contains(y)) by {
                                    assert(to_hide@[to_hide@.len() - 1] == y);
                                }
                                assert forall|p: int, q: int|
                                    0 <= p < q < to_hide@.len() implies to_hide@[p]
                                    != to_hide@[q] by {
                                    if q == to_hide@.len() - 1 {
                                        assert(hpre.contains(hpre[p]));
                                    }
                                }
                            }
                        }
                        proof {
                            let snext = seen@.subrange(0, t + 1 as int);
                            assert(snext =~= sprefix.push(y));
                            assert forall|z: i32| #[trigger] to_hide@.contains(z) implies (
                            snext.contains(z) && dpre.values.contains(z)) by {
                                if hpre.contains(z) {
                                    assert(sprefix.contains(z) && dpre.values.contains(z));
                                    assert(sprefix.push(y).contains(z));
                                } else {
                                    assert(z == y);
                                    assert(sprefix.push(y).contains(z));
                                }
                            }
                            assert forall|z: i32|
                                snext.contains(z) && dpre.values.contains(z) implies to_hide@.contains(
                                z,
                            ) by {
                                assert(sprefix.push(y).contains(z));
                                if sprefix.contains(z) {
                                    assert(hpre.contains(z));
                                    if !to_hide@.contains(z) {
                                        assert(false);
                                    }
                                } else {
                                    assert(z == y);
                                }
                            }
                        }
                        t += 1;
                    }
                    proof {
                        assert(seen@.subrange(0, m as int) =~= seen@);
                        assert forall|w: int|
                            0 <= w < to_hide@.len() implies dpre.values.contains(
                            #[trigger] to_hide@[w],
                        ) by {
                            assert(to_hide@.contains(to_hide@[w]));
                        }
                    }
                    domains[v].hide_values(&to_hide);
                    proof {
                        lemma_hides_from_trans(domains@[v as int]@, dpre, doms0[v as int]@);
                        assert(doms_wf(domains@)) by {
                            assert forall|j2: int| 0 <= j2 < domains@.len() implies (
                            #[trigger] domains@[j2])@.wf() by {
                                if j2 != v as int {
                                    assert(domains@[j2]@.wf());
                                }
                            }
                        }
                    }
                    let empty = domains[v].values.len() == 0;
                    if empty {
                        proof {
                            assert(domains@[v as int]@.values.len() == 0);
                            assert forall|u: int|
                                0 <= u < doms0.len() && !(variables@.contains(u as usize)
                                    && asg0[u] is None) implies (#[trigger] domains@[u])@
                                == doms0[u]@ by {
                                assert(u != v as int);
                                assert(domains@[u]@ == dstart[u]@);
                            }
                            assert forall|u: int|
                                0 <= u < doms0.len() && variables@.contains(u as usize) && asg0[u]
                                    is None implies (#[trigger] domains@[u])@.hides_from(
                                doms0[u]@,
                            ) by {
                                if u != v as int {
                                    assert(domains@[u]@ == dstart[u]@);
                                }
                            }
                            assert forall|u: int, x: i32|
                                0 <= u < doms0.len() && variables@.contains(u as usize) && asg0[u]
                                    is None && doms0[u]@.values.contains(x) && !(
                                #[trigger] domains@[u]@.values.contains(x)) implies seen@.contains(
                                x,
                            ) by {
                                if u == v as int {
                                    if dstart[u]@.values.contains(x) {
                                        assert(to_hide@.contains(x));
                                    } else {
                                        assert(prefix.contains(u as usize));
                                    }
                                } else {
                                    assert(domains@[u]@ == dstart[u]@);
                                    assert(prefix.contains(u as usize));
                                }
                            }
                            lemma_alldiff_prune_sound(self, variables@, asg0, doms0, domains@, seen@);
                            assert(some_open_domain_empty(variables@, asg0, domains@)) by {
                                assert(0 <= (v as int) && (v as int) < domains@.len()
                                    && variables@.contains(v) && asg0[v as int] is None
                                    && domains@[v as int]@.values.len() == 0);
                            }
                            assert(self.call_result(
                                variables@,
                                asg0,
                                domains@,
                                forward_check,
                                Ok::<bool, ConstraintError>(false),
                            ));
                        }
                        return Ok(false);
                    }
                } else {
                    proof {
                        assert forall|u: int|
                            0 <= u < doms0.len() && variables@.subrange(0, j + 1 as int).contains(
                                u as usize,
                            ) && asg0[u] is None implies (#[trigger] domains@[u])@.values.len()
                            > 0 by {
                            if !prefix.contains(u as usize) {
                                assert(u == v as int);
                            }
                        }
                    }
                }
                j += 1;
            }
            proof {
                assert(variables@.subrange(0, variables@.len() as int) =~= variables@);
                lemma_alldiff_prune_sound(self, variables@, asg0, doms0, domains@, seen@);
                assert forall|v: int, x: i32|
                    0 <= v < doms0.len() && variables@.contains(v as usize) && asg0[v]
                        is None implies ((#[trigger] domains@[v]@.values.contains(x)) <==> (
                doms0[v]@.values.contains(x) && !self.must_prune(variables@, asg0, v, x))) by {
                    assert(variables@.subrange(0, variables@.len() as int).contains(
                        v as usize,
                    ));
                    assert(domains@[v]@.values.contains(x) <==> (doms0[v]@.values.contains(x)
                        && !seen@.contains(x)));
                    lemma_alldiff_prunes_iff_seen(self, variables@, asg0, seen@, v, x);
                }
                assert(!some_open_domain_empty(variables@, asg0, domains@)) by {
                    if some_open_domain_empty(variables@, asg0, domains@) {
                        let v = choose|v: int|
                            0 <= v < domains@.len() && variables@.contains(v as usize) && asg0[v]
                                is None && (#[trigger] domains@[v])@.values.len() == 0;
                        assert(variables@.subrange(0, variables@.len() as int).contains(
                            v as usize,
                        ));
                    }
                }
                assert(self.call_result(
                    variables@,
                    asg0,
                    domains@,
                    forward_check,
                    Ok::<bool, ConstraintError>(true),
                ));
            }
        } else {
            proof {
                lemma_frame_refl(variables@, doms0, asg0, forward_check);
                assert(self.call_result(
                    variables@,
                    asg0,
                    domains@,
                    forward_check,
                    Ok::<bool, ConstraintError>(true),
                ));
            }
        }
        Ok(true)
    }

    fn pre_process(&self, variables: &Vec<usize>, domains: &mut Vec<Domain>) -> (remove: bool) {
        let nd = domains.len();
        proof {
            assert(old(domains)@.len() <= usize::MAX);
        }
        let r = self.default_pre_process(variables, domains);
        proof {
            if variables@.len() == 1 {
                assert forall|v: int, x: i32|
                    0 <= v < old(domains)@.len() && variables@.contains(v as usize) implies ((
                #[trigger] domains@[v]@.values.contains(x)) <==> (old(domains)@[v]@.values.contains(x) && self.pre_keeps(
                    variables@,
                    old(domains)@.len() as nat,
                    v as usize,
                    x,
                ))) by {
                    let k = choose|k: int|
                        0 <= k < variables@.len() && variables@[k] == v as usize;
                    assert(variables@[0] == v as usize);
                    assert(v == variables@[0] as int);
                }
            } else {
                assert forall|v: int, x: i32|
                    0 <= v < old(domains)@.len() && variables@.contains(v as usize) implies ((
                #[trigger] domains@[v]@.values.contains(x)) <==> (old(domains)@[v]@.values.contains(x) && self.pre_keeps(
                    variables@,
                    old(domains)@.len() as nat,
                    v as usize,
                    x,
                ))) by {
                    assert(domains@[v]@ == old(domains)@[v]@);
                }
            }
        }
        r
    }
}

/// A value hidden by all-different forward checking is exactly a value some
/// assigned variable already uses.
proof fn lemma_alldiff_prunes_iff_seen(
    c: &AllDifferentConstraint,
    vars: Seq<usize>,
    asg: Seq<Option<i32>>,
    seen: Seq<i32>,
    v: int,
    x: i32,
)
    requires
        forall|y: i32| #[trigger] seen.contains(y) <==> exists|k: int|
            0 <= k < vars.len() && (#[trigger] asg[vars[k] as int]) == Some(y),
        vars.contains(v as usize),
        0 <= v <= usize::MAX,
    ensures
        c.must_prune(vars, asg, v, x) <==> seen.contains(x),
{
    if seen.contains(x) {
        let k = choose|k: int| 0 <= k < vars.len() && (#[trigger] asg[vars[k] as int]) == Some(x);
        assert(c.must_prune(vars, asg, v, x));
    }
    if c.must_prune(vars, asg, v, x) {
        let j = choose|j: int| 0 <= j < vars.len() && (#[trigger] asg[vars[j] as int]) == Some(x);
        assert(seen.contains(x));
    }
}

/// Pruning soundness for the all-different constraint: every value removed
/// by forward checking collides with an assigned value.
proof fn lemma_alldiff_prune_sound(
    c: &AllDifferentConstraint,
    vars: Seq<usize>,
    asg: Seq<Option<i32>>,
    doms0: Seq<Domain>,
    doms1: Seq<Domain>,
    seen: Seq<i32>,
)
    requires
        doms1.len() == doms0.len(),
        doms0.len() <= usize::MAX,
        asg.len() == doms0.len(),
        vars_in_range(vars, asg.len() as nat),
        forall|y: i32| #[trigger] seen.contains(y) <==> exists|k: int|
            0 <= k < vars.len() && (#[trigger] asg[vars[k] as int]) == Some(y),
        forall|v: int, x: i32|
            0 <= v < doms0.len() && vars.contains(v as usize) && asg[v] is None
                && doms0[v]@.values.contains(x) && !(#[trigger] doms1[v]@.values.contains(x))
                ==> seen.contains(x),
    ensures
        forall|v: int, x: i32|
            0 <= v < doms0.len() && vars.contains(v as usize) && asg[v] is None
                && doms0[v]@.values.contains(x) && !(#[trigger] doms1[v]@.values.contains(x))
                ==> !c.satisfied(vars, asg.update(v, Some(x))),
{
    assert forall|v: int, x: i32|
        0 <= v < doms0.len() && vars.contains(v as usize) && asg[v] is None
            && doms0[v]@.values.contains(x) && !(#[trigger] doms1[v]@.values.contains(x)) implies !c.satisfied(
        vars,
        asg.update(v, Some(x)),
    ) by {
        assert(seen.contains(x));
        let k = choose|k: int| 0 <= k < vars.len() && (#[trigger] asg[vars[k] as int]) == Some(x);
        let i = choose|i: int| 0 <= i < vars.len() && vars[i] == v as usize;
        assert(vars[i] == v);
        let asg1 = asg.update(v, Some(x));
        assert(vars[k] < asg.len() && vars[i] < asg.len());
        assert(vars[k] != v) by {
            assert(asg[vars[k] as int] is Some);
        }
        assert(asg1[vars[k] as int] == Some(x));
        assert(asg1[vars[i] as int] == Some(x));
        assert(k != i);
        if k < i {
            assert(!c.satisfied(vars, asg1)) by {
                assert(asg1[vars[k] as int] is Some && asg1[vars[i] as int] is Some
                    && asg1[vars[k] as int]->Some_0 == asg1[vars[i] as int]->Some_0);
            }
        } else {
            assert(!c.satisfied(vars, asg1)) by {
                assert(asg1[vars[i] as int] is Some && asg1[vars[k] as int] is Some
                    && asg1[vars[i] as int]->Some_0 == asg1[vars[k] as int]->Some_0);
            }
        }
    }
}

/// Requires every pair of assigned variables among `vars` to take the same
/// value.
#[derive(Debug)]
pub struct AllEqualConstraint {}

impl AllEqualConstraint {
    /// Creates the constraint.
    pub fn new() -> (c: AllEqualConstraint) {
        AllEqualConstraint {  }
    }
}

impl Constraint for AllEqualConstraint {
    open spec fn valid(&self, vars: Seq<usize>) -> bool {
        true
    }

    open spec fn satisfied(&self, vars: Seq<usize>, asg: Seq<Option<i32>>) -> bool {
        forall|p: int, q: int|
            0 <= p < vars.len() && 0 <= q < vars.len() && (#[trigger] asg[vars[p] as int]) is Some
                && (#[trigger] asg[vars[q] as int]) is Some ==> asg[vars[p] as int]->Some_0 == asg[vars[q] as int]->Some_0
    }

    open spec fn decisive(&self) -> bool {
        true
    }

    open spec fn infallible(&self) -> bool {
        true
    }

    open spec fn preprocess_only(&self) -> bool {
        false
    }

    /// Once any variable is fixed, forward checking hides every other value.
    open spec fn must_prune(&self, vars: Seq<usize>, asg: Seq<Option<i32>>, v: int, x: i32) -> bool {
        exists|j: int|
            0 <= j < vars.len() && (#[trigger] asg[vars[j] as int]) is Some
                && asg[vars[j] as int]->Some_0 != x
    }

    /// True exactly when the assigned values agree and, once some value is
    /// fixed, forward checking leaves no listed open domain empty (an open
    /// domain lacking the fixed value empties when pruned).
    open spec fn call_result(
        &self,
        vars: Seq<usize>,
        asg: Seq<Option<i32>>,
        doms1: Seq<Domain>,
        forward_check: bool,
        r: Result<bool, ConstraintError>,
    ) -> bool {
        r == Ok::<bool, ConstraintError>(self.satisfied(vars, asg) && !(forward_check && (exists|
            j: int,
        |
            0 <= j < vars.len() && (#[trigger] asg[vars[j] as int]) is Some)
            && some_open_domain_empty(vars, asg, doms1)))
    }

    open spec fn pre_keeps(&self, vars: Seq<usize>, n: nat, v: usize, x: i32) -> bool {
        vars.len() != 1 || self.satisfied(vars, single_asg(n, vars[0], x))
    }

    open spec fn pre_removes(&self, vars: Seq<usize>) -> bool {
        vars.len() == 1
    }

    fn call(
        &self,
        variables: &Vec<usize>,
        domains: &mut Vec<Domain>,
        assignments: &mut Vec<Option<i32>>,
        forward_check: bool,
    ) -> (r: Result<bool, ConstraintError>) {
        let ghost doms0 = domains@;
        let ghost asg0 = assignments@;
        let nd = domains.len();
        proof {
            assert(doms0.len() <= usize::MAX);
        }
        // Find the first assigned value; any differing assigned value
        // violates the constraint.
        let mut fixed: Option<i32> = None;
        let mut i: usize = 0;
        while i < variables.len()
            invariant
                i <= variables@.len(),
                doms0 == old(domains)@,
                asg0 == old(assignments)@,
                domains@ == doms0,
                assignments@ == asg0,
                vars_in_range(variables@, doms0.len() as nat),
                asg0.len() == doms0.len(),
                doms_wf(doms0),
                fixed is Some ==> exists|k: int|
                    0 <= k < i && (#[trigger] asg0[variables@[k] as int]) == Some(
                        fixed->Some_0,
                    ),
                fixed is None ==> forall|k: int|
                    0 <= k < i ==> !((#[trigger] asg0[variables@[k] as int]) is Some),
                forall|k: int|
                    0 <= k < i && (#[trigger] asg0[variables@[k] as int]) is Some ==> (fixed
                        is Some && asg0[variables@[k] as int]->Some_0 == fixed->Some_0),
            decreases variables@.len() - i,
        {
            let v = variables[i];
            let a = assignments[v];
            if let Some(x) = a {
                if let Some(f) = fixed {
                    if x != f {
                        proof {
                            let k = choose|k: int|
                                0 <= k < i && (#[trigger] asg0[variables@[k] as int]) == Some(f);
                            assert(!self.satisfied(variables@, asg0)) by {
                                assert(asg0[variables@[k] as int] is Some);
                                assert(asg0[variables@[i as int] as int] is Some);
                            }
                            lemma_frame_refl(variables@, doms0, asg0, forward_check);
                            assert(self.call_result(
                                variables@,
                                asg0,
                                domains@,
                                forward_check,
                                Ok::<bool, ConstraintError>(false),
                            ));
                        }
                        return Ok(false);
                    }
                } else {
                    fixed = Some(x);
                    proof {
                        assert(asg0[variables@[i as int] as int] == Some(x));
                    }
                }
            }
            i += 1;
        }
        proof {
            assert(self.satisfied(variables@, asg0));
        }
        proof {
            assert forall|v: int|
                0 <= v < doms0.len() && variables@.contains(v as usize) && asg0[v] is None implies (
            #[trigger] domains@[v])@.hides_from(doms0[v]@) by {
                lemma_hides_from_refl(doms0[v]@);
            }
        }
        if forward_check {
            if let Some(f) = fixed {
                // Hide every value other than the fixed one from each
                // unassigned variable's domain; an emptied domain (the fixed
                // value was not even present) is a violation.
                let mut j: usize = 0;
                while j < variables.len()
                    invariant
                        forward_check,
                        j <= variables@.len(),
                        doms0 == old(domains)@,
                        asg0 == old(assignments)@,
                        assignments@ == asg0,
                        vars_in_range(variables@, doms0.len() as nat),
                        doms0.len() <= usize::MAX,
                        asg0.len() == doms0.len(),
                        doms_wf(doms0),
                        self.valid(variables@),
                        self.satisfied(variables@, asg0),
                        exists|k: int|
                            0 <= k < variables@.len() && (#[trigger] asg0[variables@[k] as int])
                                == Some(f),
                        forall|k: int|
                            0 <= k < variables@.len() && (#[trigger] asg0[variables@[k] as int])
                                is Some ==> asg0[variables@[k] as int]->Some_0 == f,
                        domains@.len() == doms0.len(),
                        doms_wf(domains@),
                        forall|v: int|
                            0 <= v < doms0.len() && !(variables@.contains(v as usize) && asg0[v]
                                is None) ==> (#[trigger] domains@[v])@ == doms0[v]@,
                        forall|v: int|
                            0 <= v < doms0.len() && variables@.contains(v as usize) && asg0[v]
                                is None ==> (#[trigger] domains@[v])@.hides_from(doms0[v]@),
                        forall|v: int, x: i32|
                            0 <= v < doms0.len() && variables@.subrange(0, j as int).contains(
                                v as usize,
                            ) && asg0[v] is None ==> ((#[trigger] domains@[v]@.values.contains(x))
                                <==> (doms0[v]@.values.contains(x) && x == f)),
                        forall|v: int|
                            0 <= v < doms0.len() && variables@.subrange(0, j as int).contains(
                                v as usize,
                            ) && asg0[v] is None ==> (#[trigger] domains@[v])@.values.len() > 0,
                        forall|v: int|
                            0 <= v < doms0.len() && !variables@.subrange(0, j as int).contains(
                                v as usize,
                            ) ==> (#[trigger] domains@[v])@ == doms0[v]@,
                    decreases variables@.len() - j,
                {
                    let ghost prefix = variables@.subrange(0, j as int);
                    let ghost dstart = domains@;
                    let v = variables[j];
                    proof {
                        assert(variables@.subrange(0, j + 1 as int) =~= prefix.push(v));
                        assert forall|w: usize| #[trigger] prefix.push(v).contains(w) <==> (
                        prefix.contains(w) || w == v) by {
                            if prefix.push(v).contains(w) {
                                let t = choose|t: int|
                                    0 <= t < prefix.push(v).len() && prefix.push(v)[t] == w;
                                if t < prefix.len() {
                                    assert(prefix[t] == w);
                                }
                            }
                            if prefix.contains(w) {
                                let t = choose|t: int| 0 <= t < prefix.len() && prefix[t] == w;
                                assert(prefix.push(v)[t] == w);
                            }
                            if w == v {
                                assert(prefix.push(v)[prefix.len() as int] == w);
                            }
                        }
                        assert(variables@.contains(v)) by {
                            assert(variables@[j as int] == v);
                        }
                    }
                    let a = assignments[v];
                    if a.is_none() {
                        let ghost dpre = domains@[v as int]@;
                        // Collect every live value other than the fixed one.
                        let mut to_hide: Vec<i32> = Vec::new();
                        let mut t: usize = 0;
                        let m = domains[v].values.len();
                        while t < m
                            invariant
                                t <= m,
                                v < domains@.len(),
                                m == domains@[v as int]@.values.len(),
                                domains@[v as int]@ == dpre,
                                dpre.wf(),
                                to_hide@.no_duplicates(),
                                forall|z: i32| #[trigger] to_hide@.contains(z) <==> (
                                dpre.values.subrange(0, t as int).contains(z) && z != f),
                            decreases m - t,
                        {
                            let ghost hpre = to_hide@;
                            let ghost vprefix = dpre.values.subrange(0, t as int);
                            let y = {
                                let d = &domains[v];
                                d.values[t]
                            };
                            proof {
                                assert(dpre.values.subrange(0, t + 1 as int) =~= vprefix.push(y));
                                assert forall|z: i32| #[trigger] vprefix.push(y).contains(z) <==> (
                                vprefix.contains(z) || z == y) by {
                                    if vprefix.push(y).contains(z) {
                                        let w = choose|w: int|
                                            0 <= w < vprefix.push(y).len() && vprefix.push(y)[w]
                                                == z;
                                        if w < vprefix.len() {
                                            assert(vprefix[w] == z);
                                        }
                                    }
                                    if vprefix.contains(z) {
                                        let w = choose|w: int|
                                            0 <= w < vprefix.len() && vprefix[w] == z;
                                        assert(vprefix.push(y)[w] == z);
                                    }
                                    if z == y {
                                        assert(vprefix.push(y)[vprefix.len() as int] == z);
                                    }
                                }
                                assert(!vprefix.contains(y)) by {
                                    if vprefix.contains(y) {
                                        let w = choose|w: int|
                                            0 <= w < vprefix.len() && vprefix[w] == y;
                                        assert(dpre.values[w] == dpre.values[t as int]);
                                    }
                                }
                            }
                            if y != f {
                                proof {
                                    assert(!to_hide@.contains(y));
                                }
                                to_hide.push(y);
                                proof {
                                    assert forall|z: i32| #[trigger] to_hide@.contains(z) implies (
                                    hpre.contains(z) || z == y) by {
                                        let w = choose|w: int|
                                            0 <= w < to_hide@.len() && to_hide@[w] == z;
                                        if w < hpre.len() {
                                            assert(hpre[w] == z);
                                        }
                                    }
                                    assert forall|z: i32| hpre.contains(z) implies to_hide@.contains(
                                        z,
                                    ) by {
                                        let w = choose|w: int| 0 <= w < hpre.len() && hpre[w] == z;
                                        assert(to_hide@[w] == z);
                                    }
                                    assert(to_hide@.contains(y)) by {
                                        assert(to_hide@[to_hide@.len() - 1] == y);
                                    }
                                    assert forall|p: int, q: int|
                                        0 <= p < q < to_hide@.len() implies to_hide@[p]
                                        != to_hide@[q] by {
                                        if q == to_hide@.len() - 1 {
                                            assert(hpre.contains(hpre[p]));
                                        }
                                    }
                                }
                            }
                            proof {
                                let sub1 = dpre.values.subrange(0, t + 1 as int);
                                assert forall|z: i32| #[trigger] to_hide@.contains(z) implies (
                                sub1.contains(z) && z != f) by {
                                    if hpre.contains(z) {
                                        assert(vprefix.contains(z) && z != f);
                                        assert(vprefix.push(y).contains(z));
                                    } else {
                                        assert(z == y);
                                        assert(vprefix.push(y).contains(z));
                                    }
                                }
                                assert forall|z: i32| sub1.contains(z) && z != f implies (
                                #[trigger] to_hide@.contains(z)) by {
                                    assert(vprefix.push(y).contains(z));
                                    if vprefix.contains(z) {
                                        assert(hpre.contains(z));
                                    } else {
                                        assert(z == y);
                                    }
                                }
                            }
                            t += 1;
                        }
                        proof {
                            assert(dpre.values.subrange(0, m as int) =~= dpre.values);
                            assert forall|w: int|
                                0 <= w < to_hide@.len() implies dpre.values.contains(
                                #[trigger] to_hide@[w],
                            ) by {
                                assert(to_hide@.contains(to_hide@[w]));
                            }
                        }
                        domains[v].hide_values(&to_hide);
                        proof {
                            lemma_hides_from_trans(domains@[v as int]@, dpre, doms0[v as int]@);
                            assert(doms_wf(domains@)) by {
                                assert forall|j2: int| 0 <= j2 < domains@.len() implies (
                                #[trigger] domains@[j2])@.wf() by {
                                    if j2 != v as int {
                                        assert(domains@[j2]@.wf());
                                    }
                                }
                            }
                        }
                        let empty = domains[v].values.len() == 0;
                        if empty {
                            proof {
                                assert forall|u: int|
                                    0 <= u < doms0.len() && !(variables@.contains(u as usize)
                                        && asg0[u] is None) implies (#[trigger] domains@[u])@
                                    == doms0[u]@ by {
                                    assert(u != v as int);
                                    assert(domains@[u]@ == dstart[u]@);
                                }
                                assert forall|u: int|
                                    0 <= u < doms0.len() && variables@.contains(u as usize)
                                        && asg0[u] is None implies (
                                #[trigger] domains@[u])@.hides_from(doms0[u]@) by {
                                    if u != v as int {
                                        assert(domains@[u]@ == dstart[u]@);
                                    }
                                }
                                lemma_alleq_prune_sound(
                                    self,
                                    variables@,
                                    asg0,
                                    doms0,
                                    domains@,
                                    f,
                                    dstart,
                                    prefix,
                                    v,
                                    to_hide@,
                                    dpre,
                                );
                                assert(domains@[v as int]@.values.len() == 0);
                                assert(some_open_domain_empty(variables@, asg0, domains@)) by {
                                    assert(0 <= (v as int) && (v as int) < domains@.len()
                                        && variables@.contains(v) && asg0[v as int] is None
                                        && domains@[v as int]@.values.len() == 0);
                                }
                                assert(exists|k2: int|
                                    0 <= k2 < variables@.len() && (
                                    #[trigger] asg0[variables@[k2] as int]) is Some) by {
                                    let k2 = choose|k2: int|
                                        0 <= k2 < variables@.len() && (
                                        #[trigger] asg0[variables@[k2] as int]) == Some(f);
                                }
                                assert(self.call_result(
                                    variables@,
                                    asg0,
                                    domains@,
                                    forward_check,
                                    Ok::<bool, ConstraintError>(false),
                                ));
                            }
                            return Ok(false);
                        }
                    } else {
                        proof {
                            assert forall|u: int|
                                0 <= u < doms0.len() && variables@.subrange(
                                    0,
                                    j + 1 as int,
                                ).contains(u as usize) && asg0[u] is None implies (
                            #[trigger] domains@[u])@.values.len() > 0 by {
                                if !prefix.contains(u as usize) {
                                    assert(u == v as int);
                                }
                            }
                        }
                    }
                    j += 1;
                }
                proof {
                    assert(variables@.subrange(0, variables@.len() as int) =~= variables@);
                    lemma_alleq_final(self, variables@, asg0, doms0, domains@, f);
                    assert(!some_open_domain_empty(variables@, asg0, domains@)) by {
                        if some_open_domain_empty(variables@, asg0, domains@) {
                            let v = choose|v: int|
                                0 <= v < domains@.len() && variables@.contains(v as usize)
                                    && asg0[v] is None && (#[trigger] domains@[v])@.values.len()
                                    == 0;
                            assert(variables@.subrange(0, variables@.len() as int).contains(
                                v as usize,
                            ));
                        }
                    }
                    assert(self.call_result(
                        variables@,
                        asg0,
                        domains@,
                        forward_check,
                        Ok::<bool, ConstraintError>(true),
                    ));
                }
            } else {
                proof {
                    assert forall|v: int, x: i32|
                        0 <= v < doms0.len() && variables@.contains(v as usize) && asg0[v]
                            is None implies ((#[trigger] domains@[v]@.values.contains(x)) <==> (
                    doms0[v]@.values.contains(x) && !self.must_prune(variables@, asg0, v, x))) by {
                        assert(domains@[v]@ == doms0[v]@);
                        if self.must_prune(variables@, asg0, v, x) {
                            let jj = choose|jj: int|
                                0 <= jj < variables@.len() && (
                                #[trigger] asg0[variables@[jj] as int]) is Some
                                    && asg0[variables@[jj] as int]->Some_0 != x;
                            assert(false);
                        }
                    }
                    assert(!(exists|k2: int|
                        0 <= k2 < variables@.len() && (#[trigger] asg0[variables@[k2] as int])
                            is Some));
                    assert(self.call_result(
                        variables@,
                        asg0,
                        domains@,
                        forward_check,
                        Ok::<bool, ConstraintError>(true),
                    ));
                }
            }
        } else {
            proof {
                assert(self.call_result(
                    variables@,
                    asg0,
                    domains@,
                    forward_check,
                    Ok::<bool, ConstraintError>(true),
                ));
            }
        }
        proof {
            assert(!self.preprocess_only());
            assert(self.decisive() && self.infallible());
        }
        Ok(true)
    }

    fn pre_process(&self, variables: &Vec<usize>, domains: &mut Vec<Domain>) -> (remove: bool) {
        let nd = domains.len();
        proof {
            assert(old(domains)@.len() <= usize::MAX);
        }
        let r = self.default_pre_process(variables, domains);
        proof {
            if variables@.len() == 1 {
                assert forall|v: int, x: i32|
                    0 <= v < old(domains)@.len() && variables@.contains(v as usize) implies ((
                #[trigger] domains@[v]@.values.contains(x)) <==> (old(domains)@[v]@.values.contains(
                    x,
                ) && self.pre_keeps(variables@, old(domains)@.len() as nat, v as usize, x))) by {
                    let k = choose|k: int|
                        0 <= k < variables@.len() && variables@[k] == v as usize;
                    assert(variables@[0] == v as usize);
                    assert(v == variables@[0] as int);
                }
            } else {
                assert forall|v: int, x: i32|
                    0 <= v < old(domains)@.len() && variables@.contains(v as usize) implies ((
                #[trigger] domains@[v]@.values.contains(x)) <==> (old(domains)@[v]@.values.contains(
                    x,
                ) && self.pre_keeps(variables@, old(domains)@.len() as nat, v as usize, x))) by {
                    assert(domains@[v]@ == old(domains)@[v]@);
                }
            }
        }
        r
    }
}

/// Pruning soundness for the all-equal constraint mid-loop: every removed
/// value differs from the fixed value, so it conflicts with the variable that
/// fixed it.
proof fn lemma_alleq_prune_sound(
    c: &AllEqualConstraint,
    vars: Seq<usize>,
    asg: Seq<Option<i32>>,
    doms0: Seq<Domain>,
    doms1: Seq<Domain>,
    f: i32,
    dstart: Seq<Domain>,
    prefix: Seq<usize>,
    vcur: usize,
    hidden: Seq<i32>,
    dpre: crate::domain::DomainModel,
)
    requires
        doms1.len() == doms0.len(),
        dstart.len() == doms0.len(),
        doms0.len() <= usize::MAX,
        asg.len() == doms0.len(),
        vars_in_range(vars, asg.len() as nat),
        exists|k: int| 0 <= k < vars.len() && (#[trigger] asg[vars[k] as int]) == Some(f),
        vcur < doms0.len(),
        dpre == dstart[vcur as int]@,
        forall|z: i32| #[trigger] hidden.contains(z) <==> (dpre.values.contains(z) && z != f),
        forall|x: i32|
            #![trigger doms1[vcur as int]@.values.contains(x)]
            doms1[vcur as int]@.values.contains(x) <==> (dpre.values.contains(x)
                && !hidden.contains(x)),
        forall|u: int| 0 <= u < doms0.len() && u != vcur ==> (#[trigger] doms1[u])@ == dstart[u]@,
        forall|v: int, x: i32|
            0 <= v < doms0.len() && prefix.contains(v as usize) && asg[v] is None ==> ((
            #[trigger] dstart[v]@.values.contains(x)) <==> (doms0[v]@.values.contains(x) && x
                == f)),
        forall|v: int|
            0 <= v < doms0.len() && !prefix.contains(v as usize) ==> (#[trigger] dstart[v])@
                == doms0[v]@,
    ensures
        forall|v: int, x: i32|
            0 <= v < doms0.len() && vars.contains(v as usize) && asg[v] is None
                && doms0[v]@.values.contains(x) && !(#[trigger] doms1[v]@.values.contains(x))
                ==> !c.satisfied(vars, asg.update(v, Some(x))),
{
    assert forall|v: int, x: i32|
        0 <= v < doms0.len() && vars.contains(v as usize) && asg[v] is None
            && doms0[v]@.values.contains(x) && !(#[trigger] doms1[v]@.values.contains(x)) implies !c.satisfied(
        vars,
        asg.update(v, Some(x)),
    ) by {
        assert(x != f) by {
            if x == f {
                if v == vcur as int {
                    if dpre.values.contains(x) {
                        assert(!hidden.contains(x));
                    } else {
                        assert(prefix.contains(v as usize));
                    }
                } else {
                    assert(doms1[v]@ == dstart[v]@);
                    assert(prefix.contains(v as usize));
                }
            }
        }
        lemma_alleq_conflict(c, vars, asg, v, x, f);
    }
}

/// Assigning a value different from an already-fixed value violates the
/// all-equal constraint.
proof fn lemma_alleq_conflict(
    c: &AllEqualConstraint,
    vars: Seq<usize>,
    asg: Seq<Option<i32>>,
    v: int,
    x: i32,
    f: i32,
)
    requires
        0 <= v <= usize::MAX,
        v < asg.len(),
        vars_in_range(vars, asg.len() as nat),
        vars.contains(v as usize),
        asg[v] is None,
        x != f,
        exists|k: int| 0 <= k < vars.len() && (#[trigger] asg[vars[k] as int]) == Some(f),
    ensures
        !c.satisfied(vars, asg.update(v, Some(x))),
{
    let k = choose|k: int| 0 <= k < vars.len() && (#[trigger] asg[vars[k] as int]) == Some(f);
    let i = choose|i: int| 0 <= i < vars.len() && vars[i] == v as usize;
    assert(vars[i] == v);
    let asg1 = asg.update(v, Some(x));
    assert(vars[k] != v) by {
        assert(asg[vars[k] as int] is Some);
    }
    assert(asg1[vars[k] as int] == Some(f));
    assert(asg1[vars[i] as int] == Some(x));
    assert(!c.satisfied(vars, asg1)) by {
        assert(asg1[vars[k] as int] is Some && asg1[vars[i] as int] is Some
            && asg1[vars[k] as int]->Some_0 != asg1[vars[i] as int]->Some_0);
    }
}

/// The final state of all-equal forward checking: exact pruning and
/// soundness over the whole variable list.
proof fn lemma_alleq_final(
    c: &AllEqualConstraint,
    vars: Seq<usize>,
    asg: Seq<Option<i32>>,
    doms0: Seq<Domain>,
    doms1: Seq<Domain>,
    f: i32,
)
    requires
        doms1.len() == doms0.len(),
        doms0.len() <= usize::MAX,
        asg.len() == doms0.len(),
        vars_in_range(vars, asg.len() as nat),
        exists|k: int| 0 <= k < vars.len() && (#[trigger] asg[vars[k] as int]) == Some(f),
        forall|k: int|
            0 <= k < vars.len() && (#[trigger] asg[vars[k] as int]) is Some ==> asg[vars[k] as int]->Some_0 == f,
        forall|v: int, x: i32|
            0 <= v < doms0.len() && vars.contains(v as usize) && asg[v] is None ==> ((
            #[trigger] doms1[v]@.values.contains(x)) <==> (doms0[v]@.values.contains(x) && x
                == f)),
    ensures
        forall|v: int, x: i32|
            0 <= v < doms0.len() && vars.contains(v as usize) && asg[v] is None
                && doms0[v]@.values.contains(x) && !(#[trigger] doms1[v]@.values.contains(x))
                ==> !c.satisfied(vars, asg.update(v, Some(x))),
        forall|v: int, x: i32|
            0 <= v < doms0.len() && vars.contains(v as usize) && asg[v] is None ==> ((
            #[trigger] doms1[v]@.values.contains(x)) <==> (doms0[v]@.values.contains(x)
                && !c.must_prune(vars, asg, v, x))),
{
    assert forall|v: int, x: i32|
        0 <= v < doms0.len() && vars.contains(v as usize) && asg[v] is None
            && doms0[v]@.values.contains(x) && !(#[trigger] doms1[v]@.values.contains(x)) implies !c.satisfied(
        vars,
        asg.update(v, Some(x)),
    ) by {
        assert(x != f);
        lemma_alleq_conflict(c, vars, asg, v, x, f);
    }
    assert forall|v: int, x: i32|
        0 <= v < doms0.len() && vars.contains(v as usize) && asg[v] is None implies ((
    #[trigger] doms1[v]@.values.contains(x)) <==> (doms0[v]@.values.contains(x)
        && !c.must_prune(vars, asg, v, x))) by {
        let k = choose|k: int| 0 <= k < vars.len() && (#[trigger] asg[vars[k] as int]) == Some(f);
        if x == f {
            assert(!c.must_prune(vars, asg, v, x)) by {
                if exists|j: int|
                    0 <= j < vars.len() && (#[trigger] asg[vars[j] as int]) is Some
                        && asg[vars[j] as int]->Some_0 != x {
                    let j = choose|j: int|
                        0 <= j < vars.len() && (#[trigger] asg[vars[j] as int]) is Some
                            && asg[vars[j] as int]->Some_0 != x;
                    assert(false);
                }
            }
        } else {
            assert(c.must_prune(vars, asg, v, x)) by {
                assert(asg[vars[k] as int] is Some && asg[vars[k] as int]->Some_0 != x);
            }
        }
    }
}

/// Removes for good, from the domain of every variable in `variables`,
/// each value whose membership in `set` differs from `keep_inside`.  The
/// one-time narrowing step shared by the set-membership constraints.
fn restrict_domains(
    variables: &Vec<usize>,
    domains: &mut Vec<Domain>,
    set: &Vec<i32>,
    keep_inside: bool,
)
    requires
        vars_in_range(variables@, old(domains)@.len() as nat),
        doms_wf(old(domains)@),
        forall|j: int|
            0 <= j < old(domains)@.len() ==> (#[trigger] old(domains)@[j])@.states.len() == 0,
    ensures
        final(domains)@.len() == old(domains)@.len(),
        doms_wf(final(domains)@),
        forall|v: int|
            0 <= v < old(domains)@.len() && !variables@.contains(v as usize) ==> (#[trigger] final(domains)@[v])@ == old(domains)@[v]@,
        forall|v: int|
            0 <= v < old(domains)@.len() ==> (#[trigger] final(domains)@[v])@.hidden == old(domains)@[v]@.hidden && final(domains)@[v]@.states == old(domains)@[v]@.states,
        forall|v: int, x: i32|
            0 <= v < old(domains)@.len() && variables@.contains(v as usize) ==> ((#[trigger] final(domains)@[v]@.values.contains(x)) <==> (old(domains)@[v]@.values.contains(x) && (set@.contains(x) == keep_inside))),
        forall|v: int, x: i32|
            0 <= v < old(domains)@.len() && (#[trigger] final(domains)@[v]@.values.contains(x))
                ==> old(domains)@[v]@.values.contains(x),
{
    let ghost doms0 = domains@;
    let nd = domains.len();
    proof {
        assert(doms0.len() <= usize::MAX);
    }
    let mut j: usize = 0;
    while j < variables.len()
        invariant
            j <= variables@.len(),
            doms0 == old(domains)@,
            doms0.len() <= usize::MAX,
            vars_in_range(variables@, doms0.len() as nat),
            doms_wf(doms0),
            domains@.len() == doms0.len(),
            doms_wf(domains@),
            forall|v: int|
                0 <= v < doms0.len() ==> (#[trigger] domains@[v])@.hidden == doms0[v]@.hidden
                    && domains@[v]@.states == doms0[v]@.states,
            forall|j2: int|
                0 <= j2 < doms0.len() ==> (#[trigger] doms0[j2])@.states.len() == 0,
            forall|v: int, x: i32|
                0 <= v < doms0.len() && variables@.subrange(0, j as int).contains(v as usize)
                    ==> ((#[trigger] domains@[v]@.values.contains(x)) <==> (
                doms0[v]@.values.contains(x) && (set@.contains(x) == keep_inside))),
            forall|v: int|
                0 <= v < doms0.len() && !variables@.subrange(0, j as int).contains(v as usize)
                    ==> (#[trigger] domains@[v])@ == doms0[v]@,
        decreases variables@.len() - j,
    {
        let ghost prefix = variables@.subrange(0, j as int);
        let ghost dstart = domains@;
        let v = variables[j];
        proof {
            assert(variables@.subrange(0, j + 1 as int) =~= prefix.push(v));
            crate::domain::lemma_push_contains(prefix, v);
            assert(variables@.contains(v)) by {
                assert(variables@[j as int] == v);
            }
        }
        let ghost dpre = domains@[v as int]@;
        // Collect the values whose membership state is wrong.
        let mut to_remove: Vec<i32> = Vec::new();
        let mut t: usize = 0;
        let m = domains[v].values.len();
        while t < m
            invariant
                t <= m,
                v < domains@.len(),
                m == domains@[v as int]@.values.len(),
                domains@[v as int]@ == dpre,
                forall|z: i32| #[trigger] to_remove@.contains(z) <==> (dpre.values.subrange(
                    0,
                    t as int,
                ).contains(z) && (set@.contains(z) != keep_inside)),
            decreases m - t,
        {
            let ghost hpre = to_remove@;
            let ghost vprefix = dpre.values.subrange(0, t as int);
            let y = {
                let d = &domains[v];
                d.values[t]
            };
            let member = contains_val(set, y);
            proof {
                assert(dpre.values.subrange(0, t + 1 as int) =~= vprefix.push(y));
                crate::domain::lemma_push_contains(vprefix, y);
            }
            if member != keep_inside {
                to_remove.push(y);
                proof {
                    crate::domain::lemma_push_contains(hpre, y);
                    assert(to_remove@ =~= hpre.push(y));
                }
            }
            proof {
                let sub1 = dpre.values.subrange(0, t + 1 as int);
                assert forall|z: i32| #[trigger] to_remove@.contains(z) implies (sub1.contains(z)
                    && (set@.contains(z) != keep_inside)) by {
                    if hpre.contains(z) {
                        assert(vprefix.contains(z));
                    } else {
                        assert(z == y);
                    }
                }
                assert forall|z: i32|
                    sub1.contains(z) && (set@.contains(z) != keep_inside) implies (
                #[trigger] to_remove@.contains(z)) by {
                    if vprefix.contains(z) {
                        assert(hpre.contains(z));
                    } else {
                        assert(z == y);
                    }
                }
            }
            t += 1;
        }
        proof {
            assert(dpre.values.subrange(0, m as int) =~= dpre.values);
        }
        domains[v].remove_values(&to_remove);
        proof {
            assert(doms_wf(domains@)) by {
                assert forall|j2: int| 0 <= j2 < domains@.len() implies (
                #[trigger] domains@[j2])@.wf() by {
                    if j2 != v as int {
                        assert(domains@[j2]@.wf());
                    }
                }
            }
            assert forall|u: int, x: i32|
                0 <= u < doms0.len() && variables@.subrange(0, j + 1 as int).contains(u as usize)
                implies ((#[trigger] domains@[u]@.values.contains(x)) <==> (
            doms0[u]@.values.contains(x) && (set@.contains(x) == keep_inside))) by {
                if u == v as int {
                    if prefix.contains(u as usize) {
                        assert(dpre.values.contains(x) <==> (doms0[u]@.values.contains(x) && (
                        set@.contains(x) == keep_inside)));
                    } else {
                        assert(dpre == doms0[u]@);
                    }
                } else {
                    assert(domains@[u]@ == dstart[u]@);
                    assert(prefix.contains(u as usize));
                }
            }
            assert forall|u: int|
                0 <= u < doms0.len() && !variables@.subrange(0, j + 1 as int).contains(u as usize)
                implies (#[trigger] domains@[u])@ == doms0[u]@ by {
                assert(u != v as int);
                assert(domains@[u]@ == dstart[u]@);
            }
        }
        j += 1;
    }
    proof {
        assert(variables@.subrange(0, variables@.len() as int) =~= variables@);
    }
}

/// Restricts every variable it spans to values inside a fixed set.  Fully
/// resolved by preprocessing; evaluating it at search time is an engine
/// error.
#[derive(Debug)]
pub struct InSetConstraint {
    /// The allowed values.
    pub set: Vec<i32>,
}

impl InSetConstraint {
    /// Creates the constraint from the allowed values.
    pub fn new(set: Vec<i32>) -> (c: InSetConstraint)
        ensures
            c.set@ == set@,
    {
        InSetConstraint { set }
    }
}

impl Constraint for InSetConstraint {
    open spec fn valid(&self, vars: Seq<usize>) -> bool {
        true
    }

    open spec fn satisfied(&self, vars: Seq<usize>, asg: Seq<Option<i32>>) -> bool {
        forall|i: int|
            0 <= i < vars.len() && (#[trigger] asg[vars[i] as int]) is Some
                ==> self.set@.contains(asg[vars[i] as int]->Some_0)
    }

    /// Evaluating at search time is always the engine error.
    open spec fn call_result(
        &self,
        vars: Seq<usize>,
        asg: Seq<Option<i32>>,
        doms1: Seq<Domain>,
        forward_check: bool,
        r: Result<bool, ConstraintError>,
    ) -> bool {
        r is Err
    }

    open spec fn decisive(&self) -> bool {
        true
    }

    open spec fn infallible(&self) -> bool {
        false
    }

    open spec fn preprocess_only(&self) -> bool {
        true
    }

    open spec fn must_prune(&self, vars: Seq<usize>, asg: Seq<Option<i32>>, i: int, x: i32) -> bool {
        false
    }

    open spec fn pre_keeps(&self, vars: Seq<usize>, n: nat, v: usize, x: i32) -> bool {
        self.set@.contains(x)
    }

    open spec fn pre_removes(&self, vars: Seq<usize>) -> bool {
        true
    }

    fn call(
        &self,
        variables: &Vec<usize>,
        domains: &mut Vec<Domain>,
        assignments: &mut Vec<Option<i32>>,
        forward_check: bool,
    ) -> (r: Result<bool, ConstraintError>) {
        let e = ConstraintError::new(
            "in-set constraint evaluated at search time; preprocessing should have removed it",
        );
        proof {
            lemma_frame_refl(variables@, old(domains)@, old(assignments)@, forward_check);
            assert(self.call_result(
                variables@,
                old(assignments)@,
                domains@,
                forward_check,
                Err::<bool, ConstraintError>(e),
            ));
        }
        Err(e)
    }

    fn pre_process(&self, variables: &Vec<usize>, domains: &mut Vec<Domain>) -> (remove: bool) {
        restrict_domains(variables, domains, &self.set, true);
        true
    }
}

/// Forbids, for every variable it spans, the values of a fixed set.  Fully
/// resolved by preprocessing; evaluating it at search time is an engine
/// error.
#[derive(Debug)]
pub struct NotInSetConstraint {
    /// The forbidden values.
    pub set: Vec<i32>,
}

impl NotInSetConstraint {
    /// Creates the constraint from the forbidden values.
    pub fn new(set: Vec<i32>) -> (c: NotInSetConstraint)
        ensures
            c.set@ == set@,
    {
        NotInSetConstraint { set }
    }
}

impl Constraint for NotInSetConstraint {
    open spec fn valid(&self, vars: Seq<usize>) -> bool {
        true
    }

    open spec fn satisfied(&self, vars: Seq<usize>, asg: Seq<Option<i32>>) -> bool {
        forall|i: int|
            0 <= i < vars.len() && (#[trigger] asg[vars[i] as int]) is Some
                ==> !self.set@.contains(asg[vars[i] as int]->Some_0)
    }

    /// Evaluating at search time is always the engine error.
    open spec fn call_result(
        &self,
        vars: Seq<usize>,
        asg: Seq<Option<i32>>,
        doms1: Seq<Domain>,
        forward_check: bool,
        r: Result<bool, ConstraintError>,
    ) -> bool {
        r is Err
    }

    open spec fn decisive(&self) -> bool {
        true
    }

    open spec fn infallible(&self) -> bool {
        false
    }

    open spec fn preprocess_only(&self) -> bool {
        true
    }

    open spec fn must_prune(&self, vars: Seq<usize>, asg: Seq<Option<i32>>, i: int, x: i32) -> bool {
        false
    }

    open spec fn pre_keeps(&self, vars: Seq<usize>, n: nat, v: usize, x: i32) -> bool {
        !self.set@.contains(x)
    }

    open spec fn pre_removes(&self, vars: Seq<usize>) -> bool {
        true
    }

    fn call(
        &self,
        variables: &Vec<usize>,
        domains: &mut Vec<Domain>,
        assignments: &mut Vec<Option<i32>>,
        forward_check: bool,
    ) -> (r: Result<bool, ConstraintError>) {
        let e = ConstraintError::new(
            "not-in-set constraint evaluated at search time; preprocessing should have removed it",
        );
        proof {
            lemma_frame_refl(variables@, old(domains)@, old(assignments)@, forward_check);
            assert(self.call_result(
                variables@,
                old(assignments)@,
                domains@,
                forward_check,
                Err::<bool, ConstraintError>(e),
            ));
        }
        Err(e)
    }

    fn pre_process(&self, variables: &Vec<usize>, domains: &mut Vec<Domain>) -> (remove: bool) {
        restrict_domains(variables, domains, &self.set, false);
        true
    }
}

/// The sequence view of an optional multiplier vector.
pub open spec fn mult_view(m: Option<Vec<i32>>) -> Option<Seq<i32>> {
    match m {
        Some(v) => Some(v@),
        None => None,
    }
}

/// The multiplier applied to the variable at position `i`: the listed
/// multiplier, or one when no multipliers were given.
pub open spec fn weight(m: Option<Seq<i32>>, i: int) -> int {
    match m {
        Some(ms) => ms[i] as int,
        None => 1,
    }
}

/// The multiplier-weighted sum of the values assigned to the variables of
/// `vars`, counting positions from `i` on; unassigned variables contribute
/// nothing.
pub open spec fn assigned_sum_from(
    vars: Seq<usize>,
    asg: Seq<Option<i32>>,
    m: Option<Seq<i32>>,
    i: int,
) -> int
    decreases vars.len() - i,
{
    if i < 0 || i >= vars.len() {
        0
    } else {
        (if asg[vars[i] as int] is Some {
            asg[vars[i] as int]->Some_0 * weight(m, i)
        } else {
            0
        }) + assigned_sum_from(vars, asg, m, i + 1)
    }
}

/// The multiplier-weighted sum of all assigned values of `vars`.
pub open spec fn assigned_sum(vars: Seq<usize>, asg: Seq<Option<i32>>, m: Option<Seq<i32>>) -> int {
    assigned_sum_from(vars, asg, m, 0)
}

/// The product of two values in the 32-bit range stays within `SUM_TERM_BOUND`.
proof fn lemma_term_bound(a: int, b: int)
    requires
        -0x8000_0000 <= a <= 0x7fff_ffff,
        -0x8000_0000 <= b <= 0x7fff_ffff,
    ensures
        -0x4000_0000_0000_0000 <= a * b <= 0x4000_0000_0000_0000,
{
    assert(-0x4000_0000_0000_0000 <= a * b <= 0x4000_0000_0000_0000) by (nonlinear_arith)
        requires
            -0x8000_0000 <= a <= 0x7fff_ffff,
            -0x8000_0000 <= b <= 0x7fff_ffff,
    ;
}

/// Assigning `x` to the unassigned variable `v`, which appears exactly once
/// in the duplicate-free list `vars` (at position `i`), raises the weighted
/// sum by exactly `x` times the weight at `i`.
proof fn lemma_sum_update_at(
    vars: Seq<usize>,
    asg: Seq<Option<i32>>,
    m: Option<Seq<i32>>,
    v: usize,
    x: i32,
    i: int,
    k: int,
)
    requires
        vars.no_duplicates(),
        0 <= i < vars.len(),
        vars[i] == v,
        v < asg.len(),
        asg[v as int] is None,
        vars_in_range(vars, asg.len() as nat),
        0 <= k,
    ensures
        assigned_sum_from(vars, asg.update(v as int, Some(x)), m, k) == assigned_sum_from(
            vars,
            asg,
            m,
            k,
        ) + (if k <= i {
            x * weight(m, i)
        } else {
            0
        }),
    decreases vars.len() - k,
{
    if k >= vars.len() {
    } else {
        lemma_sum_update_at(vars, asg, m, v, x, i, k + 1);
        if k == i {
            assert(asg.update(v as int, Some(x))[vars[k] as int] == Some(x));
        } else {
            assert(vars[k] != vars[i]);
            assert(asg.update(v as int, Some(x))[vars[k] as int] == asg[vars[k] as int]);
        }
    }
}

/// Computes the weighted sum of the assigned values of `variables` and the
/// number of unassigned variables among them.
fn weighted_sum(
    variables: &Vec<usize>,
    assignments: &Vec<Option<i32>>,
    multipliers: &Option<Vec<i32>>,
) -> (out: (i128, usize))
    requires
        vars_in_range(variables@, assignments@.len() as nat),
        multipliers matches Some(ms) ==> ms@.len() == variables@.len(),
    ensures
        out.0 == assigned_sum(variables@, assignments@, mult_view(*multipliers)),
        -(variables@.len() * 0x4000_0000_0000_0000) <= out.0 <= variables@.len()
            * 0x4000_0000_0000_0000,
        out.1 == count_unassigned(variables@, assignments@),
{
    let ghost m = mult_view(*multipliers);
    let ghost vars = variables@;
    let ghost asg = assignments@;
    let mut sum: i128 = 0;
    let mut missing: usize = 0;
    let mut i: usize = 0;
    proof {
        lemma_count_unassigned_split(vars, asg, 0);
    }
    while i < variables.len()
        invariant
            i <= vars.len(),
            vars == variables@,
            asg == assignments@,
            m == mult_view(*multipliers),
            vars_in_range(vars, asg.len() as nat),
            multipliers matches Some(ms) ==> ms@.len() == vars.len(),
            sum + assigned_sum_from(vars, asg, m, i as int) == assigned_sum(vars, asg, m),
            -((i as int) * 0x4000_0000_0000_0000) <= sum <= (i as int)
                * 0x4000_0000_0000_0000,
            missing <= i,
            missing + count_unassigned_from(vars, asg, i as int) == count_unassigned(vars, asg),
        decreases vars.len() - i,
    {
        proof {
            lemma_count_unassigned_split(vars, asg, i as int);
            lemma_count_unassigned_split(vars, asg, i + 1);
        }
        let v = variables[i];
        let w: i32 = match multipliers {
            Some(ms) => ms[i],
            None => 1,
        };
        proof {
            assert(w as int == weight(m, i as int));
        }
        let a = assignments[v];
        match a {
            Some(x) => {
                proof {
                    lemma_term_bound(x as int, w as int);
                }
                sum = sum + (x as i128) * (w as i128);
            },
            None => {
                missing = missing + 1;
            },
        }
        i += 1;
    }
    proof {
        lemma_count_unassigned_split(vars, asg, vars.len() as int);
    }
    (sum, missing)
}

/// Hides, from the domain of each unassigned variable among `variables`,
/// every value whose weighted contribution on top of `sum` exceeds `bound`.
/// Returns whether some such domain was left empty.
fn prune_sums(
    variables: &Vec<usize>,
    domains: &mut Vec<Domain>,
    assignments: &Vec<Option<i32>>,
    multipliers: &Option<Vec<i32>>,
    bound: i32,
    sum: i128,
) -> (emptied: bool)
    requires
        vars_in_range(variables@, old(domains)@.len() as nat),
        assignments@.len() == old(domains)@.len(),
        doms_wf(old(domains)@),
        multipliers matches Some(ms) ==> ms@.len() == variables@.len(),
        sum == assigned_sum(variables@, assignments@, mult_view(*multipliers)),
        -(variables@.len() * 0x4000_0000_0000_0000) <= sum <= variables@.len()
            * 0x4000_0000_0000_0000,
    ensures
        final(domains)@.len() == old(domains)@.len(),
        doms_wf(final(domains)@),
        forall|v: int|
            0 <= v < old(domains)@.len() && !(variables@.contains(v as usize) && assignments@[v]
                is None) ==> (#[trigger] final(domains)@[v])@ == old(domains)@[v]@,
        forall|v: int|
            0 <= v < old(domains)@.len() && variables@.contains(v as usize) && assignments@[v]
                is None ==> (#[trigger] final(domains)@[v])@.hides_from(old(domains)@[v]@),
        forall|v: int, x: i32|
            0 <= v < old(domains)@.len() && variables@.contains(v as usize) && assignments@[v]
                is None ==> ((#[trigger] final(domains)@[v]@.values.contains(x)) <==> (old(
                domains,
            )@[v]@.values.contains(x) && !exists|k: int|
                0 <= k < variables@.len() && variables@[k] == v && assigned_sum(
                    variables@,
                    assignments@,
                    mult_view(*multipliers),
                ) + x * weight(mult_view(*multipliers), k) > bound as int)),
        emptied <==> some_open_domain_empty(variables@, assignments@, final(domains)@),
{
    let ghost doms0 = domains@;
    let ghost asg = assignments@;
    let ghost vars = variables@;
    let ghost m = mult_view(*multipliers);
    let nd = domains.len();
    let nv = variables.len();
    proof {
        assert(doms0.len() <= usize::MAX);
        assert(vars.len() <= usize::MAX);
    }
    proof {
        assert forall|v: int|
            0 <= v < doms0.len() && vars.contains(v as usize) && asg[v] is None implies (
        #[trigger] domains@[v])@.hides_from(doms0[v]@) by {
            lemma_hides_from_refl(doms0[v]@);
        }
    }
    let mut emptied = false;
    let mut j: usize = 0;
    while j < variables.len()
        invariant
            j <= vars.len(),
            doms0 == old(domains)@,
            doms0.len() <= usize::MAX,
            vars == variables@,
            asg == assignments@,
            m == mult_view(*multipliers),
            vars_in_range(vars, doms0.len() as nat),
            asg.len() == doms0.len(),
            doms_wf(doms0),
            multipliers matches Some(ms) ==> ms@.len() == vars.len(),
            sum == assigned_sum(vars, asg, m),
            -(vars.len() * 0x4000_0000_0000_0000) <= sum <= vars.len()
                * 0x4000_0000_0000_0000,
            vars.len() <= 0xffff_ffff_ffff_ffffu64,
            domains@.len() == doms0.len(),
            doms_wf(domains@),
            forall|v: int|
                0 <= v < doms0.len() && !(vars.contains(v as usize) && asg[v] is None) ==> (
                #[trigger] domains@[v])@ == doms0[v]@,
            forall|v: int|
                0 <= v < doms0.len() && vars.contains(v as usize) && asg[v] is None ==> (
                #[trigger] domains@[v])@.hides_from(doms0[v]@),
            forall|v: int, x: i32|
                0 <= v < doms0.len() && vars.contains(v as usize) && asg[v] is None ==> ((
                #[trigger] domains@[v]@.values.contains(x)) <==> (doms0[v]@.values.contains(x)
                    && !exists|k: int|
                    0 <= k < j && vars[k] == v && sum + x * weight(m, k) > bound as int)),
            emptied ==> exists|v: int|
                0 <= v < doms0.len() && vars.contains(v as usize) && asg[v] is None && (
                #[trigger] domains@[v])@.values.len() == 0,
            !emptied ==> forall|v: int|
                0 <= v < doms0.len() && vars.subrange(0, j as int).contains(v as usize) && asg[v]
                    is None ==> (#[trigger] domains@[v])@.values.len() > 0,
        decreases vars.len() - j,
    {
        let ghost dall = domains@;
        let ghost prefix2 = vars.subrange(0, j as int);
        let v = variables[j];
        proof {
            assert(vars.contains(v)) by {
                assert(vars[j as int] == v);
            }
            assert(vars.subrange(0, j + 1 as int) =~= prefix2.push(v));
            crate::domain::lemma_push_contains(prefix2, v);
        }
        let a = assignments[v];
        if a.is_none() {
            let ghost dpre = domains@[v as int]@;
            let w: i32 = match multipliers {
                Some(ms) => ms[j],
                None => 1,
            };
            proof {
                assert(w as int == weight(m, j as int));
            }
            // Collect the values whose contribution overshoots the bound.
            let mut to_hide: Vec<i32> = Vec::new();
            let mut t: usize = 0;
            let m2 = domains[v].values.len();
            while t < m2
                invariant
                    t <= m2,
                    v < domains@.len(),
                    m2 == domains@[v as int]@.values.len(),
                    domains@[v as int]@ == dpre,
                    dpre.wf(),
                    to_hide@.no_duplicates(),
                    w as int == weight(m, j as int),
                    -(vars.len() * 0x4000_0000_0000_0000) <= sum <= vars.len()
                        * 0x4000_0000_0000_0000,
                    vars.len() <= 0xffff_ffff_ffff_ffffu64,
                    forall|z: i32| #[trigger] to_hide@.contains(z) <==> (dpre.values.subrange(
                        0,
                        t as int,
                    ).contains(z) && sum + z * (w as int) > bound as int),
                decreases m2 - t,
            {
                let ghost hpre = to_hide@;
                let ghost vprefix = dpre.values.subrange(0, t as int);
                let y = {
                    let d = &domains[v];
                    d.values[t]
                };
                proof {
                    assert(dpre.values.subrange(0, t + 1 as int) =~= vprefix.push(y));
                    crate::domain::lemma_push_contains(vprefix, y);
                    lemma_term_bound(y as int, w as int);
                }
                let over = sum + (y as i128) * (w as i128) > bound as i128;
                if over {
                    proof {
                        assert(!vprefix.contains(y)) by {
                            if vprefix.contains(y) {
                                let k2 = choose|k2: int|
                                    0 <= k2 < vprefix.len() && vprefix[k2] == y;
                                assert(dpre.values[k2] == dpre.values[t as int]);
                            }
                        }
                        assert(!hpre.contains(y));
                        crate::domain::lemma_push_nodup(hpre, y);
                    }
                    to_hide.push(y);
                    proof {
                        crate::domain::lemma_push_contains(hpre, y);
                        assert(to_hide@ =~= hpre.push(y));
                    }
                }
                proof {
                    let sub1 = dpre.values.subrange(0, t + 1 as int);
                    assert forall|z: i32| #[trigger] to_hide@.contains(z) implies (sub1.contains(
                        z,
                    ) && sum + z * (w as int) > bound as int) by {
                        if hpre.contains(z) {
                            assert(vprefix.contains(z));
                        } else {
                            assert(z == y);
                        }
                    }
                    assert forall|z: i32|
                        sub1.contains(z) && sum + z * (w as int) > bound as int implies (
                    #[trigger] to_hide@.contains(z)) by {
                        if vprefix.contains(z) {
                            assert(hpre.contains(z));
                        } else {
                            assert(z == y);
                        }
                    }
                }
                t += 1;
            }
            proof {
                assert(dpre.values.subrange(0, m2 as int) =~= dpre.values);
                assert forall|k2: int|
                    0 <= k2 < to_hide@.len() implies dpre.values.contains(
                    #[trigger] to_hide@[k2],
                ) by {
                    assert(to_hide@.contains(to_hide@[k2]));
                }
            }
            domains[v].hide_values(&to_hide);
            proof {
                lemma_hides_from_trans(domains@[v as int]@, dpre, doms0[v as int]@);
                assert(doms_wf(domains@)) by {
                    assert forall|j2: int| 0 <= j2 < domains@.len() implies (
                    #[trigger] domains@[j2])@.wf() by {
                        if j2 != v as int {
                            assert(domains@[j2]@.wf());
                        }
                    }
                }
            }
            let empty_now = domains[v].values.len() == 0;
            if empty_now {
                emptied = true;
            }
            proof {
                assert forall|u: int, x: i32|
                    0 <= u < doms0.len() && vars.contains(u as usize) && asg[u] is None implies ((
                #[trigger] domains@[u]@.values.contains(x)) <==> (doms0[u]@.values.contains(x)
                    && !exists|k: int|
                    0 <= k < j + 1 && vars[k] == u && sum + x * weight(m, k) > bound as int)) by {
                    if u == v as int {
                        assert(domains@[u]@.values.contains(x) <==> (dpre.values.contains(x)
                            && !to_hide@.contains(x)));
                        assert(to_hide@.contains(x) <==> (dpre.values.contains(x) && sum + x * (
                        w as int) > bound as int));
                        assert(dpre.values.contains(x) <==> (doms0[u]@.values.contains(x)
                            && !exists|k: int|
                            0 <= k < j && vars[k] == u && sum + x * weight(m, k) > bound as int));
                        if domains@[u]@.values.contains(x) {
                            assert(!exists|k: int|
                                0 <= k < j + 1 && vars[k] == u && sum + x * weight(m, k)
                                    > bound as int) by {
                                if exists|k: int|
                                    0 <= k < j + 1 && vars[k] == u && sum + x * weight(m, k)
                                        > bound as int {
                                    let k = choose|k: int|
                                        0 <= k < j + 1 && vars[k] == u && sum + x * weight(m, k)
                                            > bound as int;
                                    if k < j {
                                        assert(exists|k2: int|
                                            0 <= k2 < j && vars[k2] == u && sum + x * weight(
                                                m,
                                                k2,
                                            ) > bound as int);
                                    } else {
                                        assert(k == j);
                                        assert(sum + x * (w as int) > bound as int);
                                        assert(to_hide@.contains(x));
                                    }
                                }
                            }
                        } else {
                            if doms0[u]@.values.contains(x) {
                                if dpre.values.contains(x) {
                                    assert(to_hide@.contains(x));
                                    assert(vars[j as int] == u && sum + x * weight(m, j as int)
                                        > bound as int);
                                    assert(exists|k: int|
                                        0 <= k < j + 1 && vars[k] == u && sum + x * weight(m, k)
                                            > bound as int);
                                } else {
                                    let k = choose|k: int|
                                        0 <= k < j && vars[k] == u && sum + x * weight(m, k)
                                            > bound as int;
                                    assert(exists|k2: int|
                                        0 <= k2 < j + 1 && vars[k2] == u && sum + x * weight(
                                            m,
                                            k2,
                                        ) > bound as int);
                                }
                            }
                        }
                    } else {
                        assert(domains@[u]@ == dall[u]@);
                        assert(dall[u]@.values.contains(x) <==> (doms0[u]@.values.contains(x)
                            && !exists|k: int|
                            0 <= k < j && vars[k] == u && sum + x * weight(m, k) > bound as int));
                        assert forall|k: int|
                            0 <= k < j + 1 && vars[k] == u implies k < j by {
                            if k == j {
                                assert(vars[j as int] == v as usize);
                            }
                        }
                        if exists|k: int|
                            0 <= k < j + 1 && vars[k] == u && sum + x * weight(m, k)
                                > bound as int {
                            let k = choose|k: int|
                                0 <= k < j + 1 && vars[k] == u && sum + x * weight(m, k)
                                    > bound as int;
                            assert(exists|k2: int|
                                0 <= k2 < j && vars[k2] == u && sum + x * weight(m, k2)
                                    > bound as int);
                        }
                        if exists|k: int|
                            0 <= k < j && vars[k] == u && sum + x * weight(m, k) > bound as int {
                            let k = choose|k: int|
                                0 <= k < j && vars[k] == u && sum + x * weight(m, k)
                                    > bound as int;
                            assert(exists|k2: int|
                                0 <= k2 < j + 1 && vars[k2] == u && sum + x * weight(m, k2)
                                    > bound as int);
                        }
                    }
                }
                if emptied {
                    assert(exists|u: int|
                        0 <= u < doms0.len() && vars.contains(u as usize) && asg[u] is None && (
                        #[trigger] domains@[u])@.values.len() == 0) by {
                        if empty_now {
                            assert(0 <= (v as int) && (v as int) < doms0.len() && vars.contains(v)
                                && asg[v as int] is None && domains@[v as int]@.values.len() == 0);
                        } else {
                            let u0 = choose|u0: int|
                                0 <= u0 < doms0.len() && vars.contains(u0 as usize) && asg[u0]
                                    is None && (#[trigger] dall[u0])@.values.len() == 0;
                            if u0 == v as int {
                                lemma_empty_stays_empty(dpre, domains@[v as int]@, to_hide@);
                                assert(domains@[u0]@.values.len() == 0);
                            } else {
                                assert(domains@[u0]@ == dall[u0]@);
                            }
                        }
                    }
                } else {
                    assert forall|u: int|
                        0 <= u < doms0.len() && vars.subrange(0, j + 1 as int).contains(u as usize)
                            && asg[u] is None implies (#[trigger] domains@[u])@.values.len()
                        > 0 by {
                        if u == v as int {
                        } else {
                            assert(domains@[u]@ == dall[u]@);
                            if !prefix2.contains(u as usize) {
                                assert(u == v as int);
                            }
                        }
                    }
                }
            }
        } else {
            proof {
                assert forall|u: int, x: i32|
                    0 <= u < doms0.len() && vars.contains(u as usize) && asg[u] is None implies ((
                #[trigger] domains@[u]@.values.contains(x)) <==> (doms0[u]@.values.contains(x)
                    && !exists|k: int|
                    0 <= k < j + 1 && vars[k] == u && sum + x * weight(m, k) > bound as int)) by {
                    assert forall|k: int| 0 <= k < j + 1 && vars[k] == u implies k < j by {
                        if k == j {
                            assert(asg[vars[j as int] as int] is Some);
                        }
                    }
                    if exists|k: int|
                        0 <= k < j + 1 && vars[k] == u && sum + x * weight(m, k) > bound as int {
                        let k = choose|k: int|
                            0 <= k < j + 1 && vars[k] == u && sum + x * weight(m, k)
                                > bound as int;
                        assert(exists|k2: int|
                            0 <= k2 < j && vars[k2] == u && sum + x * weight(m, k2)
                                > bound as int);
                    }
                    if exists|k: int|
                        0 <= k < j && vars[k] == u && sum + x * weight(m, k) > bound as int {
                        let k = choose|k: int|
                            0 <= k < j && vars[k] == u && sum + x * weight(m, k) > bound as int;
                        assert(exists|k2: int|
                            0 <= k2 < j + 1 && vars[k2] == u && sum + x * weight(m, k2)
                                > bound as int);
                    }
                }
                if !emptied {
                    assert forall|u: int|
                        0 <= u < doms0.len() && vars.subrange(0, j + 1 as int).contains(u as usize)
                            && asg[u] is None implies (#[trigger] domains@[u])@.values.len()
                        > 0 by {
                        if !prefix2.contains(u as usize) {
                            assert(u == v as int);
                        }
                    }
                }
            }
        }
        j += 1;
    }
    proof {
        assert(vars.subrange(0, vars.len() as int) =~= vars);
        if !emptied {
            assert(!some_open_domain_empty(vars, asg, domains@)) by {
                if some_open_domain_empty(vars, asg, domains@) {
                    let v = choose|v: int|
                        0 <= v < domains@.len() && vars.contains(v as usize) && asg[v] is None && (
                        #[trigger] domains@[v])@.values.len() == 0;
                    assert(vars.subrange(0, vars.len() as int).contains(v as usize));
                }
            }
        }
    }
    emptied
}

/// Hiding values from an empty domain leaves it empty.
proof fn lemma_empty_stays_empty(
    pre: crate::domain::DomainModel,
    post: crate::domain::DomainModel,
    hidden: Seq<i32>,
)
    requires
        pre.wf(),
        post.wf(),
        pre.values.len() == 0,
        forall|k: int| 0 <= k < hidden.len() ==> pre.values.contains(#[trigger] hidden[k]),
        post.values.len() + post.hidden.len() == pre.values.len() + pre.hidden.len(),
        post.hidden.len() == pre.hidden.len() + hidden.len(),
    ensures
        post.values.len() == 0,
{
    assert(hidden.len() == 0) by {
        if hidden.len() > 0 {
            assert(pre.values.contains(hidden[0]));
        }
    }
}

/// Bounds the weighted sum of assigned values from above: the sum must stay
/// at or below `max_value`.  Forward checking hides from unassigned
/// variables every value whose own weighted contribution would push the
/// running sum over the bound.
#[derive(Debug)]
pub struct MaxSumConstraint {
    /// The inclusive upper bound on the weighted sum.
    pub max_value: i32,
    /// Optional per-position multipliers; one per variable when present.
    pub multipliers: Option<Vec<i32>>,
}

impl MaxSumConstraint {
    /// Creates the constraint.
    pub fn new(max_value: i32, multipliers: Option<Vec<i32>>) -> (c: MaxSumConstraint)
        ensures
            c.max_value == max_value,
            c.multipliers == multipliers,
    {
        MaxSumConstraint { max_value, multipliers }
    }
}

impl Constraint for MaxSumConstraint {
    open spec fn valid(&self, vars: Seq<usize>) -> bool {
        &&& (self.multipliers matches Some(ms) ==> ms@.len() == vars.len())
        &&& vars.no_duplicates()
    }

    open spec fn satisfied(&self, vars: Seq<usize>, asg: Seq<Option<i32>>) -> bool {
        assigned_sum(vars, asg, mult_view(self.multipliers)) <= self.max_value as int
    }

    open spec fn decisive(&self) -> bool {
        true
    }

    open spec fn infallible(&self) -> bool {
        true
    }

    open spec fn preprocess_only(&self) -> bool {
        false
    }

    open spec fn must_prune(&self, vars: Seq<usize>, asg: Seq<Option<i32>>, v: int, x: i32) -> bool {
        exists|k: int|
            0 <= k < vars.len() && vars[k] == v && assigned_sum(
                vars,
                asg,
                mult_view(self.multipliers),
            ) + x * weight(mult_view(self.multipliers), k) > self.max_value as int
    }

    /// The verdict is the running-sum test alone: an emptied domain does
    /// not flip it.
    open spec fn call_result(
        &self,
        vars: Seq<usize>,
        asg: Seq<Option<i32>>,
        doms1: Seq<Domain>,
        forward_check: bool,
        r: Result<bool, ConstraintError>,
    ) -> bool {
        r == Ok::<bool, ConstraintError>(self.satisfied(vars, asg))
    }

    open spec fn pre_keeps(&self, vars: Seq<usize>, n: nat, v: usize, x: i32) -> bool {
        &&& (vars.len() != 1 || self.satisfied(vars, single_asg(n, vars[0], x)))
        &&& forall|i: int|
            0 <= i < vars.len() && vars[i] == v ==> x * weight(mult_view(self.multipliers), i)
                <= self.max_value as int
    }

    open spec fn pre_removes(&self, vars: Seq<usize>) -> bool {
        vars.len() == 1
    }

    fn call(
        &self,
        variables: &Vec<usize>,
        domains: &mut Vec<Domain>,
        assignments: &mut Vec<Option<i32>>,
        forward_check: bool,
    ) -> (r: Result<bool, ConstraintError>) {
        let ghost doms0 = domains@;
        let ghost asg0 = assignments@;
        let ghost m = mult_view(self.multipliers);
        let nd = domains.len();
        proof {
            assert(doms0.len() <= usize::MAX);
        }
        let (sum, missing) = weighted_sum(variables, assignments, &self.multipliers);
        proof {
            assert(!self.preprocess_only() && self.decisive() && self.infallible());
        }
        if sum > self.max_value as i128 {
            proof {
                lemma_frame_refl(variables@, doms0, asg0, forward_check);
                assert(self.call_result(
                    variables@,
                    asg0,
                    domains@,
                    forward_check,
                    Ok::<bool, ConstraintError>(false),
                ));
            }
            return Ok(false);
        }
        if forward_check {
            let _ = prune_sums(
                variables,
                domains,
                assignments,
                &self.multipliers,
                self.max_value,
                sum,
            );
            proof {
                assert forall|v: int, x: i32|
                    0 <= v < doms0.len() && variables@.contains(v as usize) && asg0[v] is None
                        && doms0[v]@.values.contains(x) && !(#[trigger] domains@[v]@.values.contains(
                        x,
                    )) implies !self.satisfied(variables@, asg0.update(v, Some(x))) by {
                    let k = choose|k: int|
                        0 <= k < variables@.len() && variables@[k] == v && assigned_sum(
                            variables@,
                            asg0,
                            m,
                        ) + x * weight(m, k) > self.max_value as int;
                    lemma_sum_update_at(variables@, asg0, m, v as usize, x, k, 0);
                }
                assert forall|v: int, x: i32|
                    0 <= v < doms0.len() && variables@.contains(v as usize) && asg0[v]
                        is None implies ((#[trigger] domains@[v]@.values.contains(x)) <==> (
                doms0[v]@.values.contains(x) && !self.must_prune(variables@, asg0, v, x))) by {
                    assert(self.must_prune(variables@, asg0, v, x) == (exists|k: int|
                        0 <= k < variables@.len() && variables@[k] == v && assigned_sum(
                            variables@,
                            asg0,
                            m,
                        ) + x * weight(m, k) > self.max_value as int));
                }
            }
        } else {
            proof {
                lemma_frame_refl(variables@, doms0, asg0, forward_check);
            }
        }
        proof {
            assert(self.call_result(
                variables@,
                asg0,
                domains@,
                forward_check,
                Ok::<bool, ConstraintError>(true),
            ));
        }
        Ok(true)
    }

    fn pre_process(&self, variables: &Vec<usize>, domains: &mut Vec<Domain>) -> (remove: bool) {
        let nd = domains.len();
        proof {
            assert(old(domains)@.len() <= usize::MAX);
        }
        let r = self.default_pre_process(variables, domains);
        let ghost dmid = domains@;
        narrow_by_weight(variables, domains, &self.multipliers, self.max_value);
        proof {
            let doms0 = old(domains)@;
            let vars = variables@;
            let m = mult_view(self.multipliers);
            let bound = self.max_value;
            assert forall|v: int|
                0 <= v < doms0.len() && !vars.contains(v as usize) implies (#[trigger] domains@[v])@
                == doms0[v]@ by {
                assert(dmid[v]@ == doms0[v]@) by {
                    if vars.len() == 1 {
                        assert(v != vars[0]);
                    }
                }
            }
            assert forall|v: int, x: i32|
                0 <= v < doms0.len() && (#[trigger] domains@[v]@.values.contains(x)) implies doms0[v]@.values.contains(
                x,
            ) by {
                assert(dmid[v]@.values.contains(x));
            }
            assert forall|v: int, x: i32|
                0 <= v < doms0.len() && vars.contains(v as usize) implies ((
            #[trigger] domains@[v]@.values.contains(x)) <==> (doms0[v]@.values.contains(x)
                && self.pre_keeps(vars, doms0.len() as nat, v as usize, x))) by {
                assert(domains@[v]@.values.contains(x) <==> (dmid[v]@.values.contains(x)
                    && !exists|k: int|
                    0 <= k < vars.len() && vars[k] == v && x * weight(m, k) > bound as int));
                if vars.len() == 1 {
                    assert(dmid[v]@.values.contains(x) <==> (doms0[v]@.values.contains(x)
                        && self.satisfied(vars, single_asg(doms0.len() as nat, vars[0], x)))) by {
                        let k0 = choose|k0: int| 0 <= k0 < vars.len() && vars[k0] == v as usize;
                        assert(vars[0] == v as usize);
                        assert(v == vars[0] as int);
                    }
                } else {
                    assert(dmid[v]@ == doms0[v]@);
                }
                if exists|k: int|
                    0 <= k < vars.len() && vars[k] == v && x * weight(m, k) > bound as int {
                    let k = choose|k: int|
                        0 <= k < vars.len() && vars[k] == v && x * weight(m, k) > bound as int;
                    assert(vars[k] == v as usize);
                    assert(!self.pre_keeps(vars, doms0.len() as nat, v as usize, x));
                } else {
                    assert forall|k: int|
                        0 <= k < vars.len() && vars[k] == v as usize implies x * weight(m, k)
                        <= bound as int by {
                        assert(vars[k] == v);
                        if x * weight(m, k) > bound as int {
                            assert(exists|k2: int|
                                0 <= k2 < vars.len() && vars[k2] == v && x * weight(m, k2)
                                    > bound as int);
                        }
                    }
                }
            }
        }
        r
    }
}

/// Requires the weighted sum of all values to hit a target exactly: while
/// variables remain unassigned the running sum must stay at or below the
/// target, and once every variable is assigned the sum must equal it.
/// Forward checking prunes like the maximum-sum constraint and additionally
/// reports a violation when pruning empties a domain.
#[derive(Debug)]
pub struct ExactSumConstraint {
    /// The exact value the complete weighted sum must reach.
    pub exact_value: i32,
    /// Optional per-position multipliers; one per variable when present.
    pub multipliers: Option<Vec<i32>>,
}

impl ExactSumConstraint {
    /// Creates the constraint.
    pub fn new(exact_value: i32, multipliers: Option<Vec<i32>>) -> (c: ExactSumConstraint)
        ensures
            c.exact_value == exact_value,
            c.multipliers == multipliers,
    {
        ExactSumConstraint { exact_value, multipliers }
    }
}

impl Constraint for ExactSumConstraint {
    open spec fn valid(&self, vars: Seq<usize>) -> bool {
        &&& (self.multipliers matches Some(ms) ==> ms@.len() == vars.len())
        &&& vars.no_duplicates()
    }

    open spec fn satisfied(&self, vars: Seq<usize>, asg: Seq<Option<i32>>) -> bool {
        if all_assigned(vars, asg) {
            assigned_sum(vars, asg, mult_view(self.multipliers)) == self.exact_value as int
        } else {
            assigned_sum(vars, asg, mult_view(self.multipliers)) <= self.exact_value as int
        }
    }

    open spec fn decisive(&self) -> bool {
        true
    }

    open spec fn infallible(&self) -> bool {
        true
    }

    open spec fn preprocess_only(&self) -> bool {
        false
    }

    open spec fn must_prune(&self, vars: Seq<usize>, asg: Seq<Option<i32>>, v: int, x: i32) -> bool {
        exists|k: int|
            0 <= k < vars.len() && vars[k] == v && assigned_sum(
                vars,
                asg,
                mult_view(self.multipliers),
            ) + x * weight(mult_view(self.multipliers), k) > self.exact_value as int
    }

    /// True exactly when the sum rule holds and forward checking leaves no
    /// listed open domain empty.
    open spec fn call_result(
        &self,
        vars: Seq<usize>,
        asg: Seq<Option<i32>>,
        doms1: Seq<Domain>,
        forward_check: bool,
        r: Result<bool, ConstraintError>,
    ) -> bool {
        r == Ok::<bool, ConstraintError>(self.satisfied(vars, asg) && !(forward_check
            && some_open_domain_empty(vars, asg, doms1)))
    }

    open spec fn pre_keeps(&self, vars: Seq<usize>, n: nat, v: usize, x: i32) -> bool {
        &&& (vars.len() != 1 || self.satisfied(vars, single_asg(n, vars[0], x)))
        &&& forall|i: int|
            0 <= i < vars.len() && vars[i] == v ==> x * weight(mult_view(self.multipliers), i)
                <= self.exact_value as int
    }

    open spec fn pre_removes(&self, vars: Seq<usize>) -> bool {
        vars.len() == 1
    }

    fn call(
        &self,
        variables: &Vec<usize>,
        domains: &mut Vec<Domain>,
        assignments: &mut Vec<Option<i32>>,
        forward_check: bool,
    ) -> (r: Result<bool, ConstraintError>) {
        let ghost doms0 = domains@;
        let ghost asg0 = assignments@;
        let ghost m = mult_view(self.multipliers);
        let nd = domains.len();
        proof {
            assert(doms0.len() <= usize::MAX);
        }
        let (sum, missing) = weighted_sum(variables, assignments, &self.multipliers);
        proof {
            assert(!self.preprocess_only() && self.decisive() && self.infallible());
            lemma_count_unassigned_split(variables@, asg0, 0);
            lemma_count_unassigned_split(variables@, asg0, variables@.len() as int);
            assert((missing == 0) <==> all_assigned(variables@, asg0)) by {
                if missing == 0 {
                    assert forall|i: int|
                        0 <= i < variables@.len() implies (#[trigger] asg0[variables@[i] as int])
                        is Some by {}
                } else {
                    assert(count_unassigned(variables@, asg0) != 0);
                }
            }
        }
        if sum > self.exact_value as i128 {
            proof {
                lemma_frame_refl(variables@, doms0, asg0, forward_check);
                assert(self.call_result(
                    variables@,
                    asg0,
                    domains@,
                    forward_check,
                    Ok::<bool, ConstraintError>(false),
                ));
            }
            return Ok(false);
        }
        let mut emptied = false;
        let ghost mut pruned_here = false;
        if forward_check && missing > 0 {
            proof {
                pruned_here = true;
            }
            emptied = prune_sums(
                variables,
                domains,
                assignments,
                &self.multipliers,
                self.exact_value,
                sum,
            );
            proof {
                assert forall|v: int, x: i32|
                    0 <= v < doms0.len() && variables@.contains(v as usize) && asg0[v] is None
                        && doms0[v]@.values.contains(x) && !(#[trigger] domains@[v]@.values.contains(
                        x,
                    )) implies !self.satisfied(variables@, asg0.update(v, Some(x))) by {
                    let k = choose|k: int|
                        0 <= k < variables@.len() && variables@[k] == v && assigned_sum(
                            variables@,
                            asg0,
                            m,
                        ) + x * weight(m, k) > self.exact_value as int;
                    lemma_sum_update_at(variables@, asg0, m, v as usize, x, k, 0);
                }
                assert forall|v: int, x: i32|
                    0 <= v < doms0.len() && variables@.contains(v as usize) && asg0[v]
                        is None implies ((#[trigger] domains@[v]@.values.contains(x)) <==> (
                doms0[v]@.values.contains(x) && !self.must_prune(variables@, asg0, v, x))) by {
                    assert(self.must_prune(variables@, asg0, v, x) == (exists|k: int|
                        0 <= k < variables@.len() && variables@[k] == v && assigned_sum(
                            variables@,
                            asg0,
                            m,
                        ) + x * weight(m, k) > self.exact_value as int));
                }
            }
        } else {
            proof {
                lemma_frame_refl(variables@, doms0, asg0, forward_check);
            }
        }
        if emptied {
            proof {
                assert(self.call_result(
                    variables@,
                    asg0,
                    domains@,
                    forward_check,
                    Ok::<bool, ConstraintError>(false),
                ));
            }
            return Ok(false);
        }
        proof {
            assert(!(forward_check && some_open_domain_empty(variables@, asg0, domains@))) by {
                if forward_check && some_open_domain_empty(variables@, asg0, domains@) {
                    if missing > 0 {
                        assert(pruned_here);
                    } else {
                        let v = choose|v: int|
                            0 <= v < domains@.len() && variables@.contains(v as usize) && asg0[v]
                                is None && (#[trigger] domains@[v])@.values.len() == 0;
                        let k = choose|k: int|
                            0 <= k < variables@.len() && variables@[k] == v as usize;
                        assert(asg0[variables@[k] as int] is Some);
                    }
                }
            }
        }
        if missing > 0 {
            proof {
                assert(self.call_result(
                    variables@,
                    asg0,
                    domains@,
                    forward_check,
                    Ok::<bool, ConstraintError>(true),
                ));
            }
            return Ok(true);
        }
        let verdict = sum == self.exact_value as i128;
        proof {
            assert(verdict == self.satisfied(variables@, asg0));
            assert(self.call_result(
                variables@,
                asg0,
                domains@,
                forward_check,
                Ok::<bool, ConstraintError>(verdict),
            ));
        }
        Ok(verdict)
    }

    fn pre_process(&self, variables: &Vec<usize>, domains: &mut Vec<Domain>) -> (remove: bool) {
        let nd = domains.len();
        proof {
            assert(old(domains)@.len() <= usize::MAX);
        }
        let r = self.default_pre_process(variables, domains);
        let ghost dmid = domains@;
        narrow_by_weight(variables, domains, &self.multipliers, self.exact_value);
        proof {
            let doms0 = old(domains)@;
            let vars = variables@;
            let m = mult_view(self.multipliers);
            let bound = self.exact_value;
            assert forall|v: int|
                0 <= v < doms0.len() && !vars.contains(v as usize) implies (#[trigger] domains@[v])@
                == doms0[v]@ by {
                assert(dmid[v]@ == doms0[v]@) by {
                    if vars.len() == 1 {
                        assert(v != vars[0]);
                    }
                }
            }
            assert forall|v: int, x: i32|
                0 <= v < doms0.len() && (#[trigger] domains@[v]@.values.contains(x)) implies doms0[v]@.values.contains(
                x,
            ) by {
                assert(dmid[v]@.values.contains(x));
            }
            assert forall|v: int, x: i32|
                0 <= v < doms0.len() && vars.contains(v as usize) implies ((
            #[trigger] domains@[v]@.values.contains(x)) <==> (doms0[v]@.values.contains(x)
                && self.pre_keeps(vars, doms0.len() as nat, v as usize, x))) by {
                assert(domains@[v]@.values.contains(x) <==> (dmid[v]@.values.contains(x)
                    && !exists|k: int|
                    0 <= k < vars.len() && vars[k] == v && x * weight(m, k) > bound as int));
                if vars.len() == 1 {
                    assert(dmid[v]@.values.contains(x) <==> (doms0[v]@.values.contains(x)
                        && self.satisfied(vars, single_asg(doms0.len() as nat, vars[0], x)))) by {
                        let k0 = choose|k0: int| 0 <= k0 < vars.len() && vars[k0] == v as usize;
                        assert(vars[0] == v as usize);
                        assert(v == vars[0] as int);
                    }
                } else {
                    assert(dmid[v]@ == doms0[v]@);
                }
                if exists|k: int|
                    0 <= k < vars.len() && vars[k] == v && x * weight(m, k) > bound as int {
                    let k = choose|k: int|
                        0 <= k < vars.len() && vars[k] == v && x * weight(m, k) > bound as int;
                    assert(vars[k] == v as usize);
                    assert(!self.pre_keeps(vars, doms0.len() as nat, v as usize, x));
                } else {
                    assert forall|k: int|
                        0 <= k < vars.len() && vars[k] == v as usize implies x * weight(m, k)
                        <= bound as int by {
                        assert(vars[k] == v);
                        if x * weight(m, k) > bound as int {
                            assert(exists|k2: int|
                                0 <= k2 < vars.len() && vars[k2] == v && x * weight(m, k2)
                                    > bound as int);
                        }
                    }
                }
            }
        }
        r
    }
}

/// Bounds the weighted sum from below, checked only once every variable is
/// assigned: a partial assignment never violates it, and it performs no
/// forward-check pruning.
#[derive(Debug)]
pub struct MinSumConstraint {
    /// The inclusive lower bound on the complete weighted sum.
    pub min_value: i32,
    /// Optional per-position multipliers; one per variable when present.
    pub multipliers: Option<Vec<i32>>,
}

impl MinSumConstraint {
    /// Creates the constraint.
    pub fn new(min_value: i32, multipliers: Option<Vec<i32>>) -> (c: MinSumConstraint)
        ensures
            c.min_value == min_value,
            c.multipliers == multipliers,
    {
        MinSumConstraint { min_value, multipliers }
    }
}

impl Constraint for MinSumConstraint {
    open spec fn valid(&self, vars: Seq<usize>) -> bool {
        self.multipliers matches Some(ms) ==> ms@.len() == vars.len()
    }

    open spec fn satisfied(&self, vars: Seq<usize>, asg: Seq<Option<i32>>) -> bool {
        all_assigned(vars, asg) ==> assigned_sum(vars, asg, mult_view(self.multipliers))
            >= self.min_value as int
    }

    /// The verdict is the completed-sum test alone; no pruning happens.
    open spec fn call_result(
        &self,
        vars: Seq<usize>,
        asg: Seq<Option<i32>>,
        doms1: Seq<Domain>,
        forward_check: bool,
        r: Result<bool, ConstraintError>,
    ) -> bool {
        r == Ok::<bool, ConstraintError>(self.satisfied(vars, asg))
    }

    open spec fn decisive(&self) -> bool {
        true
    }

    open spec fn infallible(&self) -> bool {
        true
    }

    open spec fn preprocess_only(&self) -> bool {
        false
    }

    open spec fn must_prune(&self, vars: Seq<usize>, asg: Seq<Option<i32>>, v: int, x: i32) -> bool {
        false
    }

    open spec fn pre_keeps(&self, vars: Seq<usize>, n: nat, v: usize, x: i32) -> bool {
        vars.len() != 1 || self.satisfied(vars, single_asg(n, vars[0], x))
    }

    open spec fn pre_removes(&self, vars: Seq<usize>) -> bool {
        vars.len() == 1
    }

    fn call(
        &self,
        variables: &Vec<usize>,
        domains: &mut Vec<Domain>,
        assignments: &mut Vec<Option<i32>>,
        forward_check: bool,
    ) -> (r: Result<bool, ConstraintError>) {
        let ghost doms0 = domains@;
        let ghost asg0 = assignments@;
        let (sum, missing) = weighted_sum(variables, assignments, &self.multipliers);
        proof {
            assert(!self.preprocess_only() && self.decisive() && self.infallible());
            lemma_frame_refl(variables@, doms0, asg0, forward_check);
            lemma_count_unassigned_split(variables@, asg0, 0);
            lemma_count_unassigned_split(variables@, asg0, variables@.len() as int);
            assert((missing == 0) <==> all_assigned(variables@, asg0)) by {
                if missing == 0 {
                    assert forall|i: int|
                        0 <= i < variables@.len() implies (#[trigger] asg0[variables@[i] as int])
                        is Some by {}
                } else {
                    assert(count_unassigned(variables@, asg0) != 0);
                }
            }
            assert forall|v: int, x: i32|
                0 <= v < doms0.len() && variables@.contains(v as usize) && asg0[v]
                    is None implies ((#[trigger] doms0[v]@.values.contains(x)) <==> (
            doms0[v]@.values.contains(x) && !self.must_prune(variables@, asg0, v, x))) by {}
        }
        if missing > 0 {
            proof {
                assert(self.call_result(
                    variables@,
                    asg0,
                    domains@,
                    forward_check,
                    Ok::<bool, ConstraintError>(true),
                ));
            }
            return Ok(true);
        }
        let verdict = sum >= self.min_value as i128;
        proof {
            assert(verdict == self.satisfied(variables@, asg0));
            assert(self.call_result(
                variables@,
                asg0,
                domains@,
                forward_check,
                Ok::<bool, ConstraintError>(verdict),
            ));
        }
        Ok(verdict)
    }

    fn pre_process(&self, variables: &Vec<usize>, domains: &mut Vec<Domain>) -> (remove: bool) {
        let nd = domains.len();
        proof {
            assert(old(domains)@.len() <= usize::MAX);
        }
        let r = self.default_pre_process(variables, domains);
        proof {
            if variables@.len() == 1 {
                assert forall|v: int, x: i32|
                    0 <= v < old(domains)@.len() && variables@.contains(v as usize) implies ((
                #[trigger] domains@[v]@.values.contains(x)) <==> (old(domains)@[v]@.values.contains(
                    x,
                ) && self.pre_keeps(variables@, old(domains)@.len() as nat, v as usize, x))) by {
                    let k = choose|k: int|
                        0 <= k < variables@.len() && variables@[k] == v as usize;
                    assert(variables@[0] == v as usize);
                    assert(v == variables@[0] as int);
                }
            } else {
                assert forall|v: int, x: i32|
                    0 <= v < old(domains)@.len() && variables@.contains(v as usize) implies ((
                #[trigger] domains@[v]@.values.contains(x)) <==> (old(domains)@[v]@.values.contains(
                    x,
                ) && self.pre_keeps(variables@, old(domains)@.len() as nat, v as usize, x))) by {
                    assert(domains@[v]@ == old(domains)@[v]@);
                }
            }
        }
        r
    }
}

/// The one-time narrowing shared by the bounded-sum constraints: removes
/// for good every value whose weighted contribution alone exceeds `bound`.
fn narrow_by_weight(
    variables: &Vec<usize>,
    domains: &mut Vec<Domain>,
    multipliers: &Option<Vec<i32>>,
    bound: i32,
)
    requires
        vars_in_range(variables@, old(domains)@.len() as nat),
        doms_wf(old(domains)@),
        multipliers matches Some(ms) ==> ms@.len() == variables@.len(),
        forall|j: int|
            0 <= j < old(domains)@.len() ==> (#[trigger] old(domains)@[j])@.states.len() == 0,
    ensures
        final(domains)@.len() == old(domains)@.len(),
        doms_wf(final(domains)@),
        forall|v: int|
            0 <= v < old(domains)@.len() && !variables@.contains(v as usize) ==> (#[trigger] final(domains)@[v])@ == old(domains)@[v]@,
        forall|v: int|
            0 <= v < old(domains)@.len() ==> (#[trigger] final(domains)@[v])@.hidden == old(domains)@[v]@.hidden && final(domains)@[v]@.states == old(domains)@[v]@.states,
        forall|v: int, x: i32|
            0 <= v < old(domains)@.len() ==> ((#[trigger] final(domains)@[v]@.values.contains(x))
                <==> (old(domains)@[v]@.values.contains(x) && !exists|k: int|
                0 <= k < variables@.len() && variables@[k] == v && x * weight(
                    mult_view(*multipliers),
                    k,
                ) > bound as int)),
{
    let ghost doms0 = domains@;
    let ghost vars = variables@;
    let ghost m = mult_view(*multipliers);
    let nd = domains.len();
    proof {
        assert(doms0.len() <= usize::MAX);
    }
    let ghost dmid = domains@;
    let mut j: usize = 0;
    while j < variables.len()
        invariant
            j <= vars.len(),
            doms0 == old(domains)@,
            doms0.len() <= usize::MAX,
            vars == variables@,
            m == mult_view(*multipliers),
            vars_in_range(vars, doms0.len() as nat),
            doms_wf(doms0),
            multipliers matches Some(ms) ==> ms@.len() == vars.len(),
            dmid.len() == doms0.len(),
            doms_wf(dmid),
            forall|v: int|
                0 <= v < doms0.len() ==> (#[trigger] dmid[v])@.hidden == doms0[v]@.hidden
                    && dmid[v]@.states == doms0[v]@.states,
            forall|j2: int| 0 <= j2 < doms0.len() ==> (#[trigger] doms0[j2])@.states.len() == 0,
            domains@.len() == doms0.len(),
            doms_wf(domains@),
            forall|v: int|
                0 <= v < doms0.len() ==> (#[trigger] domains@[v])@.hidden == dmid[v]@.hidden
                    && domains@[v]@.states == dmid[v]@.states,
            forall|v: int, x: i32|
                0 <= v < doms0.len() ==> ((#[trigger] domains@[v]@.values.contains(x)) <==> (
                dmid[v]@.values.contains(x) && !exists|k: int|
                    0 <= k < j && vars[k] == v && x * weight(m, k) > bound as int)),
            forall|v: int|
                0 <= v < doms0.len() && !vars.subrange(0, j as int).contains(v as usize) ==> (
                #[trigger] domains@[v])@ == dmid[v]@,
        decreases vars.len() - j,
    {
        let ghost dall = domains@;
        let ghost prefix = vars.subrange(0, j as int);
        let v = variables[j];
        proof {
            assert(vars.contains(v)) by {
                assert(vars[j as int] == v);
            }
            assert(vars.subrange(0, j + 1 as int) =~= prefix.push(v));
            crate::domain::lemma_push_contains(prefix, v);
        }
        let ghost dpre = domains@[v as int]@;
        let w: i32 = match multipliers {
            Some(ms) => ms[j],
            None => 1,
        };
        proof {
            assert(w as int == weight(m, j as int));
        }
        // Collect the values whose own contribution overshoots the bound.
        let mut to_remove: Vec<i32> = Vec::new();
        let mut t: usize = 0;
        let m2 = domains[v].values.len();
        while t < m2
            invariant
                t <= m2,
                v < domains@.len(),
                m2 == domains@[v as int]@.values.len(),
                domains@[v as int]@ == dpre,
                w as int == weight(m, j as int),
                forall|z: i32| #[trigger] to_remove@.contains(z) <==> (dpre.values.subrange(
                    0,
                    t as int,
                ).contains(z) && z * (w as int) > bound as int),
            decreases m2 - t,
        {
            let ghost hpre = to_remove@;
            let ghost vprefix = dpre.values.subrange(0, t as int);
            let y = {
                let d = &domains[v];
                d.values[t]
            };
            proof {
                assert(dpre.values.subrange(0, t + 1 as int) =~= vprefix.push(y));
                crate::domain::lemma_push_contains(vprefix, y);
                lemma_term_bound(y as int, w as int);
            }
            let over = (y as i128) * (w as i128) > bound as i128;
            if over {
                to_remove.push(y);
                proof {
                    crate::domain::lemma_push_contains(hpre, y);
                    assert(to_remove@ =~= hpre.push(y));
                }
            }
            proof {
                let sub1 = dpre.values.subrange(0, t + 1 as int);
                assert forall|z: i32| #[trigger] to_remove@.contains(z) implies (sub1.contains(z)
                    && z * (w as int) > bound as int) by {
                    if hpre.contains(z) {
                        assert(vprefix.contains(z));
                    } else {
                        assert(z == y);
                    }
                }
                assert forall|z: i32|
                    sub1.contains(z) && z * (w as int) > bound as int implies (
                #[trigger] to_remove@.contains(z)) by {
                    if vprefix.contains(z) {
                        assert(hpre.contains(z));
                    } else {
                        assert(z == y);
                    }
                }
            }
            t += 1;
        }
        proof {
            assert(dpre.values.subrange(0, m2 as int) =~= dpre.values);
            assert(domains@[v as int]@.states.len() == 0);
        }
        domains[v].remove_values(&to_remove);
        proof {
            assert(doms_wf(domains@)) by {
                assert forall|j2: int| 0 <= j2 < domains@.len() implies (
                #[trigger] domains@[j2])@.wf() by {
                    if j2 != v as int {
                        assert(domains@[j2]@.wf());
                    }
                }
            }
            assert forall|u: int, x: i32|
                0 <= u < doms0.len() implies ((#[trigger] domains@[u]@.values.contains(x)) <==> (
            dmid[u]@.values.contains(x) && !exists|k: int|
                0 <= k < j + 1 && vars[k] == u && x * weight(m, k) > bound as int)) by {
                if u == v as int {
                    assert(domains@[u]@.values.contains(x) <==> (dpre.values.contains(x)
                        && !to_remove@.contains(x)));
                    if domains@[u]@.values.contains(x) {
                        assert(!exists|k: int|
                            0 <= k < j + 1 && vars[k] == u && x * weight(m, k) > bound as int) by {
                            if exists|k: int|
                                0 <= k < j + 1 && vars[k] == u && x * weight(m, k)
                                    > bound as int {
                                let k = choose|k: int|
                                    0 <= k < j + 1 && vars[k] == u && x * weight(m, k)
                                        > bound as int;
                                if k < j {
                                    assert(exists|k2: int|
                                        0 <= k2 < j && vars[k2] == u && x * weight(m, k2)
                                            > bound as int);
                                } else {
                                    assert(to_remove@.contains(x));
                                }
                            }
                        }
                    } else {
                        if dmid[u]@.values.contains(x) {
                            if dpre.values.contains(x) {
                                assert(to_remove@.contains(x));
                                assert(vars[j as int] == u && x * weight(m, j as int)
                                    > bound as int);
                                assert(exists|k: int|
                                    0 <= k < j + 1 && vars[k] == u && x * weight(m, k)
                                        > bound as int);
                            } else {
                                let k = choose|k: int|
                                    0 <= k < j && vars[k] == u && x * weight(m, k) > bound as int;
                                assert(exists|k2: int|
                                    0 <= k2 < j + 1 && vars[k2] == u && x * weight(m, k2)
                                        > bound as int);
                            }
                        }
                    }
                } else {
                    assert(domains@[u]@ == dall[u]@);
                    if exists|k: int|
                        0 <= k < j + 1 && vars[k] == u && x * weight(m, k) > bound as int {
                        let k = choose|k: int|
                            0 <= k < j + 1 && vars[k] == u && x * weight(m, k) > bound as int;
                        assert(k < j) by {
                            if k == j {
                                assert(vars[j as int] == v as usize);
                            }
                        }
                        assert(exists|k2: int|
                            0 <= k2 < j && vars[k2] == u && x * weight(m, k2) > bound as int);
                    }
                    if exists|k: int|
                        0 <= k < j && vars[k] == u && x * weight(m, k) > bound as int {
                        let k = choose|k: int|
                            0 <= k < j && vars[k] == u && x * weight(m, k) > bound as int;
                        assert(exists|k2: int|
                            0 <= k2 < j + 1 && vars[k2] == u && x * weight(m, k2) > bound as int);
                    }
                }
            }
            assert forall|u: int|
                0 <= u < doms0.len() && !vars.subrange(0, j + 1 as int).contains(u as usize)
                implies (#[trigger] domains@[u])@ == dmid[u]@ by {
                assert(u != v as int);
                assert(domains@[u]@ == dall[u]@);
            }
        }
        j += 1;
    }
    proof {
        assert(vars.subrange(0, vars.len() as int) =~= vars);
        assert forall|v: int|
            0 <= v < doms0.len() && !vars.contains(v as usize) implies ((
        #[trigger] final(domains)@[v])@ == doms0[v]@) by {
            if vars.subrange(0, vars.len() as int).contains(v as usize) {
                let k = choose|k: int| 0 <= k < vars.len() && vars[k] == v as usize;
            }
        }
    }
}

/// The number of assigned variables among `vars`, counting positions from
/// `i` on, whose value's membership in `set` equals `inside`.
pub open spec fn count_found_from(
    vars: Seq<usize>,
    asg: Seq<Option<i32>>,
    set: Seq<i32>,
    inside: bool,
    i: int,
) -> int
    decreases vars.len() - i,
{
    if i < 0 || i >= vars.len() {
        0
    } else {
        (if asg[vars[i] as int] is Some && (set.contains(asg[vars[i] as int]->Some_0)
            == inside) {
            1int
        } else {
            0int
        }) + count_found_from(vars, asg, set, inside, i + 1)
    }
}

/// The number of assigned variables among `vars` whose value's membership in
/// `set` equals `inside`.
pub open spec fn count_found(
    vars: Seq<usize>,
    asg: Seq<Option<i32>>,
    set: Seq<i32>,
    inside: bool,
) -> int {
    count_found_from(vars, asg, set, inside, 0)
}

/// The counting rule shared by the some-in-set family: with variables still
/// unassigned the count must remain achievable, and once everything is
/// assigned the count must match `n` exactly (`exact`) or reach it.
pub open spec fn some_sat(
    set: Seq<i32>,
    n: i32,
    exact: bool,
    inside: bool,
    vars: Seq<usize>,
    asg: Seq<Option<i32>>,
) -> bool {
    let found = count_found(vars, asg, set, inside);
    let missing = count_unassigned(vars, asg);
    if missing > 0 {
        if exact {
            found <= n as int && n as int <= missing + found
        } else {
            n as int <= missing + found
        }
    } else {
        if exact {
            found == n as int
        } else {
            found >= n as int
        }
    }
}

/// Splits the found count at position `i`.
proof fn lemma_count_found_split(
    vars: Seq<usize>,
    asg: Seq<Option<i32>>,
    set: Seq<i32>,
    inside: bool,
    i: int,
)
    requires
        0 <= i <= vars.len(),
    ensures
        count_found_from(vars, asg, set, inside, i) >= 0,
        count_found_from(vars, asg, set, inside, i) + count_unassigned_from(vars, asg, i)
            <= vars.len() - i,
    decreases vars.len() - i,
{
    if i < vars.len() {
        lemma_count_found_split(vars, asg, set, inside, i + 1);
    }
}

/// The number of positions of `vars`, from `i` on, that name variable `v`.
pub open spec fn occ_from(vars: Seq<usize>, v: usize, i: int) -> int
    decreases vars.len() - i,
{
    if i < 0 || i >= vars.len() {
        0
    } else {
        (if vars[i] == v {
            1int
        } else {
            0int
        }) + occ_from(vars, v, i + 1)
    }
}

/// A listed variable occurs at least once, and occurrence counts are never
/// negative.
proof fn lemma_occ_bounds(vars: Seq<usize>, v: usize, i: int)
    requires
        0 <= i <= vars.len(),
    ensures
        occ_from(vars, v, i) >= 0,
        (exists|k: int| i <= k < vars.len() && vars[k] == v) ==> occ_from(vars, v, i) >= 1,
    decreases vars.len() - i,
{
    if i < vars.len() {
        lemma_occ_bounds(vars, v, i + 1);
        if exists|k: int| i <= k < vars.len() && vars[k] == v {
            let k = choose|k: int| i <= k < vars.len() && vars[k] == v;
            if k > i {
                assert(exists|k2: int| i + 1 <= k2 < vars.len() && vars[k2] == v);
            }
        }
    }
}

/// Assigning `x` to the unassigned variable `v` lowers the unassigned count
/// by the number of occurrences of `v` and raises the found count by the
/// same amount exactly when `x`'s membership matches.
proof fn lemma_counts_update(
    vars: Seq<usize>,
    asg: Seq<Option<i32>>,
    set: Seq<i32>,
    inside: bool,
    v: usize,
    x: i32,
    k: int,
)
    requires
        v < asg.len(),
        asg[v as int] is None,
        vars_in_range(vars, asg.len() as nat),
        0 <= k,
    ensures
        count_unassigned_from(vars, asg.update(v as int, Some(x)), k) == count_unassigned_from(
            vars,
            asg,
            k,
        ) - occ_from(vars, v, k),
        count_found_from(vars, asg.update(v as int, Some(x)), set, inside, k)
            == count_found_from(vars, asg, set, inside, k) + (if set.contains(x) == inside {
            occ_from(vars, v, k)
        } else {
            0int
        }),
    decreases vars.len() - k,
{
    if k < vars.len() {
        lemma_counts_update(vars, asg, set, inside, v, x, k + 1);
        if vars[k] == v {
            assert(asg.update(v as int, Some(x))[vars[k] as int] == Some(x));
        } else {
            assert(asg.update(v as int, Some(x))[vars[k] as int] == asg[vars[k] as int]);
        }
    }
}

/// Hides, from the domain of each unassigned variable among `variables`,
/// every value whose membership in `set` differs from `keep_inside`.  The
/// forced-pruning step shared by the some-in-set family.
fn prune_membership(
    variables: &Vec<usize>,
    domains: &mut Vec<Domain>,
    assignments: &Vec<Option<i32>>,
    set: &Vec<i32>,
    keep_inside: bool,
)
    requires
        vars_in_range(variables@, old(domains)@.len() as nat),
        assignments@.len() == old(domains)@.len(),
        doms_wf(old(domains)@),
    ensures
        final(domains)@.len() == old(domains)@.len(),
        doms_wf(final(domains)@),
        forall|v: int|
            0 <= v < old(domains)@.len() && !(variables@.contains(v as usize) && assignments@[v]
                is None) ==> (#[trigger] final(domains)@[v])@ == old(domains)@[v]@,
        forall|v: int|
            0 <= v < old(domains)@.len() && variables@.contains(v as usize) && assignments@[v]
                is None ==> (#[trigger] final(domains)@[v])@.hides_from(old(domains)@[v]@),
        forall|v: int, x: i32|
            0 <= v < old(domains)@.len() && variables@.contains(v as usize) && assignments@[v]
                is None ==> ((#[trigger] final(domains)@[v]@.values.contains(x)) <==> (old(
                domains,
            )@[v]@.values.contains(x) && (set@.contains(x) == keep_inside))),
{
    let ghost doms0 = domains@;
    let ghost asg = assignments@;
    let ghost vars = variables@;
    let nd = domains.len();
    proof {
        assert(doms0.len() <= usize::MAX);
    }
    proof {
        assert forall|v: int|
            0 <= v < doms0.len() && vars.contains(v as usize) && asg[v] is None implies (
        #[trigger] domains@[v])@.hides_from(doms0[v]@) by {
            lemma_hides_from_refl(doms0[v]@);
        }
    }
    let mut j: usize = 0;
    while j < variables.len()
        invariant
            j <= vars.len(),
            doms0 == old(domains)@,
            doms0.len() <= usize::MAX,
            vars == variables@,
            asg == assignments@,
            vars_in_range(vars, doms0.len() as nat),
            asg.len() == doms0.len(),
            doms_wf(doms0),
            domains@.len() == doms0.len(),
            doms_wf(domains@),
            forall|v: int|
                0 <= v < doms0.len() && !(vars.contains(v as usize) && asg[v] is None) ==> (
                #[trigger] domains@[v])@ == doms0[v]@,
            forall|v: int|
                0 <= v < doms0.len() && vars.contains(v as usize) && asg[v] is None ==> (
                #[trigger] domains@[v])@.hides_from(doms0[v]@),
            forall|v: int, x: i32|
                0 <= v < doms0.len() && vars.subrange(0, j as int).contains(v as usize) && asg[v]
                    is None ==> ((#[trigger] domains@[v]@.values.contains(x)) <==> (
                doms0[v]@.values.contains(x) && (set@.contains(x) == keep_inside))),
            forall|v: int|
                0 <= v < doms0.len() && !vars.subrange(0, j as int).contains(v as usize) ==> (
                #[trigger] domains@[v])@ == doms0[v]@,
        decreases vars.len() - j,
    {
        let ghost prefix = vars.subrange(0, j as int);
        let ghost dstart = domains@;
        let v = variables[j];
        proof {
            assert(vars.subrange(0, j + 1 as int) =~= prefix.push(v));
            crate::domain::lemma_push_contains(prefix, v);
            assert(vars.contains(v)) by {
                assert(vars[j as int] == v);
            }
        }
        let a = assignments[v];
        if a.is_none() {
            let ghost dpre = domains@[v as int]@;
            let mut to_hide: Vec<i32> = Vec::new();
            let mut t: usize = 0;
            let m2 = domains[v].values.len();
            while t < m2
                invariant
                    t <= m2,
                    v < domains@.len(),
                    m2 == domains@[v as int]@.values.len(),
                    domains@[v as int]@ == dpre,
                    dpre.wf(),
                    to_hide@.no_duplicates(),
                    forall|z: i32| #[trigger] to_hide@.contains(z) <==> (dpre.values.subrange(
                        0,
                        t as int,
                    ).contains(z) && (set@.contains(z) != keep_inside)),
                decreases m2 - t,
            {
                let ghost hpre = to_hide@;
                let ghost vprefix = dpre.values.subrange(0, t as int);
                let y = {
                    let d = &domains[v];
                    d.values[t]
                };
                let member = contains_val(set, y);
                proof {
                    assert(dpre.values.subrange(0, t + 1 as int) =~= vprefix.push(y));
                    crate::domain::lemma_push_contains(vprefix, y);
                }
                if member != keep_inside {
                    proof {
                        assert(!vprefix.contains(y)) by {
                            if vprefix.contains(y) {
                                let k2 = choose|k2: int|
                                    0 <= k2 < vprefix.len() && vprefix[k2] == y;
                                assert(dpre.values[k2] == dpre.values[t as int]);
                            }
                        }
                        assert(!hpre.contains(y));
                        crate::domain::lemma_push_nodup(hpre, y);
                    }
                    to_hide.push(y);
                    proof {
                        crate::domain::lemma_push_contains(hpre, y);
                        assert(to_hide@ =~= hpre.push(y));
                    }
                }
                proof {
                    let sub1 = dpre.values.subrange(0, t + 1 as int);
                    assert forall|z: i32| #[trigger] to_hide@.contains(z) implies (sub1.contains(
                        z,
                    ) && (set@.contains(z) != keep_inside)) by {
                        if hpre.contains(z) {
                            assert(vprefix.contains(z));
                        } else {
                            assert(z == y);
                        }
                    }
                    assert forall|z: i32|
                        sub1.contains(z) && (set@.contains(z) != keep_inside) implies (
                    #[trigger] to_hide@.contains(z)) by {
                        if vprefix.contains(z) {
                            assert(hpre.contains(z));
                        } else {
                            assert(z == y);
                        }
                    }
                }
                t += 1;
            }
            proof {
                assert(dpre.values.subrange(0, m2 as int) =~= dpre.values);
                assert forall|k2: int|
                    0 <= k2 < to_hide@.len() implies dpre.values.contains(
                    #[trigger] to_hide@[k2],
                ) by {
                    assert(to_hide@.contains(to_hide@[k2]));
                }
            }
            domains[v].hide_values(&to_hide);
            proof {
                lemma_hides_from_trans(domains@[v as int]@, dpre, doms0[v as int]@);
                assert(doms_wf(domains@)) by {
                    assert forall|j2: int| 0 <= j2 < domains@.len() implies (
                    #[trigger] domains@[j2])@.wf() by {
                        if j2 != v as int {
                            assert(domains@[j2]@.wf());
                        }
                    }
                }
                assert forall|u: int, x: i32|
                    0 <= u < doms0.len() && vars.subrange(0, j + 1 as int).contains(u as usize)
                        && asg[u] is None implies ((#[trigger] domains@[u]@.values.contains(x))
                    <==> (doms0[u]@.values.contains(x) && (set@.contains(x) == keep_inside))) by {
                    if u == v as int {
                        if prefix.contains(u as usize) {
                            assert(dpre.values.contains(x) <==> (doms0[u]@.values.contains(x) && (
                            set@.contains(x) == keep_inside)));
                        } else {
                            assert(dpre == doms0[u]@);
                        }
                    } else {
                        assert(domains@[u]@ == dstart[u]@);
                        assert(prefix.contains(u as usize));
                    }
                }
                assert forall|u: int|
                    0 <= u < doms0.len() && !vars.subrange(0, j + 1 as int).contains(u as usize)
                    implies (#[trigger] domains@[u])@ == doms0[u]@ by {
                    assert(u != v as int);
                    assert(domains@[u]@ == dstart[u]@);
                }
            }
        } else {
            proof {
                assert forall|u: int, x: i32|
                    0 <= u < doms0.len() && vars.subrange(0, j + 1 as int).contains(u as usize)
                        && asg[u] is None implies ((#[trigger] domains@[u]@.values.contains(x))
                    <==> (doms0[u]@.values.contains(x) && (set@.contains(x) == keep_inside))) by {
                    if !prefix.contains(u as usize) {
                        assert(u == v as int);
                    }
                }
                assert forall|u: int|
                    0 <= u < doms0.len() && !vars.subrange(0, j + 1 as int).contains(u as usize)
                    implies (#[trigger] domains@[u])@ == doms0[u]@ by {}
            }
        }
        j += 1;
    }
    proof {
        assert(vars.subrange(0, vars.len() as int) =~= vars);
    }
}

/// Requires the number of assigned values lying inside a fixed set to
/// satisfy a count: exactly `n` of them (`exact`), or at least `n` once
/// every variable is assigned, with achievability checked on partial
/// assignments.
#[derive(Debug)]
pub struct SomeInSetConstraint {
    /// The reference set of values.
    pub set: Vec<i32>,
    /// The required count of assigned values inside the set.
    pub n: i32,
    /// Whether the count must equal `n` exactly, or only reach it.
    pub exact: bool,
}

impl SomeInSetConstraint {
    /// Creates the constraint.
    pub fn new(set: Vec<i32>, n: i32, exact: bool) -> (c: SomeInSetConstraint)
        ensures
            c.set@ == set@,
            c.n == n,
            c.exact == exact,
    {
        SomeInSetConstraint { set, n, exact }
    }
}

impl Constraint for SomeInSetConstraint {
    open spec fn valid(&self, vars: Seq<usize>) -> bool {
        true
    }

    open spec fn satisfied(&self, vars: Seq<usize>, asg: Seq<Option<i32>>) -> bool {
        some_sat(self.set@, self.n, self.exact, true, vars, asg)
    }

    open spec fn decisive(&self) -> bool {
        true
    }

    open spec fn infallible(&self) -> bool {
        true
    }

    open spec fn preprocess_only(&self) -> bool {
        false
    }

    /// Once the open positions are exactly as many as the count still
    /// needed, every value in the wrong membership state must go.
    open spec fn must_prune(&self, vars: Seq<usize>, asg: Seq<Option<i32>>, v: int, x: i32) -> bool {
        &&& count_unassigned(vars, asg) > 0
        &&& self.n as int - count_found(vars, asg, self.set@, true) == count_unassigned(
            vars,
            asg,
        )
        &&& self.set@.contains(x) != true
    }

    /// The verdict is the counting rule alone; forced pruning never flips
    /// it.
    open spec fn call_result(
        &self,
        vars: Seq<usize>,
        asg: Seq<Option<i32>>,
        doms1: Seq<Domain>,
        forward_check: bool,
        r: Result<bool, ConstraintError>,
    ) -> bool {
        r == Ok::<bool, ConstraintError>(self.satisfied(vars, asg))
    }

    open spec fn pre_keeps(&self, vars: Seq<usize>, n: nat, v: usize, x: i32) -> bool {
        vars.len() != 1 || self.satisfied(vars, single_asg(n, vars[0], x))
    }

    open spec fn pre_removes(&self, vars: Seq<usize>) -> bool {
        vars.len() == 1
    }

    fn call(
        &self,
        variables: &Vec<usize>,
        domains: &mut Vec<Domain>,
        assignments: &mut Vec<Option<i32>>,
        forward_check: bool,
    ) -> (r: Result<bool, ConstraintError>) {
        let ghost doms0 = domains@;
        let ghost asg0 = assignments@;
        let ghost vars = variables@;
        let ghost st = self.set@;
        let nd = domains.len();
        proof {
            assert(doms0.len() <= usize::MAX);
            assert(!self.preprocess_only() && self.decisive() && self.infallible());
            lemma_count_unassigned_split(vars, asg0, 0);
            lemma_count_found_split(vars, asg0, st, true, 0);
        }
        let mut found: usize = 0;
        let mut missing: usize = 0;
        let mut i: usize = 0;
        while i < variables.len()
            invariant
                i <= vars.len(),
                doms0 == old(domains)@,
                asg0 == old(assignments)@,
                vars == variables@,
                st == self.set@,
                domains@ == doms0,
                assignments@ == asg0,
                vars_in_range(vars, doms0.len() as nat),
                asg0.len() == doms0.len(),
                found + count_found_from(vars, asg0, st, true, i as int) == count_found(
                    vars,
                    asg0,
                    st,
                    true,
                ),
                missing + count_unassigned_from(vars, asg0, i as int) == count_unassigned(
                    vars,
                    asg0,
                ),
                found + missing <= i,
            decreases vars.len() - i,
        {
            proof {
                lemma_count_unassigned_split(vars, asg0, i as int);
                lemma_count_unassigned_split(vars, asg0, i + 1);
                lemma_count_found_split(vars, asg0, st, true, i as int);
                lemma_count_found_split(vars, asg0, st, true, i + 1);
            }
            let v = variables[i];
            let a = assignments[v];
            match a {
                Some(xv) => {
                    let memb = contains_val(&self.set, xv);
                    if memb == true {
                        found += 1;
                    }
                },
                None => {
                    missing += 1;
                },
            }
            i += 1;
        }
        let ghost fnd = count_found(vars, asg0, st, true);
        let ghost mis = count_unassigned(vars, asg0);
        proof {
            lemma_count_unassigned_split(vars, asg0, vars.len() as int);
            lemma_count_found_split(vars, asg0, st, true, vars.len() as int);
            assert(found == fnd && missing == mis);
            assert((missing == 0) <==> all_assigned(vars, asg0)) by {
                lemma_count_unassigned_split(vars, asg0, 0);
                if missing == 0 {
                    assert forall|k: int|
                        0 <= k < vars.len() implies (#[trigger] asg0[vars[k] as int]) is Some by {}
                }
            }
        }
        let n = self.n;
        let exact = self.exact;
        if missing != 0 {
            let low_ok = n >= 0 && found <= (n as usize);
            let high_ok = if n <= 0 {
                true
            } else {
                (n as usize) <= missing + found
            };
            proof {
                assert(low_ok == (fnd <= n as int));
                assert(high_ok == (n as int <= mis + fnd));
            }
            let ok = if exact {
                low_ok && high_ok
            } else {
                high_ok
            };
            if !ok {
                proof {
                    lemma_frame_refl(vars, doms0, asg0, forward_check);
                    assert(!self.satisfied(vars, asg0));
                    assert(self.call_result(
                        vars,
                        asg0,
                        domains@,
                        forward_check,
                        Ok::<bool, ConstraintError>(false),
                    ));
                }
                return Ok(false);
            }
            proof {
                assert(self.satisfied(vars, asg0));
            }
            if forward_check {
                let forced = n >= 0 && (n as usize) >= found && (n as usize) - found == missing;
                proof {
                    assert(forced == (n as int - fnd == mis));
                }
                if forced {
                    prune_membership(variables, domains, assignments, &self.set, true);
                    proof {
                        assert forall|v: int, x: i32|
                            0 <= v < doms0.len() && vars.contains(v as usize) && asg0[v] is None
                                && doms0[v]@.values.contains(x) && !(
                            #[trigger] domains@[v]@.values.contains(x)) implies !self.satisfied(
                            vars,
                            asg0.update(v, Some(x)),
                        ) by {
                            assert(st.contains(x) != true);
                            lemma_some_conflict(
                                st,
                                n,
                                exact,
                                true,
                                vars,
                                asg0,
                                v as usize,
                                x,
                            );
                        }
                        assert forall|v: int, x: i32|
                            0 <= v < doms0.len() && vars.contains(v as usize) && asg0[v]
                                is None implies ((#[trigger] domains@[v]@.values.contains(x))
                            <==> (doms0[v]@.values.contains(x) && !self.must_prune(
                                vars,
                                asg0,
                                v,
                                x,
                            ))) by {}
                    }
                } else {
                    proof {
                        lemma_frame_refl(vars, doms0, asg0, forward_check);
                        assert forall|v: int, x: i32|
                            0 <= v < doms0.len() && vars.contains(v as usize) && asg0[v]
                                is None implies ((#[trigger] domains@[v]@.values.contains(x))
                            <==> (doms0[v]@.values.contains(x) && !self.must_prune(
                                vars,
                                asg0,
                                v,
                                x,
                            ))) by {}
                    }
                }
            } else {
                proof {
                    lemma_frame_refl(vars, doms0, asg0, forward_check);
                }
            }
            proof {
                assert(self.call_result(
                    vars,
                    asg0,
                    domains@,
                    forward_check,
                    Ok::<bool, ConstraintError>(true),
                ));
            }
            Ok(true)
        } else {
            proof {
                lemma_frame_refl(vars, doms0, asg0, forward_check);
            }
            let verdict = if exact {
                n >= 0 && found == (n as usize)
            } else {
                n <= 0 || found >= (n as usize)
            };
            proof {
                assert(verdict == self.satisfied(vars, asg0));
                assert(self.call_result(
                    vars,
                    asg0,
                    domains@,
                    forward_check,
                    Ok::<bool, ConstraintError>(verdict),
                ));
            }
            Ok(verdict)
        }
    }

    fn pre_process(&self, variables: &Vec<usize>, domains: &mut Vec<Domain>) -> (remove: bool) {
        let nd = domains.len();
        proof {
            assert(old(domains)@.len() <= usize::MAX);
        }
        let r = self.default_pre_process(variables, domains);
        proof {
            if variables@.len() == 1 {
                assert forall|v: int, x: i32|
                    0 <= v < old(domains)@.len() && variables@.contains(v as usize) implies ((
                #[trigger] domains@[v]@.values.contains(x)) <==> (old(domains)@[v]@.values.contains(
                    x,
                ) && self.pre_keeps(variables@, old(domains)@.len() as nat, v as usize, x))) by {
                    let k = choose|k: int|
                        0 <= k < variables@.len() && variables@[k] == v as usize;
                    assert(variables@[0] == v as usize);
                    assert(v == variables@[0] as int);
                }
            } else {
                assert forall|v: int, x: i32|
                    0 <= v < old(domains)@.len() && variables@.contains(v as usize) implies ((
                #[trigger] domains@[v]@.values.contains(x)) <==> (old(domains)@[v]@.values.contains(
                    x,
                ) && self.pre_keeps(variables@, old(domains)@.len() as nat, v as usize, x))) by {
                    assert(domains@[v]@ == old(domains)@[v]@);
                }
            }
        }
        r
    }
}

/// The mirror image of the some-in-set rule: counts the assigned values
/// lying outside the fixed set.
#[derive(Debug)]
pub struct SomeNotInSetConstraint {
    /// The reference set of values.
    pub set: Vec<i32>,
    /// The required count of assigned values outside the set.
    pub n: i32,
    /// Whether the count must equal `n` exactly, or only reach it.
    pub exact: bool,
}

impl SomeNotInSetConstraint {
    /// Creates the constraint.
    pub fn new(set: Vec<i32>, n: i32, exact: bool) -> (c: SomeNotInSetConstraint)
        ensures
            c.set@ == set@,
            c.n == n,
            c.exact == exact,
    {
        SomeNotInSetConstraint { set, n, exact }
    }
}

impl Constraint for SomeNotInSetConstraint {
    open spec fn valid(&self, vars: Seq<usize>) -> bool {
        true
    }

    open spec fn satisfied(&self, vars: Seq<usize>, asg: Seq<Option<i32>>) -> bool {
        some_sat(self.set@, self.n, self.exact, false, vars, asg)
    }

    open spec fn decisive(&self) -> bool {
        true
    }

    open spec fn infallible(&self) -> bool {
        true
    }

    open spec fn preprocess_only(&self) -> bool {
        false
    }

    /// Once the open positions are exactly as many as the count still
    /// needed, every value in the wrong membership state must go.
    open spec fn must_prune(&self, vars: Seq<usize>, asg: Seq<Option<i32>>, v: int, x: i32) -> bool {
        &&& count_unassigned(vars, asg) > 0
        &&& self.n as int - count_found(vars, asg, self.set@, false) == count_unassigned(
            vars,
            asg,
        )
        &&& self.set@.contains(x) != false
    }

    /// The verdict is the counting rule alone; forced pruning never flips
    /// it.
    open spec fn call_result(
        &self,
        vars: Seq<usize>,
        asg: Seq<Option<i32>>,
        doms1: Seq<Domain>,
        forward_check: bool,
        r: Result<bool, ConstraintError>,
    ) -> bool {
        r == Ok::<bool, ConstraintError>(self.satisfied(vars, asg))
    }

    open spec fn pre_keeps(&self, vars: Seq<usize>, n: nat, v: usize, x: i32) -> bool {
        vars.len() != 1 || self.satisfied(vars, single_asg(n, vars[0], x))
    }

    open spec fn pre_removes(&self, vars: Seq<usize>) -> bool {
        vars.len() == 1
    }

    fn call(
        &self,
        variables: &Vec<usize>,
        domains: &mut Vec<Domain>,
        assignments: &mut Vec<Option<i32>>,
        forward_check: bool,
    ) -> (r: Result<bool, ConstraintError>) {
        let ghost doms0 = domains@;
        let ghost asg0 = assignments@;
        let ghost vars = variables@;
        let ghost st = self.set@;
        let nd = domains.len();
        proof {
            assert(doms0.len() <= usize::MAX);
            assert(!self.preprocess_only() && self.decisive() && self.infallible());
            lemma_count_unassigned_split(vars, asg0, 0);
            lemma_count_found_split(vars, asg0, st, false, 0);
        }
        let mut found: usize = 0;
        let mut missing: usize = 0;
        let mut i: usize = 0;
        while i < variables.len()
            invariant
                i <= vars.len(),
                doms0 == old(domains)@,
                asg0 == old(assignments)@,
                vars == variables@,
                st == self.set@,
                domains@ == doms0,
                assignments@ == asg0,
                vars_in_range(vars, doms0.len() as nat),
                asg0.len() == doms0.len(),
                found + count_found_from(vars, asg0, st, false, i as int) == count_found(
                    vars,
                    asg0,
                    st,
                    false,
                ),
                missing + count_unassigned_from(vars, asg0, i as int) == count_unassigned(
                    vars,
                    asg0,
                ),
                found + missing <= i,
            decreases vars.len() - i,
        {
            proof {
                lemma_count_unassigned_split(vars, asg0, i as int);
                lemma_count_unassigned_split(vars, asg0, i + 1);
                lemma_count_found_split(vars, asg0, st, false, i as int);
                lemma_count_found_split(vars, asg0, st, false, i + 1);
            }
            let v = variables[i];
            let a = assignments[v];
            match a {
                Some(xv) => {
                    let memb = contains_val(&self.set, xv);
                    if memb == false {
                        found += 1;
                    }
                },
                None => {
                    missing += 1;
                },
            }
            i += 1;
        }
        let ghost fnd = count_found(vars, asg0, st, false);
        let ghost mis = count_unassigned(vars, asg0);
        proof {
            lemma_count_unassigned_split(vars, asg0, vars.len() as int);
            lemma_count_found_split(vars, asg0, st, false, vars.len() as int);
            assert(found == fnd && missing == mis);
            assert((missing == 0) <==> all_assigned(vars, asg0)) by {
                lemma_count_unassigned_split(vars, asg0, 0);
                if missing == 0 {
                    assert forall|k: int|
                        0 <= k < vars.len() implies (#[trigger] asg0[vars[k] as int]) is Some by {}
                }
            }
        }
        let n = self.n;
        let exact = self.exact;
        if missing != 0 {
            let low_ok = n >= 0 && found <= (n as usize);
            let high_ok = if n <= 0 {
                true
            } else {
                (n as usize) <= missing + found
            };
            proof {
                assert(low_ok == (fnd <= n as int));
                assert(high_ok == (n as int <= mis + fnd));
            }
            let ok = if exact {
                low_ok && high_ok
            } else {
                high_ok
            };
            if !ok {
                proof {
                    lemma_frame_refl(vars, doms0, asg0, forward_check);
                    assert(!self.satisfied(vars, asg0));
                    assert(self.call_result(
                        vars,
                        asg0,
                        domains@,
                        forward_check,
                        Ok::<bool, ConstraintError>(false),
                    ));
                }
                return Ok(false);
            }
            proof {
                assert(self.satisfied(vars, asg0));
            }
            if forward_check {
                let forced = n >= 0 && (n as usize) >= found && (n as usize) - found == missing;
                proof {
                    assert(forced == (n as int - fnd == mis));
                }
                if forced {
                    prune_membership(variables, domains, assignments, &self.set, false);
                    proof {
                        assert forall|v: int, x: i32|
                            0 <= v < doms0.len() && vars.contains(v as usize) && asg0[v] is None
                                && doms0[v]@.values.contains(x) && !(
                            #[trigger] domains@[v]@.values.contains(x)) implies !self.satisfied(
                            vars,
                            asg0.update(v, Some(x)),
                        ) by {
                            assert(st.contains(x) != false);
                            lemma_some_conflict(
                                st,
                                n,
                                exact,
                                false,
                                vars,
                                asg0,
                                v as usize,
                                x,
                            );
                        }
                        assert forall|v: int, x: i32|
                            0 <= v < doms0.len() && vars.contains(v as usize) && asg0[v]
                                is None implies ((#[trigger] domains@[v]@.values.contains(x))
                            <==> (doms0[v]@.values.contains(x) && !self.must_prune(
                                vars,
                                asg0,
                                v,
                                x,
                            ))) by {}
                    }
                } else {
                    proof {
                        lemma_frame_refl(vars, doms0, asg0, forward_check);
                        assert forall|v: int, x: i32|
                            0 <= v < doms0.len() && vars.contains(v as usize) && asg0[v]
                                is None implies ((#[trigger] domains@[v]@.values.contains(x))
                            <==> (doms0[v]@.values.contains(x) && !self.must_prune(
                                vars,
                                asg0,
                                v,
                                x,
                            ))) by {}
                    }
                }
            } else {
                proof {
                    lemma_frame_refl(vars, doms0, asg0, forward_check);
                }
            }
            proof {
                assert(self.call_result(
                    vars,
                    asg0,
                    domains@,
                    forward_check,
                    Ok::<bool, ConstraintError>(true),
                ));
            }
            Ok(true)
        } else {
            proof {
                lemma_frame_refl(vars, doms0, asg0, forward_check);
            }
            let verdict = if exact {
                n >= 0 && found == (n as usize)
            } else {
                n <= 0 || found >= (n as usize)
            };
            proof {
                assert(verdict == self.satisfied(vars, asg0));
                assert(self.call_result(
                    vars,
                    asg0,
                    domains@,
                    forward_check,
                    Ok::<bool, ConstraintError>(verdict),
                ));
            }
            Ok(verdict)
        }
    }

    fn pre_process(&self, variables: &Vec<usize>, domains: &mut Vec<Domain>) -> (remove: bool) {
        let nd = domains.len();
        proof {
            assert(old(domains)@.len() <= usize::MAX);
        }
        let r = self.default_pre_process(variables, domains);
        proof {
            if variables@.len() == 1 {
                assert forall|v: int, x: i32|
                    0 <= v < old(domains)@.len() && variables@.contains(v as usize) implies ((
                #[trigger] domains@[v]@.values.contains(x)) <==> (old(domains)@[v]@.values.contains(
                    x,
                ) && self.pre_keeps(variables@, old(domains)@.len() as nat, v as usize, x))) by {
                    let k = choose|k: int|
                        0 <= k < variables@.len() && variables@[k] == v as usize;
                    assert(variables@[0] == v as usize);
                    assert(v == variables@[0] as int);
                }
            } else {
                assert forall|v: int, x: i32|
                    0 <= v < old(domains)@.len() && variables@.contains(v as usize) implies ((
                #[trigger] domains@[v]@.values.contains(x)) <==> (old(domains)@[v]@.values.contains(
                    x,
                ) && self.pre_keeps(variables@, old(domains)@.len() as nat, v as usize, x))) by {
                    assert(domains@[v]@ == old(domains)@[v]@);
                }
            }
        }
        r
    }
}

/// Forced membership pruning is sound: when exactly as many variables are
/// open as values still needed, giving an open variable a value in the
/// wrong membership state makes the count unreachable.
proof fn lemma_some_conflict(
    set: Seq<i32>,
    n: i32,
    exact: bool,
    inside: bool,
    vars: Seq<usize>,
    asg: Seq<Option<i32>>,
    v: usize,
    x: i32,
)
    requires
        v < asg.len(),
        asg[v as int] is None,
        vars_in_range(vars, asg.len() as nat),
        vars.contains(v),
        count_unassigned(vars, asg) > 0,
        n as int - count_found(vars, asg, set, inside) == count_unassigned(vars, asg),
        set.contains(x) != inside,
    ensures
        !some_sat(set, n, exact, inside, vars, asg.update(v as int, Some(x))),
{
    lemma_counts_update(vars, asg, set, inside, v, x, 0);
    assert(exists|k: int| 0 <= k < vars.len() && vars[k] == v) by {
        let k = choose|k: int| 0 <= k < vars.len() && vars[k] == v;
    }
    lemma_occ_bounds(vars, v, 0);
    let upd = asg.update(v as int, Some(x));
    lemma_count_unassigned_split(vars, upd, 0);
    lemma_count_found_split(vars, upd, set, inside, 0);
}

/// The values of the assigned variables among `vars`, in list order,
/// counting positions from `i` on.
pub open spec fn assigned_params_from(vars: Seq<usize>, asg: Seq<Option<i32>>, i: int) -> Seq<i32>
    decreases vars.len() - i,
{
    if i < 0 || i >= vars.len() {
        Seq::empty()
    } else {
        (if asg[vars[i] as int] is Some {
            seq![asg[vars[i] as int]->Some_0]
        } else {
            Seq::empty()
        }) + assigned_params_from(vars, asg, i + 1)
    }
}

/// The values of the assigned variables among `vars`, in list order.
pub open spec fn assigned_params(vars: Seq<usize>, asg: Seq<Option<i32>>) -> Seq<i32> {
    assigned_params_from(vars, asg, 0)
}

/// Delegates satisfaction to an externally supplied predicate over the
/// tuple of assigned values.  With `assigned` set, the predicate is
/// consulted only once every variable is assigned; otherwise it also judges
/// partial tuples.  The general escape hatch for custom rules.
#[derive(Debug)]
pub struct FunctionConstraint<F>
    where F: Fn(Vec<i32>) -> Result<bool, ConstraintError>
{
    /// The predicate over the assigned values.
    pub function: F,
    /// Whether the predicate only applies to complete assignments.
    pub assigned: bool,
}

impl<F> FunctionConstraint<F>
    where F: Fn(Vec<i32>) -> Result<bool, ConstraintError>
{
    /// Creates the constraint from a predicate.
    pub fn new(function: F, assigned: bool) -> (c: FunctionConstraint<F>)
        ensures
            c.function == function,
            c.assigned == assigned,
    {
        FunctionConstraint { function, assigned }
    }
}

impl<F> Constraint for FunctionConstraint<F>
    where F: Fn(Vec<i32>) -> Result<bool, ConstraintError>
{
    /// The predicate must accept every value tuple.
    open spec fn valid(&self, vars: Seq<usize>) -> bool {
        forall|p: Vec<i32>| call_requires(self.function, (p,))
    }

    /// On a complete assignment, the predicate can answer `Ok(true)` for the
    /// value tuple; partial assignments are never judged unsatisfied.
    open spec fn satisfied(&self, vars: Seq<usize>, asg: Seq<Option<i32>>) -> bool {
        all_assigned(vars, asg) ==> exists|p: Vec<i32>|
            p@ == assigned_params(vars, asg) && call_ensures(
                self.function,
                (p,),
                Ok::<bool, ConstraintError>(true),
            )
    }

    /// The result is a possible result of the predicate on the tuple of
    /// assigned values, so an `Err` is the predicate's own error propagated
    /// unchanged; with the assigned-only flag set, a partial assignment is
    /// accepted without consulting the predicate.
    open spec fn call_result(
        &self,
        vars: Seq<usize>,
        asg: Seq<Option<i32>>,
        doms1: Seq<Domain>,
        forward_check: bool,
        r: Result<bool, ConstraintError>,
    ) -> bool {
        if !all_assigned(vars, asg) && self.assigned {
            r == Ok::<bool, ConstraintError>(true)
        } else {
            exists|p: Vec<i32>|
                p@ == assigned_params(vars, asg) && call_ensures(self.function, (p,), r)
        }
    }

    open spec fn decisive(&self) -> bool {
        false
    }

    open spec fn infallible(&self) -> bool {
        false
    }

    open spec fn preprocess_only(&self) -> bool {
        false
    }

    open spec fn must_prune(&self, vars: Seq<usize>, asg: Seq<Option<i32>>, v: int, x: i32) -> bool {
        false
    }

    open spec fn pre_keeps(&self, vars: Seq<usize>, n: nat, v: usize, x: i32) -> bool {
        true
    }

    open spec fn pre_removes(&self, vars: Seq<usize>) -> bool {
        vars.len() == 1
    }

    fn call(
        &self,
        variables: &Vec<usize>,
        domains: &mut Vec<Domain>,
        assignments: &mut Vec<Option<i32>>,
        forward_check: bool,
    ) -> (r: Result<bool, ConstraintError>) {
        let ghost doms0 = domains@;
        let ghost asg0 = assignments@;
        let ghost vars = variables@;
        proof {
            assert(!self.preprocess_only() && !self.decisive() && !self.infallible());
            lemma_count_unassigned_split(vars, asg0, 0);
        }
        let mut parms: Vec<i32> = Vec::new();
        let mut missing: usize = 0;
        let mut i: usize = 0;
        while i < variables.len()
            invariant
                i <= vars.len(),
                doms0 == old(domains)@,
                asg0 == old(assignments)@,
                vars == variables@,
                domains@ == doms0,
                assignments@ == asg0,
                vars_in_range(vars, doms0.len() as nat),
                asg0.len() == doms0.len(),
                parms@ + assigned_params_from(vars, asg0, i as int) == assigned_params(
                    vars,
                    asg0,
                ),
                missing + count_unassigned_from(vars, asg0, i as int) == count_unassigned(
                    vars,
                    asg0,
                ),
                missing <= i,
            decreases vars.len() - i,
        {
            proof {
                lemma_count_unassigned_split(vars, asg0, i as int);
                lemma_count_unassigned_split(vars, asg0, i + 1);
            }
            let ghost ppre = parms@;
            let v = variables[i];
            let a = assignments[v];
            match a {
                Some(xv) => {
                    parms.push(xv);
                    proof {
                        assert(parms@ =~= ppre + seq![xv]);
                        assert(ppre + (seq![xv] + assigned_params_from(vars, asg0, i + 1))
                            =~= (ppre + seq![xv]) + assigned_params_from(vars, asg0, i + 1));
                    }
                },
                None => {
                    missing += 1;
                },
            }
            i += 1;
        }
        proof {
            lemma_count_unassigned_split(vars, asg0, vars.len() as int);
            assert(parms@ =~= assigned_params(vars, asg0)) by {
                assert(parms@ + assigned_params_from(vars, asg0, vars.len() as int) =~= parms@);
            }
            assert((missing == 0) <==> all_assigned(vars, asg0)) by {
                lemma_count_unassigned_split(vars, asg0, 0);
                if missing == 0 {
                    assert forall|k: int|
                        0 <= k < vars.len() implies (#[trigger] asg0[vars[k] as int]) is Some by {}
                }
            }
        }
        let ghost gparms = parms;
        if missing == 0 {
            let res = (self.function)(parms);
            proof {
                lemma_frame_refl(vars, doms0, asg0, forward_check);
                if res == Ok::<bool, ConstraintError>(true) {
                    assert(self.satisfied(vars, asg0)) by {
                        assert(gparms@ == assigned_params(vars, asg0) && call_ensures(
                            self.function,
                            (gparms,),
                            Ok::<bool, ConstraintError>(true),
                        ));
                    }
                }
                assert(self.call_result(vars, asg0, domains@, forward_check, res)) by {
                    assert(gparms@ == assigned_params(vars, asg0) && call_ensures(
                        self.function,
                        (gparms,),
                        res,
                    ));
                }
            }
            return res;
        }
        let base = if self.assigned {
            true
        } else {
            let res = (self.function)(parms);
            match res {
                Ok(b) => b,
                Err(e) => {
                    proof {
                        lemma_frame_refl(vars, doms0, asg0, forward_check);
                        assert(self.call_result(
                            vars,
                            asg0,
                            domains@,
                            forward_check,
                            Err::<bool, ConstraintError>(e),
                        )) by {
                            assert(gparms@ == assigned_params(vars, asg0) && call_ensures(
                                self.function,
                                (gparms,),
                                Err::<bool, ConstraintError>(e),
                            ));
                        }
                    }
                    return Err(e);
                },
            }
        };
        proof {
            assert(self.assigned || call_ensures(
                self.function,
                (gparms,),
                Ok::<bool, ConstraintError>(base),
            ));
        }
        if !base {
            proof {
                lemma_frame_refl(vars, doms0, asg0, forward_check);
                assert(self.call_result(
                    vars,
                    asg0,
                    domains@,
                    forward_check,
                    Ok::<bool, ConstraintError>(false),
                )) by {
                    assert(!self.assigned);
                    assert(gparms@ == assigned_params(vars, asg0) && call_ensures(
                        self.function,
                        (gparms,),
                        Ok::<bool, ConstraintError>(false),
                    ));
                }
            }
            return Ok(false);
        }
        let ghost fc_result_ok = self.assigned || call_ensures(
            self.function,
            (gparms,),
            Ok::<bool, ConstraintError>(true),
        );
        proof {
            assert(fc_result_ok);
        }
        if forward_check && missing == 1 {
            // Exactly one variable is unassigned: trial-assign each of its
            // candidate values, evaluate the predicate on the full tuple,
            // and hide the values it rejects.
            let mut uv: usize = 0;
            let mut k: usize = 0;
            let mut found_uv = false;
            while k < variables.len()
                invariant
                    k <= vars.len(),
                    asg0 == old(assignments)@,
                    assignments@ == asg0,
                    vars == variables@,
                    vars_in_range(vars, asg0.len() as nat),
                    found_uv ==> (uv < asg0.len() && vars.contains(uv) && asg0[uv as int]
                        is None),
                decreases vars.len() - k,
            {
                let v = variables[k];
                if assignments[v].is_none() {
                    uv = v;
                    found_uv = true;
                    proof {
                        assert(vars.contains(uv)) by {
                            assert(vars[k as int] == uv);
                        }
                    }
                }
                k += 1;
            }
            if !found_uv {
                proof {
                    lemma_frame_refl(vars, doms0, asg0, forward_check);
                    lemma_function_true_result(self, vars, asg0, domains@, forward_check, gparms);
                }
                return Ok(true);
            }
            let ghost dpre = domains@[uv as int]@;
            let snapshot = {
                let d = &domains[uv];
                copy_values(&d.values)
            };
            let mut to_hide: Vec<i32> = Vec::new();
            let mut t: usize = 0;
            while t < snapshot.len()
                invariant
                    t <= snapshot@.len(),
                    uv < asg0.len(),
                    vars.contains(uv),
                    asg0[uv as int] is None,
                    asg0 == old(assignments)@,
                    assignments@ == asg0,
                    vars == variables@,
                    doms0 == old(domains)@,
                    domains@ == doms0,
                    uv < doms0.len(),
                    asg0.len() == doms0.len(),
                    doms_wf(doms0),
                    vars_in_range(vars, asg0.len() as nat),
                    forall|p: Vec<i32>| call_requires(self.function, (p,)),
                    snapshot@ == doms0[uv as int]@.values,
                    to_hide@.no_duplicates(),
                    forall|z: i32| #[trigger] to_hide@.contains(z) ==> snapshot@.contains(z),
                decreases snapshot@.len() - t,
            {
                let y = snapshot[t];
                // Build the full value tuple with `y` standing at the
                // unassigned variable's place.
                let mut trial: Vec<i32> = Vec::new();
                let mut q: usize = 0;
                while q < variables.len()
                    invariant
                        q <= vars.len(),
                        assignments@ == asg0,
                        vars == variables@,
                        vars_in_range(vars, asg0.len() as nat),
                    decreases vars.len() - q,
                {
                    let v = variables[q];
                    match assignments[v] {
                        Some(xv) => trial.push(xv),
                        None => trial.push(y),
                    }
                    q += 1;
                }
                let res = (self.function)(trial);
                let reject = match res {
                    Ok(b) => !b,
                    Err(_) => false,
                };
                if reject {
                    let already = contains_val(&to_hide, y);
                    if !already {
                        proof {
                            crate::domain::lemma_push_nodup(to_hide@, y);
                            crate::domain::lemma_push_contains(to_hide@, y);
                            assert(snapshot@.contains(y)) by {
                                assert(snapshot@[t as int] == y);
                            }
                        }
                        to_hide.push(y);
                    }
                }
                t += 1;
            }
            proof {
                assert forall|k2: int|
                    0 <= k2 < to_hide@.len() implies doms0[uv as int]@.values.contains(
                    #[trigger] to_hide@[k2],
                ) by {
                    assert(to_hide@.contains(to_hide@[k2]));
                }
            }
            domains[uv].hide_values(&to_hide);
            proof {
                assert forall|v: int|
                    0 <= v < doms0.len() && !(vars.contains(v as usize) && asg0[v] is None)
                    implies (#[trigger] domains@[v])@ == doms0[v]@ by {}
                assert(doms_wf(domains@)) by {
                    assert forall|j2: int| 0 <= j2 < domains@.len() implies (
                    #[trigger] domains@[j2])@.wf() by {
                        if j2 != uv as int {
                            assert(domains@[j2]@ == doms0[j2]@);
                        }
                    }
                }
                assert forall|v: int|
                    0 <= v < doms0.len() && vars.contains(v as usize) && asg0[v] is None implies (
                #[trigger] domains@[v])@.hides_from(doms0[v]@) by {
                    if v != uv as int {
                        lemma_hides_from_refl(doms0[v]@);
                    }
                }
                lemma_function_true_result(self, vars, asg0, domains@, forward_check, gparms);
            }
            return Ok(true);
        }
        proof {
            lemma_frame_refl(vars, doms0, asg0, forward_check);
            lemma_function_true_result(self, vars, asg0, domains@, forward_check, gparms);
        }
        Ok(true)
    }

    fn pre_process(&self, variables: &Vec<usize>, domains: &mut Vec<Domain>) -> (remove: bool) {
        self.default_pre_process(variables, domains)
    }
}

/// An accepted partial or complete evaluation of a function-backed
/// constraint pins `Ok(true)` as its exact result characterization.
proof fn lemma_function_true_result<F: Fn(Vec<i32>) -> Result<bool, ConstraintError>>(
    c: &FunctionConstraint<F>,
    vars: Seq<usize>,
    asg: Seq<Option<i32>>,
    doms1: Seq<Domain>,
    forward_check: bool,
    gparms: Vec<i32>,
)
    requires
        gparms@ == assigned_params(vars, asg),
        c.assigned || call_ensures(c.function, (gparms,), Ok::<bool, ConstraintError>(true)),
        !all_assigned(vars, asg) || call_ensures(
            c.function,
            (gparms,),
            Ok::<bool, ConstraintError>(true),
        ),
    ensures
        c.call_result(vars, asg, doms1, forward_check, Ok::<bool, ConstraintError>(true)),
{
    if !all_assigned(vars, asg) && c.assigned {
    } else {
        assert(call_ensures(c.function, (gparms,), Ok::<bool, ConstraintError>(true)));
        assert(gparms@ == assigned_params(vars, asg) && call_ensures(
            c.function,
            (gparms,),
            Ok::<bool, ConstraintError>(true),
        ));
    }
}

/// Whether the entries of `list` are pairwise distinct, by quadratic scan.
pub fn distinct_indices(list: &Vec<usize>) -> (b: bool)
    ensures
        b == list@.no_duplicates(),
{
    let mut i: usize = 0;
    while i < list.len()
        invariant
            i <= list@.len(),
            forall|p: int, q: int| 0 <= p < q < list@.len() && q < i ==> list@[p] != list@[q],
        decreases list@.len() - i,
    {
        let mut k: usize = 0;
        while k < i
            invariant
                k <= i,
                i < list@.len(),
                forall|p: int| 0 <= p < k ==> list@[p] != list@[i as int],
            decreases i - k,
        {
            if list[k] == list[i] {
                return false;
            }
            k += 1;
        }
        i += 1;
    }
    true
}

/// One registered built-in constraint: the tagged union the registry and
/// the search driver operate on.
#[derive(Debug)]
pub enum ConstraintKind {
    /// See [`AllDifferentConstraint`].
    AllDifferent(AllDifferentConstraint),
    /// See [`AllEqualConstraint`].
    AllEqual(AllEqualConstraint),
    /// See [`MaxSumConstraint`].
    MaxSum(MaxSumConstraint),
    /// See [`ExactSumConstraint`].
    ExactSum(ExactSumConstraint),
    /// See [`MinSumConstraint`].
    MinSum(MinSumConstraint),
    /// See [`InSetConstraint`].
    InSet(InSetConstraint),
    /// See [`NotInSetConstraint`].
    NotInSet(NotInSetConstraint),
    /// See [`SomeInSetConstraint`].
    SomeInSet(SomeInSetConstraint),
    /// See [`SomeNotInSetConstraint`].
    SomeNotInSet(SomeNotInSetConstraint),
}

impl ConstraintKind {
    /// Whether the constraint's parameters fit the variable list, decided
    /// at run time; agrees with the `valid` specification.
    pub fn check_valid(&self, variables: &Vec<usize>) -> (b: bool)
        ensures
            b == self.valid(variables@),
    {
        match self {
            ConstraintKind::MaxSum(c) => {
                let lens_ok = match &c.multipliers {
                    Some(ms) => ms.len() == variables.len(),
                    None => true,
                };
                lens_ok && distinct_indices(variables)
            },
            ConstraintKind::ExactSum(c) => {
                let lens_ok = match &c.multipliers {
                    Some(ms) => ms.len() == variables.len(),
                    None => true,
                };
                lens_ok && distinct_indices(variables)
            },
            ConstraintKind::MinSum(c) => {
                match &c.multipliers {
                    Some(ms) => ms.len() == variables.len(),
                    None => true,
                }
            },
            _ => true,
        }
    }
}

impl Constraint for ConstraintKind {
    open spec fn valid(&self, vars: Seq<usize>) -> bool {
        match self {
            ConstraintKind::AllDifferent(c) => c.valid(vars),
            ConstraintKind::AllEqual(c) => c.valid(vars),
            ConstraintKind::MaxSum(c) => c.valid(vars),
            ConstraintKind::ExactSum(c) => c.valid(vars),
            ConstraintKind::MinSum(c) => c.valid(vars),
            ConstraintKind::InSet(c) => c.valid(vars),
            ConstraintKind::NotInSet(c) => c.valid(vars),
            ConstraintKind::SomeInSet(c) => c.valid(vars),
            ConstraintKind::SomeNotInSet(c) => c.valid(vars),
        }
    }

    open spec fn satisfied(&self, vars: Seq<usize>, asg: Seq<Option<i32>>) -> bool {
        match self {
            ConstraintKind::AllDifferent(c) => c.satisfied(vars, asg),
            ConstraintKind::AllEqual(c) => c.satisfied(vars, asg),
            ConstraintKind::MaxSum(c) => c.satisfied(vars, asg),
            ConstraintKind::ExactSum(c) => c.satisfied(vars, asg),
            ConstraintKind::MinSum(c) => c.satisfied(vars, asg),
            ConstraintKind::InSet(c) => c.satisfied(vars, asg),
            ConstraintKind::NotInSet(c) => c.satisfied(vars, asg),
            ConstraintKind::SomeInSet(c) => c.satisfied(vars, asg),
            ConstraintKind::SomeNotInSet(c) => c.satisfied(vars, asg),
        }
    }

    open spec fn decisive(&self) -> bool {
        true
    }

    open spec fn infallible(&self) -> bool {
        !(self is InSet || self is NotInSet)
    }

    open spec fn preprocess_only(&self) -> bool {
        self is InSet || self is NotInSet
    }

    open spec fn call_result(
        &self,
        vars: Seq<usize>,
        asg: Seq<Option<i32>>,
        doms1: Seq<Domain>,
        forward_check: bool,
        r: Result<bool, ConstraintError>,
    ) -> bool {
        match self {
            ConstraintKind::AllDifferent(c) => c.call_result(vars, asg, doms1, forward_check, r),
            ConstraintKind::AllEqual(c) => c.call_result(vars, asg, doms1, forward_check, r),
            ConstraintKind::MaxSum(c) => c.call_result(vars, asg, doms1, forward_check, r),
            ConstraintKind::ExactSum(c) => c.call_result(vars, asg, doms1, forward_check, r),
            ConstraintKind::MinSum(c) => c.call_result(vars, asg, doms1, forward_check, r),
            ConstraintKind::InSet(c) => c.call_result(vars, asg, doms1, forward_check, r),
            ConstraintKind::NotInSet(c) => c.call_result(vars, asg, doms1, forward_check, r),
            ConstraintKind::SomeInSet(c) => c.call_result(vars, asg, doms1, forward_check, r),
            ConstraintKind::SomeNotInSet(c) => c.call_result(vars, asg, doms1, forward_check, r),
        }
    }

    open spec fn must_prune(&self, vars: Seq<usize>, asg: Seq<Option<i32>>, v: int, x: i32) -> bool {
        match self {
            ConstraintKind::AllDifferent(c) => c.must_prune(vars, asg, v, x),
            ConstraintKind::AllEqual(c) => c.must_prune(vars, asg, v, x),
            ConstraintKind::MaxSum(c) => c.must_prune(vars, asg, v, x),
            ConstraintKind::ExactSum(c) => c.must_prune(vars, asg, v, x),
            ConstraintKind::MinSum(c) => c.must_prune(vars, asg, v, x),
            ConstraintKind::InSet(c) => c.must_prune(vars, asg, v, x),
            ConstraintKind::NotInSet(c) => c.must_prune(vars, asg, v, x),
            ConstraintKind::SomeInSet(c) => c.must_prune(vars, asg, v, x),
            ConstraintKind::SomeNotInSet(c) => c.must_prune(vars, asg, v, x),
        }
    }

    open spec fn pre_keeps(&self, vars: Seq<usize>, n: nat, v: usize, x: i32) -> bool {
        match self {
            ConstraintKind::AllDifferent(c) => c.pre_keeps(vars, n, v, x),
            ConstraintKind::AllEqual(c) => c.pre_keeps(vars, n, v, x),
            ConstraintKind::MaxSum(c) => c.pre_keeps(vars, n, v, x),
            ConstraintKind::ExactSum(c) => c.pre_keeps(vars, n, v, x),
            ConstraintKind::MinSum(c) => c.pre_keeps(vars, n, v, x),
            ConstraintKind::InSet(c) => c.pre_keeps(vars, n, v, x),
            ConstraintKind::NotInSet(c) => c.pre_keeps(vars, n, v, x),
            ConstraintKind::SomeInSet(c) => c.pre_keeps(vars, n, v, x),
            ConstraintKind::SomeNotInSet(c) => c.pre_keeps(vars, n, v, x),
        }
    }

    open spec fn pre_removes(&self, vars: Seq<usize>) -> bool {
        match self {
            ConstraintKind::AllDifferent(c) => c.pre_removes(vars),
            ConstraintKind::AllEqual(c) => c.pre_removes(vars),
            ConstraintKind::MaxSum(c) => c.pre_removes(vars),
            ConstraintKind::ExactSum(c) => c.pre_removes(vars),
            ConstraintKind::MinSum(c) => c.pre_removes(vars),
            ConstraintKind::InSet(c) => c.pre_removes(vars),
            ConstraintKind::NotInSet(c) => c.pre_removes(vars),
            ConstraintKind::SomeInSet(c) => c.pre_removes(vars),
            ConstraintKind::SomeNotInSet(c) => c.pre_removes(vars),
        }
    }

    fn call(
        &self,
        variables: &Vec<usize>,
        domains: &mut Vec<Domain>,
        assignments: &mut Vec<Option<i32>>,
        forward_check: bool,
    ) -> (r: Result<bool, ConstraintError>) {
        match self {
            ConstraintKind::AllDifferent(c) => {
                let r = c.call(variables, domains, assignments, forward_check);
                proof {
                    assert(self.call_result(
                        variables@,
                        old(assignments)@,
                        domains@,
                        forward_check,
                        r,
                    ) == c.call_result(
                        variables@,
                        old(assignments)@,
                        domains@,
                        forward_check,
                        r,
                    ));
                    assert forall|vs: Seq<usize>, a: Seq<Option<i32>>| #[trigger] self.satisfied(
                        vs,
                        a,
                    ) == c.satisfied(vs, a) by {}
                    assert forall|vs: Seq<usize>, a: Seq<Option<i32>>, v: int, x: i32|
                        #[trigger] self.must_prune(vs, a, v, x) == c.must_prune(vs, a, v, x) by {}
                    assert(self.preprocess_only() == c.preprocess_only());
                    assert(self.infallible() == c.infallible());
                    assert(self.decisive() && c.decisive());
                }
                r
            },
            ConstraintKind::AllEqual(c) => {
                let r = c.call(variables, domains, assignments, forward_check);
                proof {
                    assert(self.call_result(
                        variables@,
                        old(assignments)@,
                        domains@,
                        forward_check,
                        r,
                    ) == c.call_result(
                        variables@,
                        old(assignments)@,
                        domains@,
                        forward_check,
                        r,
                    ));
                    assert forall|vs: Seq<usize>, a: Seq<Option<i32>>| #[trigger] self.satisfied(
                        vs,
                        a,
                    ) == c.satisfied(vs, a) by {}
                    assert forall|vs: Seq<usize>, a: Seq<Option<i32>>, v: int, x: i32|
                        #[trigger] self.must_prune(vs, a, v, x) == c.must_prune(vs, a, v, x) by {}
                    assert(self.preprocess_only() == c.preprocess_only());
                    assert(self.infallible() == c.infallible());
                    assert(self.decisive() && c.decisive());
                }
                r
            },
            ConstraintKind::MaxSum(c) => {
                let r = c.call(variables, domains, assignments, forward_check);
                proof {
                    assert(self.call_result(
                        variables@,
                        old(assignments)@,
                        domains@,
                        forward_check,
                        r,
                    ) == c.call_result(
                        variables@,
                        old(assignments)@,
                        domains@,
                        forward_check,
                        r,
                    ));
                    assert forall|vs: Seq<usize>, a: Seq<Option<i32>>| #[trigger] self.satisfied(
                        vs,
                        a,
                    ) == c.satisfied(vs, a) by {}
                    assert forall|vs: Seq<usize>, a: Seq<Option<i32>>, v: int, x: i32|
                        #[trigger] self.must_prune(vs, a, v, x) == c.must_prune(vs, a, v, x) by {}
                    assert(self.preprocess_only() == c.preprocess_only());
                    assert(self.infallible() == c.infallible());
                    assert(self.decisive() && c.decisive());
                }
                r
            },
            ConstraintKind::ExactSum(c) => {
                let r = c.call(variables, domains, assignments, forward_check);
                proof {
                    assert(self.call_result(
                        variables@,
                        old(assignments)@,
                        domains@,
                        forward_check,
                        r,
                    ) == c.call_result(
                        variables@,
                        old(assignments)@,
                        domains@,
                        forward_check,
                        r,
                    ));
                    assert forall|vs: Seq<usize>, a: Seq<Option<i32>>| #[trigger] self.satisfied(
                        vs,
                        a,
                    ) == c.satisfied(vs, a) by {}
                    assert forall|vs: Seq<usize>, a: Seq<Option<i32>>, v: int, x: i32|
                        #[trigger] self.must_prune(vs, a, v, x) == c.must_prune(vs, a, v, x) by {}
                    assert(self.preprocess_only() == c.preprocess_only());
                    assert(self.infallible() == c.infallible());
                    assert(self.decisive() && c.decisive());
                }
                r
            },
            ConstraintKind::MinSum(c) => {
                let r = c.call(variables, domains, assignments, forward_check);
                proof {
                    assert(self.call_result(
                        variables@,
                        old(assignments)@,
                        domains@,
                        forward_check,
                        r,
                    ) == c.call_result(
                        variables@,
                        old(assignments)@,
                        domains@,
                        forward_check,
                        r,
                    ));
                    assert forall|vs: Seq<usize>, a: Seq<Option<i32>>| #[trigger] self.satisfied(
                        vs,
                        a,
                    ) == c.satisfied(vs, a) by {}
                    assert forall|vs: Seq<usize>, a: Seq<Option<i32>>, v: int, x: i32|
                        #[trigger] self.must_prune(vs, a, v, x) == c.must_prune(vs, a, v, x) by {}
                    assert(self.preprocess_only() == c.preprocess_only());
                    assert(self.infallible() == c.infallible());
                    assert(self.decisive() && c.decisive());
                }
                r
            },
            ConstraintKind::InSet(c) => {
                let r = c.call(variables, domains, assignments, forward_check);
                proof {
                    assert(self.call_result(
                        variables@,
                        old(assignments)@,
                        domains@,
                        forward_check,
                        r,
                    ) == c.call_result(
                        variables@,
                        old(assignments)@,
                        domains@,
                        forward_check,
                        r,
                    ));
                    assert forall|vs: Seq<usize>, a: Seq<Option<i32>>| #[trigger] self.satisfied(
                        vs,
                        a,
                    ) == c.satisfied(vs, a) by {}
                    assert forall|vs: Seq<usize>, a: Seq<Option<i32>>, v: int, x: i32|
                        #[trigger] self.must_prune(vs, a, v, x) == c.must_prune(vs, a, v, x) by {}
                    assert(self.preprocess_only() == c.preprocess_only());
                    assert(self.infallible() == c.infallible());
                    assert(self.decisive() && c.decisive());
                }
                r
            },
            ConstraintKind::NotInSet(c) => {
                let r = c.call(variables, domains, assignments, forward_check);
                proof {
                    assert(self.call_result(
                        variables@,
                        old(assignments)@,
                        domains@,
                        forward_check,
                        r,
                    ) == c.call_result(
                        variables@,
                        old(assignments)@,
                        domains@,
                        forward_check,
                        r,
                    ));
                    assert forall|vs: Seq<usize>, a: Seq<Option<i32>>| #[trigger] self.satisfied(
                        vs,
                        a,
                    ) == c.satisfied(vs, a) by {}
                    assert forall|vs: Seq<usize>, a: Seq<Option<i32>>, v: int, x: i32|
                        #[trigger] self.must_prune(vs, a, v, x) == c.must_prune(vs, a, v, x) by {}
                    assert(self.preprocess_only() == c.preprocess_only());
                    assert(self.infallible() == c.infallible());
                    assert(self.decisive() && c.decisive());
                }
                r
            },
            ConstraintKind::SomeInSet(c) => {
                let r = c.call(variables, domains, assignments, forward_check);
                proof {
                    assert(self.call_result(
                        variables@,
                        old(assignments)@,
                        domains@,
                        forward_check,
                        r,
                    ) == c.call_result(
                        variables@,
                        old(assignments)@,
                        domains@,
                        forward_check,
                        r,
                    ));
                    assert forall|vs: Seq<usize>, a: Seq<Option<i32>>| #[trigger] self.satisfied(
                        vs,
                        a,
                    ) == c.satisfied(vs, a) by {}
                    assert forall|vs: Seq<usize>, a: Seq<Option<i32>>, v: int, x: i32|
                        #[trigger] self.must_prune(vs, a, v, x) == c.must_prune(vs, a, v, x) by {}
                    assert(self.preprocess_only() == c.preprocess_only());
                    assert(self.infallible() == c.infallible());
                    assert(self.decisive() && c.decisive());
                }
                r
            },
            ConstraintKind::SomeNotInSet(c) => {
                let r = c.call(variables, domains, assignments, forward_check);
                proof {
                    assert(self.call_result(
                        variables@,
                        old(assignments)@,
                        domains@,
                        forward_check,
                        r,
                    ) == c.call_result(
                        variables@,
                        old(assignments)@,
                        domains@,
                        forward_check,
                        r,
                    ));
                    assert forall|vs: Seq<usize>, a: Seq<Option<i32>>| #[trigger] self.satisfied(
                        vs,
                        a,
                    ) == c.satisfied(vs, a) by {}
                    assert forall|vs: Seq<usize>, a: Seq<Option<i32>>, v: int, x: i32|
                        #[trigger] self.must_prune(vs, a, v, x) == c.must_prune(vs, a, v, x) by {}
                    assert(self.preprocess_only() == c.preprocess_only());
                    assert(self.infallible() == c.infallible());
                    assert(self.decisive() && c.decisive());
                }
                r
            },
        }
    }

    fn pre_process(&self, variables: &Vec<usize>, domains: &mut Vec<Domain>) -> (remove: bool) {
        match self {
            ConstraintKind::AllDifferent(c) => {
                let r = c.pre_process(variables, domains);
                proof {
                    assert forall|vs: Seq<usize>, n: nat, v: usize, x: i32|
                        #[trigger] self.pre_keeps(vs, n, v, x) == c.pre_keeps(vs, n, v, x) by {}
                    assert(self.pre_removes(variables@) == c.pre_removes(variables@));
                    assert(self.decisive() && c.decisive());
                    assert(self.infallible() == c.infallible());
                }
                r
            },
            ConstraintKind::AllEqual(c) => {
                let r = c.pre_process(variables, domains);
                proof {
                    assert forall|vs: Seq<usize>, n: nat, v: usize, x: i32|
                        #[trigger] self.pre_keeps(vs, n, v, x) == c.pre_keeps(vs, n, v, x) by {}
                    assert(self.pre_removes(variables@) == c.pre_removes(variables@));
                    assert(self.decisive() && c.decisive());
                    assert(self.infallible() == c.infallible());
                }
                r
            },
            ConstraintKind::MaxSum(c) => {
                let r = c.pre_process(variables, domains);
                proof {
                    assert forall|vs: Seq<usize>, n: nat, v: usize, x: i32|
                        #[trigger] self.pre_keeps(vs, n, v, x) == c.pre_keeps(vs, n, v, x) by {}
                    assert(self.pre_removes(variables@) == c.pre_removes(variables@));
                    assert(self.decisive() && c.decisive());
                    assert(self.infallible() == c.infallible());
                }
                r
            },
            ConstraintKind::ExactSum(c) => {
                let r = c.pre_process(variables, domains);
                proof {
                    assert forall|vs: Seq<usize>, n: nat, v: usize, x: i32|
                        #[trigger] self.pre_keeps(vs, n, v, x) == c.pre_keeps(vs, n, v, x) by {}
                    assert(self.pre_removes(variables@) == c.pre_removes(variables@));
                    assert(self.decisive() && c.decisive());
                    assert(self.infallible() == c.infallible());
                }
                r
            },
            ConstraintKind::MinSum(c) => {
                let r = c.pre_process(variables, domains);
                proof {
                    assert forall|vs: Seq<usize>, n: nat, v: usize, x: i32|
                        #[trigger] self.pre_keeps(vs, n, v, x) == c.pre_keeps(vs, n, v, x) by {}
                    assert(self.pre_removes(variables@) == c.pre_removes(variables@));
                    assert(self.decisive() && c.decisive());
                    assert(self.infallible() == c.infallible());
                }
                r
            },
            ConstraintKind::InSet(c) => {
                let r = c.pre_process(variables, domains);
                proof {
                    assert forall|vs: Seq<usize>, n: nat, v: usize, x: i32|
                        #[trigger] self.pre_keeps(vs, n, v, x) == c.pre_keeps(vs, n, v, x) by {}
                    assert(self.pre_removes(variables@) == c.pre_removes(variables@));
                    assert(self.decisive() && c.decisive());
                    assert(self.infallible() == c.infallible());
                }
                r
            },
            ConstraintKind::NotInSet(c) => {
                let r = c.pre_process(variables, domains);
                proof {
                    assert forall|vs: Seq<usize>, n: nat, v: usize, x: i32|
                        #[trigger] self.pre_keeps(vs, n, v, x) == c.pre_keeps(vs, n, v, x) by {}
                    assert(self.pre_removes(variables@) == c.pre_removes(variables@));
                    assert(self.decisive() && c.decisive());
                    assert(self.infallible() == c.infallible());
                }
                r
            },
            ConstraintKind::SomeInSet(c) => {
                let r = c.pre_process(variables, domains);
                proof {
                    assert forall|vs: Seq<usize>, n: nat, v: usize, x: i32|
                        #[trigger] self.pre_keeps(vs, n, v, x) == c.pre_keeps(vs, n, v, x) by {}
                    assert(self.pre_removes(variables@) == c.pre_removes(variables@));
                    assert(self.decisive() && c.decisive());
                    assert(self.infallible() == c.infallible());
                }
                r
            },
            ConstraintKind::SomeNotInSet(c) => {
                let r = c.pre_process(variables, domains);
                proof {
                    assert forall|vs: Seq<usize>, n: nat, v: usize, x: i32|
                        #[trigger] self.pre_keeps(vs, n, v, x) == c.pre_keeps(vs, n, v, x) by {}
                    assert(self.pre_removes(variables@) == c.pre_removes(variables@));
                    assert(self.decisive() && c.decisive());
                    assert(self.infallible() == c.infallible());
                }
                r
            },
        }
    }
}

/// One registry entry: a constraint paired with the ordered variable list
/// it was registered against.
#[derive(Debug)]
pub struct ConstraintVariable {
    /// The registered constraint.
    pub constraint: ConstraintKind,
    /// The variables, as indices handed out by the problem, that the
    /// constraint spans.
    pub variables: Vec<usize>,
}

impl ConstraintVariable {
    /// Pairs a constraint with its variable list.
    pub fn new(constraint: ConstraintKind, variables: Vec<usize>) -> (cv: ConstraintVariable)
        ensures
            cv.constraint == constraint,
            cv.variables@ == variables@,
    {
        ConstraintVariable { constraint, variables }
    }
}

/// The weighted sum reads the assignment only at the listed variables.
proof fn lemma_sum_congruence(
    vars: Seq<usize>,
    a1: Seq<Option<i32>>,
    a2: Seq<Option<i32>>,
    m: Option<Seq<i32>>,
    k: int,
)
    requires
        forall|i: int| 0 <= i < vars.len() ==> a1[(#[trigger] vars[i]) as int] == a2[vars[i] as int],
    ensures
        assigned_sum_from(vars, a1, m, k) == assigned_sum_from(vars, a2, m, k),
    decreases vars.len() - k,
{
    if 0 <= k < vars.len() {
        lemma_sum_congruence(vars, a1, a2, m, k + 1);
    } else if k < 0 {
        lemma_sum_congruence(vars, a1, a2, m, 0);
    }
}

/// The unassigned count reads the assignment only at the listed variables.
proof fn lemma_unassigned_congruence(
    vars: Seq<usize>,
    a1: Seq<Option<i32>>,
    a2: Seq<Option<i32>>,
    k: int,
)
    requires
        forall|i: int| 0 <= i < vars.len() ==> a1[(#[trigger] vars[i]) as int] == a2[vars[i] as int],
    ensures
        count_unassigned_from(vars, a1, k) == count_unassigned_from(vars, a2, k),
    decreases vars.len() - k,
{
    if 0 <= k < vars.len() {
        lemma_unassigned_congruence(vars, a1, a2, k + 1);
    } else if k < 0 {
        lemma_unassigned_congruence(vars, a1, a2, 0);
    }
}

/// The membership count reads the assignment only at the listed variables.
proof fn lemma_found_congruence(
    vars: Seq<usize>,
    a1: Seq<Option<i32>>,
    a2: Seq<Option<i32>>,
    set: Seq<i32>,
    inside: bool,
    k: int,
)
    requires
        forall|i: int| 0 <= i < vars.len() ==> a1[(#[trigger] vars[i]) as int] == a2[vars[i] as int],
    ensures
        count_found_from(vars, a1, set, inside, k) == count_found_from(vars, a2, set, inside, k),
    decreases vars.len() - k,
{
    if 0 <= k < vars.len() {
        lemma_found_congruence(vars, a1, a2, set, inside, k + 1);
    } else if k < 0 {
        lemma_found_congruence(vars, a1, a2, set, inside, 0);
    }
}

/// Whether a built-in constraint is satisfied depends only on the
/// assignment's values at the variables it spans: two assignments that
/// agree there are judged alike.
pub proof fn lemma_satisfied_congruence(
    c: ConstraintKind,
    vars: Seq<usize>,
    a1: Seq<Option<i32>>,
    a2: Seq<Option<i32>>,
)
    requires
        forall|i: int| 0 <= i < vars.len() ==> a1[(#[trigger] vars[i]) as int] == a2[vars[i] as int],
    ensures
        c.satisfied(vars, a1) == c.satisfied(vars, a2),
{
    assert(all_assigned(vars, a1) == all_assigned(vars, a2));
    match c {
        ConstraintKind::AllDifferent(c0) => {
            assert(c0.satisfied(vars, a1) == c0.satisfied(vars, a2));
        },
        ConstraintKind::AllEqual(c0) => {
            assert(c0.satisfied(vars, a1) == c0.satisfied(vars, a2));
        },
        ConstraintKind::MaxSum(c0) => {
            lemma_sum_congruence(vars, a1, a2, mult_view(c0.multipliers), 0);
        },
        ConstraintKind::ExactSum(c0) => {
            lemma_sum_congruence(vars, a1, a2, mult_view(c0.multipliers), 0);
        },
        ConstraintKind::MinSum(c0) => {
            lemma_sum_congruence(vars, a1, a2, mult_view(c0.multipliers), 0);
        },
        ConstraintKind::InSet(c0) => {
            assert(c0.satisfied(vars, a1) == c0.satisfied(vars, a2));
        },
        ConstraintKind::NotInSet(c0) => {
            assert(c0.satisfied(vars, a1) == c0.satisfied(vars, a2));
        },
        ConstraintKind::SomeInSet(c0) => {
            lemma_found_congruence(vars, a1, a2, c0.set@, true, 0);
            lemma_unassigned_congruence(vars, a1, a2, 0);
        },
        ConstraintKind::SomeNotInSet(c0) => {
            lemma_found_congruence(vars, a1, a2, c0.set@, false, 0);
            lemma_unassigned_congruence(vars, a1, a2, 0);
        },
    }
}

/// A constraint kind that preprocessing does not remove unconditionally is
/// one whose evaluation never raises an error: only the set-membership
/// kinds, which preprocessing always removes, are fallible.
pub proof fn lemma_survivor_infallible(c: ConstraintKind, vars: Seq<usize>)
    requires
        !c.pre_removes(vars),
    ensures
        c.infallible(),
{
    match c {
        ConstraintKind::InSet(c0) => {
            assert(c0.pre_removes(vars));
        },
        ConstraintKind::NotInSet(c0) => {
            assert(c0.pre_removes(vars));
        },
        _ => {
        },
    }
}

} // verus!