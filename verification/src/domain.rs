use vstd::prelude::*;

verus! {

/// Mathematical model of a [`Domain`]: the live candidate values, the values
/// currently hidden by propagation, and the stack of checkpoint markers.
pub ghost struct DomainModel {
    /// Values the variable may currently take, in trial order.
    pub values: Seq<i32>,
    /// Values removed by propagation, oldest first, still recoverable.
    pub hidden: Seq<i32>,
    /// Checkpoint stack; each entry is the live-value count at push time.
    pub states: Seq<usize>,
}

impl DomainModel {
    /// Well-formedness: live and hidden values are duplicate-free and
    /// disjoint, and every checkpoint marker lies between the current live
    /// count and the total number of values, markers weakly decreasing from
    /// the bottom of the stack to the top.
    pub open spec fn wf(self) -> bool {
        &&& self.values.no_duplicates()
        &&& self.hidden.no_duplicates()
        &&& self.values.to_set().disjoint(self.hidden.to_set())
        &&& self.values.len() + self.hidden.len() <= usize::MAX
        &&& forall|i: int|
            0 <= i < self.states.len() ==> self.values.len() <= #[trigger] self.states[i]
                <= self.values.len() + self.hidden.len()
        &&& forall|i: int, j: int|
            0 <= i < j < self.states.len() ==> self.states[i] >= self.states[j]
    }

    /// The model after hiding one live value.
    pub open spec fn after_hide(self, value: i32) -> DomainModel {
        DomainModel {
            values: self.values.remove_value(value),
            hidden: self.hidden.push(value),
            states: self.states,
        }
    }

    /// The model after pushing a checkpoint.
    pub open spec fn after_push(self) -> DomainModel {
        DomainModel {
            values: self.values,
            hidden: self.hidden,
            states: self.states.push(self.values.len() as usize),
        }
    }

    /// The model after popping the most recent checkpoint: the values hidden
    /// since that checkpoint (the tail of `hidden`) return to the live
    /// sequence.  With no checkpoint present, popping changes nothing.
    pub open spec fn after_pop(self) -> DomainModel {
        if self.states.len() == 0 {
            self
        } else {
            let size = self.states.last() as int;
            let diff = size - self.values.len();
            let bound = self.hidden.len() - diff;
            DomainModel {
                values: self.values + self.hidden.subrange(bound, self.hidden.len() as int),
                hidden: self.hidden.subrange(0, bound),
                states: self.states.drop_last(),
            }
        }
    }

    /// The model after restoring every hidden value and clearing all
    /// checkpoints.
    pub open spec fn after_reset(self) -> DomainModel {
        DomainModel {
            values: self.values + self.hidden,
            hidden: Seq::empty(),
            states: Seq::empty(),
        }
    }

    /// `self` is reachable from `base` by hiding zero or more live values:
    /// the checkpoint stack is untouched, the old hidden sequence is a
    /// prefix of the new one, and the values hidden since `base` together
    /// with the remaining live values are exactly `base`'s live values.
    pub open spec fn hides_from(self, base: DomainModel) -> bool {
        &&& self.states == base.states
        &&& base.hidden.len() <= self.hidden.len()
        &&& self.hidden.subrange(0, base.hidden.len() as int) == base.hidden
        &&& self.values.to_set() + self.hidden.subrange(
            base.hidden.len() as int,
            self.hidden.len() as int,
        ).to_set() == base.values.to_set()
        &&& self.values.len() + self.hidden.len() == base.values.len() + base.hidden.len()
    }
}

/// A duplicate-free sequence, removing its first occurrence of a value it
/// contains, loses exactly that value.
pub proof fn lemma_remove_value_props(s: Seq<i32>, value: i32)
    requires
        s.no_duplicates(),
        s.contains(value),
    ensures
        s.remove_value(value).no_duplicates(),
        s.remove_value(value).len() == s.len() - 1,
        s.remove_value(value).to_set() == s.to_set().remove(value),
        forall|x: i32| s.remove_value(value).contains(x) <==> (s.contains(x) && x != value),
{
    broadcast use vstd::set::group_set_axioms;

    s.index_of_first_ensures(value);
    let i = s.index_of_first(value)->Some_0;
    let r = s.remove_value(value);
    s.remove_ensures(i);
    assert forall|x: i32| r.contains(x) implies s.contains(x) && x != value by {
        let k = choose|k: int| 0 <= k < r.len() && r[k] == x;
        if k < i {
            assert(s[k] == x);
        } else {
            assert(s[k + 1] == x);
        }
    }
    assert forall|x: i32| s.contains(x) && x != value implies r.contains(x) by {
        let k = choose|k: int| 0 <= k < s.len() && s[k] == x;
        if k < i {
            assert(r[k] == x);
        } else {
            assert(k != i);
            assert(r[k - 1] == x);
        }
    }
    assert forall|p: int, q: int| 0 <= p < q < r.len() implies r[p] != r[q] by {
        let sp: int = if p < i { p } else { p + 1 };
        let sq: int = if q < i { q } else { q + 1 };
        assert(r[p] == s[sp]);
        assert(r[q] == s[sq]);
    }
    assert(r.to_set() =~= s.to_set().remove(value));
}

/// Concatenating two duplicate-free sequences over disjoint value sets gives
/// a duplicate-free sequence whose value set is the union.
pub proof fn lemma_concat_no_duplicates(a: Seq<i32>, b: Seq<i32>)
    requires
        a.no_duplicates(),
        b.no_duplicates(),
        a.to_set().disjoint(b.to_set()),
    ensures
        (a + b).no_duplicates(),
        (a + b).to_set() == a.to_set() + b.to_set(),
{
    broadcast use vstd::set::group_set_axioms;

    lemma_concat_to_set(a, b);
    assert forall|p: int, q: int| 0 <= p < q < (a + b).len() implies (a + b)[p] != (a + b)[q] by {
        if p < a.len() && q >= a.len() {
            assert(a.to_set().contains(a[p]));
            assert(b.to_set().contains(b[q - a.len()]));
        }
    }
}

/// The value set of a concatenation is the union of the value sets.
pub proof fn lemma_concat_to_set(a: Seq<i32>, b: Seq<i32>)
    ensures
        (a + b).to_set() == a.to_set() + b.to_set(),
{
    broadcast use vstd::set::group_set_axioms;

    assert forall|x: i32| (a + b).to_set().contains(x) implies (a.to_set() + b.to_set()).contains(
        x,
    ) by {
        let k = choose|k: int| 0 <= k < (a + b).len() && (a + b)[k] == x;
        if k < a.len() {
            assert(a[k] == x);
        } else {
            assert(b[k - a.len()] == x);
        }
    }
    assert forall|x: i32| (a.to_set() + b.to_set()).contains(x) implies (a + b).to_set().contains(
        x,
    ) by {
        if a.to_set().contains(x) {
            let k = choose|k: int| 0 <= k < a.len() && a[k] == x;
            assert((a + b)[k] == x);
        } else {
            let k = choose|k: int| 0 <= k < b.len() && b[k] == x;
            assert((a + b)[a.len() + k] == x);
        }
    }
    assert((a + b).to_set() =~= a.to_set() + b.to_set());
}

/// Hiding is reflexively a (zero-step) hide sequence.
pub proof fn lemma_hides_from_refl(m: DomainModel)
    ensures
        m.hides_from(m),
{
    assert(m.hidden.subrange(0, m.hidden.len() as int) =~= m.hidden);
    assert(m.hidden.subrange(m.hidden.len() as int, m.hidden.len() as int) =~= Seq::<
        i32,
    >::empty());
    assert(m.values.to_set() + Seq::<i32>::empty().to_set() =~= m.values.to_set());
}

/// Hide sequences compose.
pub proof fn lemma_hides_from_trans(c: DomainModel, b: DomainModel, a: DomainModel)
    requires
        b.hides_from(a),
        c.hides_from(b),
    ensures
        c.hides_from(a),
{
    broadcast use vstd::set::group_set_axioms;

    assert(c.hidden.subrange(0, a.hidden.len() as int) =~= b.hidden.subrange(
        0,
        a.hidden.len() as int,
    ));
    let mid = c.hidden.subrange(a.hidden.len() as int, b.hidden.len() as int);
    let tailc = c.hidden.subrange(b.hidden.len() as int, c.hidden.len() as int);
    let taila = c.hidden.subrange(a.hidden.len() as int, c.hidden.len() as int);
    assert(mid =~= b.hidden.subrange(a.hidden.len() as int, b.hidden.len() as int));
    assert(taila =~= mid + tailc);
    lemma_concat_to_set(mid, tailc);
    assert(c.values.to_set() + taila.to_set() =~= (c.values.to_set() + tailc.to_set())
        + mid.to_set());
}

/// Hiding one live value extends a hide sequence by one step and preserves
/// well-formedness.
pub proof fn lemma_hide_step(cur: DomainModel, base: DomainModel, value: i32)
    requires
        cur.wf(),
        cur.hides_from(base),
        cur.values.contains(value),
    ensures
        cur.after_hide(value).wf(),
        cur.after_hide(value).hides_from(base),
{
    broadcast use vstd::set::group_set_axioms;

    lemma_remove_value_props(cur.values, value);
    let nxt = cur.after_hide(value);
    // Well-formedness.
    assert(nxt.hidden.no_duplicates()) by {
        assert(forall|k: int|
            0 <= k < cur.hidden.len() ==> nxt.hidden[k] == #[trigger] cur.hidden[k]);
        assert(!cur.hidden.contains(value)) by {
            assert(cur.values.to_set().contains(value));
        }
        assert forall|p: int, q: int| 0 <= p < q < nxt.hidden.len() implies nxt.hidden[p]
            != nxt.hidden[q] by {
            if q == cur.hidden.len() as int {
                assert(cur.hidden[p] == nxt.hidden[p]);
                assert(cur.hidden.contains(cur.hidden[p]));
            }
        }
    }
    assert(nxt.values.to_set().disjoint(nxt.hidden.to_set())) by {
        assert(nxt.hidden.to_set() =~= cur.hidden.to_set().insert(value)) by {
            assert forall|x: i32| nxt.hidden.to_set().contains(x) implies cur.hidden.to_set()
                .insert(value).contains(x) by {
                let k = choose|k: int| 0 <= k < nxt.hidden.len() && nxt.hidden[k] == x;
                if k < cur.hidden.len() {
                    assert(cur.hidden[k] == x);
                }
            }
            assert forall|x: i32|
                cur.hidden.to_set().insert(value).contains(x) implies nxt.hidden.to_set().contains(
                x,
            ) by {
                if x == value {
                    assert(nxt.hidden.last() == value);
                } else {
                    let k = choose|k: int| 0 <= k < cur.hidden.len() && cur.hidden[k] == x;
                    assert(nxt.hidden[k] == x);
                }
            }
        }
    }
    // The hide-sequence relation.
    assert(nxt.hidden.subrange(0, base.hidden.len() as int) =~= cur.hidden.subrange(
        0,
        base.hidden.len() as int,
    ));
    let curtail = cur.hidden.subrange(base.hidden.len() as int, cur.hidden.len() as int);
    let nxttail = nxt.hidden.subrange(base.hidden.len() as int, nxt.hidden.len() as int);
    assert(nxttail =~= curtail.push(value));
    assert(nxttail.to_set() =~= curtail.to_set().insert(value)) by {
        lemma_concat_to_set(curtail, seq![value]);
        assert(nxttail =~= curtail + seq![value]);
        assert(seq![value].to_set() =~= Set::<i32>::empty().insert(value)) by {
            assert(seq![value][0] == value);
        }
    }
    assert(nxt.values.to_set() + nxttail.to_set() =~= base.values.to_set());
}

/// Popping a checkpoint after any sequence of hides restores the live and
/// hidden value sets exactly as they were when the checkpoint was pushed:
/// the checkpoint-symmetry law.
pub proof fn lemma_checkpoint_symmetry(pre: DomainModel, cur: DomainModel)
    requires
        pre.wf(),
        cur.wf(),
        cur.hides_from(pre.after_push()),
    ensures
        cur.after_pop().values.to_set() == pre.values.to_set(),
        cur.after_pop().hidden == pre.hidden,
        cur.after_pop().states == pre.states,
        cur.after_pop().wf(),
{
    broadcast use vstd::set::group_set_axioms;

    let base = pre.after_push();
    assert(base.states.len() == pre.states.len() + 1);
    assert(base.states[pre.states.len() as int] == pre.values.len() as usize);
    assert(cur.states.len() > 0);
    assert(cur.states.last() == pre.values.len());
    let size = cur.states.last() as int;
    let diff = size - cur.values.len();
    let tail = cur.hidden.subrange(base.hidden.len() as int, cur.hidden.len() as int);
    assert(diff == cur.hidden.len() - pre.hidden.len());
    let bound = cur.hidden.len() - diff;
    assert(bound == pre.hidden.len());
    let post = cur.after_pop();
    assert(post.states =~= pre.states);
    assert(post.hidden =~= pre.hidden);
    lemma_concat_to_set(cur.values, tail);
    assert(post.values.to_set() =~= pre.values.to_set());
    // Well-formedness of the popped model.
    assert(tail.no_duplicates()) by {
        assert(forall|k: int|
            0 <= k < tail.len() ==> tail[k] == #[trigger] cur.hidden[bound + k]);
    }
    assert(cur.values.to_set().disjoint(tail.to_set())) by {
        assert forall|x: i32| tail.to_set().contains(x) implies cur.hidden.to_set().contains(
            x,
        ) by {
            let k = choose|k: int| 0 <= k < tail.len() && tail[k] == x;
            assert(cur.hidden[bound + k] == x);
        }
    }
    lemma_concat_no_duplicates(cur.values, tail);
    assert(post.hidden.no_duplicates()) by {
        assert(forall|k: int|
            0 <= k < post.hidden.len() ==> post.hidden[k] == #[trigger] cur.hidden[k]);
        assert forall|p: int, q: int| 0 <= p < q < post.hidden.len() implies post.hidden[p]
            != post.hidden[q] by {
            assert(cur.hidden[p] == post.hidden[p] && cur.hidden[q] == post.hidden[q]);
        }
    }
    assert(post.values.to_set().disjoint(post.hidden.to_set())) by {
        assert forall|x: i32| post.hidden.to_set().contains(x) implies cur.hidden.to_set().contains(
            x,
        ) by {
            let k = choose|k: int| 0 <= k < post.hidden.len() && post.hidden[k] == x;
            assert(cur.hidden[k] == x);
        }
        assert forall|x: i32| post.values.to_set().contains(x) && post.hidden.to_set().contains(
            x,
        ) implies false by {
            assert(pre.values.to_set().contains(x));
            assert(pre.hidden.to_set().contains(x));
        }
    }
    assert(post.values.len() == pre.values.len()) by {
        cur.values.unique_seq_to_set();
        tail.unique_seq_to_set();
        pre.values.unique_seq_to_set();
        post.values.unique_seq_to_set();
        vstd::set_lib::lemma_set_disjoint_lens(cur.values.to_set(), tail.to_set());
    }
    assert forall|i: int| 0 <= i < post.states.len() implies post.values.len()
        <= #[trigger] post.states[i] <= post.values.len() + post.hidden.len() by {
        assert(pre.states[i] == cur.states[i]);
        assert(cur.states[i] >= cur.states.last());
    }
}

/// The model reached from `d` by hiding, in order, each value of `vs`.
pub open spec fn hide_each(d: DomainModel, vs: Seq<i32>) -> DomainModel
    decreases vs.len(),
{
    if vs.len() == 0 {
        d
    } else {
        hide_each(d.after_hide(vs[0]), vs.skip(1))
    }
}

/// Every value of `vs` is live at its turn, so the whole hide sequence is
/// admissible.
pub open spec fn can_hide_each(d: DomainModel, vs: Seq<i32>) -> bool
    decreases vs.len(),
{
    vs.len() == 0 || (d.values.contains(vs[0]) && can_hide_each(d.after_hide(vs[0]), vs.skip(1)))
}

/// Any admissible sequence of hides is a hide sequence in the sense of
/// [`DomainModel::hides_from`], and keeps the model well-formed.
pub proof fn lemma_hide_each_hides_from(d: DomainModel, vs: Seq<i32>)
    requires
        d.wf(),
        can_hide_each(d, vs),
    ensures
        hide_each(d, vs).wf(),
        hide_each(d, vs).hides_from(d),
    decreases vs.len(),
{
    lemma_hides_from_refl(d);
    if vs.len() > 0 {
        let step = d.after_hide(vs[0]);
        lemma_hide_step(d, d, vs[0]);
        lemma_hide_each_hides_from(step, vs.skip(1));
        lemma_hides_from_trans(hide_each(d, vs), step, d);
    }
}

/// Checkpoint symmetry, stated over an arbitrary sequence of `hide_value`
/// calls: for any well-formed domain and any admissible sequence of hides
/// performed between a `push_state`/`pop_state` pair, the live and hidden
/// value sets after `pop_state` equal those before `push_state`.
pub proof fn lemma_checkpoint_symmetry_any_hides(pre: DomainModel, vs: Seq<i32>)
    requires
        pre.wf(),
        can_hide_each(pre.after_push(), vs),
    ensures
        hide_each(pre.after_push(), vs).after_pop().values.to_set() == pre.values.to_set(),
        hide_each(pre.after_push(), vs).after_pop().hidden == pre.hidden,
        hide_each(pre.after_push(), vs).after_pop().states == pre.states,
{
    let base = pre.after_push();
    lemma_push_wf(pre);
    lemma_hide_each_hides_from(base, vs);
    lemma_checkpoint_symmetry(pre, hide_each(base, vs));
}

/// Pushing a checkpoint preserves well-formedness.
pub proof fn lemma_push_wf(m: DomainModel)
    requires
        m.wf(),
    ensures
        m.after_push().wf(),
{
    let base = m.after_push();
    assert(forall|i: int| 0 <= i < m.states.len() ==> base.states[i] == #[trigger] m.states[i]);
    assert(base.states.len() == m.states.len() + 1);
    assert(base.states[m.states.len() as int] == m.values.len() as usize);
    assert forall|i: int|
        0 <= i < base.states.len() implies base.values.len() <= #[trigger] base.states[i]
        <= base.values.len() + base.hidden.len() by {
        if i < m.states.len() {
            assert(base.states[i] == m.states[i]);
        }
    }
    assert forall|i: int, j: int| 0 <= i < j < base.states.len() implies base.states[i]
        >= base.states[j] by {
        if j < m.states.len() {
            assert(base.states[i] == m.states[i] && base.states[j] == m.states[j]);
        } else {
            assert(base.states[i] == m.states[i]);
            assert(base.states[j] == m.values.len());
        }
    }
}

/// A reversible set of admissible integer values for one variable.
///
/// `values` holds the live candidates in trial order, `hidden` the values
/// removed by propagation (recoverable), and `states` a stack of checkpoint
/// markers, each recording the live-value count when it was pushed.
#[derive(Debug)]
pub struct Domain {
    pub values: Vec<i32>,
    pub hidden: Vec<i32>,
    pub states: Vec<usize>,
}

impl View for Domain {
    type V = DomainModel;

    open spec fn view(&self) -> DomainModel {
        DomainModel { values: self.values@, hidden: self.hidden@, states: self.states@ }
    }
}

impl Domain {
    /// Creates a domain whose live values are exactly `set`, with nothing
    /// hidden and no checkpoints.
    pub fn new(set: &[i32]) -> (d: Domain)
        requires
            set@.no_duplicates(),
        ensures
            d@.values == set@,
            d@.hidden == Seq::<i32>::empty(),
            d@.states == Seq::<usize>::empty(),
            d@.wf(),
    {
        let mut values: Vec<i32> = Vec::new();
        let mut i: usize = 0;
        while i < set.len()
            invariant
                i <= set@.len(),
                values@ == set@.subrange(0, i as int),
            decreases set@.len() - i,
        {
            values.push(set[i]);
            assert(values@ =~= set@.subrange(0, i + 1 as int));
            i += 1;
        }
        assert(values@ =~= set@);
        let d = Domain { values, hidden: Vec::new(), states: Vec::new() };
        assert(d@.values.to_set().disjoint(d@.hidden.to_set())) by {
            broadcast use vstd::set::group_set_axioms;
        }
        d
    }

    /// Restores every hidden value to the live sequence and clears all
    /// checkpoints, returning to the full initial domain.
    pub fn reset_state(&mut self)
        requires
            old(self)@.wf(),
        ensures
            final(self)@ == old(self)@.after_reset(),
            final(self)@.wf(),
    {
        let mut i: usize = 0;
        while i < self.hidden.len()
            invariant
                i <= self.hidden@.len(),
                self.hidden@ == old(self)@.hidden,
                self.states@ == old(self)@.states,
                self.values@ == old(self)@.values + self.hidden@.subrange(0, i as int),
            decreases self.hidden@.len() - i,
        {
            let v = self.hidden[i];
            self.values.push(v);
            assert(self.values@ =~= old(self)@.values + self.hidden@.subrange(0, i + 1 as int));
            i += 1;
        }
        assert(self.values@ =~= old(self)@.values + old(self)@.hidden) by {
            assert(self.hidden@.subrange(0, self.hidden@.len() as int) =~= self.hidden@);
        }
        self.hidden.clear();
        self.states.clear();
        proof {
            lemma_concat_no_duplicates(old(self)@.values, old(self)@.hidden);
            broadcast use vstd::set::group_set_axioms;
        }
    }

    /// Records a checkpoint: the current live-value count.
    pub fn push_state(&mut self)
        requires
            old(self)@.wf(),
        ensures
            final(self)@ == old(self)@.after_push(),
            final(self)@.wf(),
    {
        let n = self.values.len();
        self.states.push(n);
        proof {
            lemma_push_wf(old(self)@);
        }
    }

    /// Discards the most recent checkpoint, restoring every value hidden
    /// since it was pushed.  With no checkpoint present this is a no-op.
    pub fn pop_state(&mut self)
        requires
            old(self)@.wf(),
        ensures
            final(self)@ == old(self)@.after_pop(),
            final(self)@.wf(),
    {
        let popped = self.states.pop();
        if let Some(size) = popped {
            proof {
                assert(old(self)@.states.last() == size);
                assert(self.values@.len() <= size <= self.values@.len() + self.hidden@.len());
            }
            let diff = size - self.values.len();
            if diff > 0 {
                let bound = self.hidden.len() - diff;
                let mut k = bound;
                while k < self.hidden.len()
                    invariant
                        bound <= k <= self.hidden@.len(),
                        self.hidden@ == old(self)@.hidden,
                        bound == old(self)@.hidden.len() - (old(self)@.states.last()
                            - old(self)@.values.len()),
                        self.states@ == old(self)@.states.drop_last(),
                        self.values@ == old(self)@.values + self.hidden@.subrange(
                            bound as int,
                            k as int,
                        ),
                    decreases self.hidden@.len() - k,
                {
                    let v = self.hidden[k];
                    self.values.push(v);
                    assert(self.values@ =~= old(self)@.values + self.hidden@.subrange(
                        bound as int,
                        k + 1 as int,
                    ));
                    k += 1;
                }
                self.hidden.truncate(bound);
                assert(self.values@ =~= old(self)@.after_pop().values);
                assert(self.hidden@ =~= old(self)@.after_pop().hidden);
            } else {
                assert(self.values@ =~= old(self)@.after_pop().values) by {
                    assert(old(self)@.hidden.subrange(
                        old(self)@.hidden.len() as int,
                        old(self)@.hidden.len() as int,
                    ) =~= Seq::<i32>::empty());
                }
                assert(self.hidden@ =~= old(self)@.after_pop().hidden);
            }
            proof {
                lemma_pop_wf(old(self)@);
            }
        } else {
            assert(final(self)@ =~= old(self)@);
        }
    }

    /// Moves one live value to the hidden sequence.  The value must be live.
    pub fn hide_value(&mut self, value: i32)
        requires
            old(self)@.wf(),
            old(self)@.values.contains(value),
        ensures
            final(self)@ == old(self)@.after_hide(value),
            final(self)@.wf(),
    {
        let mut i: usize = 0;
        let n = self.values.len();
        while i < n && self.values[i] != value
            invariant
                n == self.values@.len(),
                self@ == old(self)@,
                i <= n,
                forall|k: int| 0 <= k < i ==> self.values@[k] != value,
                self@.values.contains(value),
            decreases n - i,
        {
            i += 1;
        }
        proof {
            assert(i < n) by {
                if i == n {
                    let k = choose|k: int| 0 <= k < n && self.values@[k] == value;
                    assert(false);
                }
            }
            self@.values.index_of_first_ensures(value);
            assert(self@.values.index_of_first(value) is Some);
            let idx = self@.values.index_of_first(value)->Some_0;
            assert(self@.values[idx] == value);
            assert(idx == i) by {
                if idx < i {
                    assert(self@.values[idx] != value);
                } else if idx > i {
                    assert(self@.values[i as int] != value);
                }
            }
            assert(self@.values.index_of_first(value) == Some(i as int));
        }
        self.values.remove(i);
        self.hidden.push(value);
        proof {
            assert(old(self)@.values.remove(i as int) =~= old(self)@.values.remove_value(value));
            lemma_hides_from_refl(old(self)@);
            lemma_hide_step(old(self)@, old(self)@, value);
        }
    }
}

impl Domain {
    /// Hides every value of `to_hide`, in order: each must be live and they
    /// must be distinct.  Batches `hide_value` for propagation.
    pub fn hide_values(&mut self, to_hide: &Vec<i32>)
        requires
            old(self)@.wf(),
            to_hide@.no_duplicates(),
            forall|k: int| 0 <= k < to_hide@.len() ==> old(self)@.values.contains(
                #[trigger] to_hide@[k],
            ),
        ensures
            final(self)@.wf(),
            final(self)@.hides_from(old(self)@),
            forall|x: i32|
                #![trigger final(self)@.values.contains(x)]
                #![trigger old(self)@.values.contains(x)]
                final(self)@.values.contains(x) <==> (old(self)@.values.contains(x)
                    && !to_hide@.contains(x)),
            final(self)@.hidden == old(self)@.hidden + to_hide@,
            final(self)@.states == old(self)@.states,
    {
        let ghost orig = self@;
        proof {
            lemma_hides_from_refl(orig);
            assert(orig.hidden + to_hide@.subrange(0, 0) =~= orig.hidden);
        }
        let mut i: usize = 0;
        while i < to_hide.len()
            invariant
                i <= to_hide@.len(),
                to_hide@.no_duplicates(),
                forall|k: int| 0 <= k < to_hide@.len() ==> orig.values.contains(
                    #[trigger] to_hide@[k],
                ),
                orig.wf(),
                self@.wf(),
                self@.hides_from(orig),
                forall|x: i32| self@.values.contains(x) <==> (orig.values.contains(x)
                    && !to_hide@.subrange(0, i as int).contains(x)),
                self@.hidden == orig.hidden + to_hide@.subrange(0, i as int),
                self@.states == orig.states,
            decreases to_hide@.len() - i,
        {
            let ghost pre = self@;
            let ghost taken = to_hide@.subrange(0, i as int);
            let v = to_hide[i];
            proof {
                assert(!taken.contains(v)) by {
                    if taken.contains(v) {
                        let k = choose|k: int| 0 <= k < taken.len() && taken[k] == v;
                        assert(to_hide@[k] == to_hide@[i as int]);
                    }
                }
                assert(pre.values.contains(v));
            }
            self.hide_value(v);
            proof {
                lemma_hide_step(pre, orig, v);
                lemma_remove_value_props(pre.values, v);
                let taken1 = to_hide@.subrange(0, i + 1 as int);
                assert(taken1 =~= taken.push(v));
                assert forall|x: i32| #[trigger] taken1.contains(x) <==> (taken.contains(x) || x
                    == v) by {
                    if taken1.contains(x) {
                        let k = choose|k: int| 0 <= k < taken1.len() && taken1[k] == x;
                        if k < taken.len() {
                            assert(taken[k] == x);
                        }
                    }
                    if taken.contains(x) {
                        let k = choose|k: int| 0 <= k < taken.len() && taken[k] == x;
                        assert(taken1[k] == x);
                    }
                    if x == v {
                        assert(taken1[taken1.len() - 1] == x);
                    }
                }
                assert(self@.hidden =~= orig.hidden + taken1);
            }
            i += 1;
        }
        proof {
            assert(to_hide@.subrange(0, to_hide@.len() as int) =~= to_hide@);
        }
    }

    /// Permanently deletes from the live values every value of `to_remove`
    /// (values need not be present).  Used by preprocessing, before any
    /// checkpoint exists.
    pub fn remove_values(&mut self, to_remove: &Vec<i32>)
        requires
            old(self)@.wf(),
            old(self)@.states.len() == 0,
        ensures
            final(self)@.wf(),
            forall|x: i32|
                #![trigger final(self)@.values.contains(x)]
                #![trigger old(self)@.values.contains(x)]
                final(self)@.values.contains(x) <==> (old(self)@.values.contains(x)
                    && !to_remove@.contains(x)),
            final(self)@.values.no_duplicates(),
            final(self)@.hidden == old(self)@.hidden,
            final(self)@.states == old(self)@.states,
    {
        let mut keep: Vec<i32> = Vec::new();
        let mut i: usize = 0;
        while i < self.values.len()
            invariant
                i <= self.values@.len(),
                self@ == old(self)@,
                self@.wf(),
                keep@.no_duplicates(),
                keep@.len() <= i,
                forall|x: i32| keep@.contains(x) <==> (self.values@.subrange(0, i as int).contains(
                    x,
                ) && !to_remove@.contains(x)),
            decreases self.values@.len() - i,
        {
            let ghost prefix = self.values@.subrange(0, i as int);
            let x = self.values[i];
            let present = contains_val(to_remove, x);
            proof {
                assert(self.values@.subrange(0, i + 1 as int) =~= prefix.push(x));
                assert forall|y: i32| #[trigger] prefix.push(x).contains(y) <==> (prefix.contains(
                    y,
                ) || y == x) by {
                    if prefix.push(x).contains(y) {
                        let k = choose|k: int|
                            0 <= k < prefix.push(x).len() && prefix.push(x)[k] == y;
                        if k < prefix.len() {
                            assert(prefix[k] == y);
                        }
                    }
                    if prefix.contains(y) {
                        let k = choose|k: int| 0 <= k < prefix.len() && prefix[k] == y;
                        assert(prefix.push(x)[k] == y);
                    }
                    if y == x {
                        assert(prefix.push(x)[prefix.len() as int] == y);
                    }
                }
                assert(!prefix.contains(x)) by {
                    if prefix.contains(x) {
                        let k = choose|k: int| 0 <= k < prefix.len() && prefix[k] == x;
                        assert(self.values@[k] == self.values@[i as int]);
                    }
                }
            }
            if !present {
                let ghost kpre = keep@;
                proof {
                    assert(!keep@.contains(x));
                }
                keep.push(x);
                proof {
                    assert forall|y: i32| #[trigger] keep@.contains(y) <==> (kpre.contains(y) || y
                        == x) by {
                        if keep@.contains(y) {
                            let k = choose|k: int| 0 <= k < keep@.len() && keep@[k] == y;
                            if k < kpre.len() {
                                assert(kpre[k] == y);
                            }
                        }
                        if kpre.contains(y) {
                            let k = choose|k: int| 0 <= k < kpre.len() && kpre[k] == y;
                            assert(keep@[k] == y);
                        }
                        if y == x {
                            assert(keep@[keep@.len() - 1] == y);
                        }
                    }
                }
            }
            i += 1;
        }
        proof {
            assert(self.values@.subrange(0, self.values@.len() as int) =~= self.values@);
        }
        self.values = keep;
        proof {
            broadcast use vstd::set::group_set_axioms;
        }
    }
}

/// Membership in a sequence extended by one element.
pub proof fn lemma_push_contains<A>(s: Seq<A>, x: A)
    ensures
        forall|y: A| #[trigger] s.push(x).contains(y) <==> (s.contains(y) || y == x),
{
    assert forall|y: A| #[trigger] s.push(x).contains(y) implies (s.contains(y) || y == x) by {
        let k = choose|k: int| 0 <= k < s.push(x).len() && s.push(x)[k] == y;
        if k < s.len() {
            assert(s[k] == y);
        }
    }
    assert forall|y: A| s.contains(y) implies s.push(x).contains(y) by {
        let k = choose|k: int| 0 <= k < s.len() && s[k] == y;
        assert(s.push(x)[k] == y);
    }
    assert(s.push(x)[s.len() as int] == x);
}

/// Pushing a fresh element keeps a sequence duplicate-free.
pub proof fn lemma_push_nodup<A>(s: Seq<A>, x: A)
    requires
        s.no_duplicates(),
        !s.contains(x),
    ensures
        s.push(x).no_duplicates(),
{
    assert forall|p: int, q: int| 0 <= p < q < s.push(x).len() implies s.push(x)[p] != s.push(
        x,
    )[q] by {
        if q == s.len() as int {
            assert(s.contains(s[p]));
        }
    }
}

/// Whether `list` contains `x`, by linear scan.
pub fn contains_val(list: &Vec<i32>, x: i32) -> (b: bool)
    ensures
        b == list@.contains(x),
{
    let mut i: usize = 0;
    while i < list.len()
        invariant
            i <= list@.len(),
            forall|k: int| 0 <= k < i ==> list@[k] != x,
        decreases list@.len() - i,
    {
        if list[i] == x {
            return true;
        }
        i += 1;
    }
    proof {
        if list@.contains(x) {
            let k = choose|k: int| 0 <= k < list@.len() && list@[k] == x;
            assert(false);
        }
    }
    false
}

/// A copy of a vector of values.
pub fn copy_values(list: &Vec<i32>) -> (r: Vec<i32>)
    ensures
        r@ == list@,
{
    let mut r: Vec<i32> = Vec::new();
    let mut i: usize = 0;
    while i < list.len()
        invariant
            i <= list@.len(),
            r@ == list@.subrange(0, i as int),
        decreases list@.len() - i,
    {
        r.push(list[i]);
        assert(r@ =~= list@.subrange(0, i + 1 as int));
        i += 1;
    }
    assert(r@ =~= list@);
    r
}

/// Popping preserves well-formedness.
proof fn lemma_pop_wf(m: DomainModel)
    requires
        m.wf(),
        m.states.len() > 0,
    ensures
        m.after_pop().wf(),
{
    broadcast use vstd::set::group_set_axioms;

    let size = m.states.last() as int;
    let diff = size - m.values.len();
    let bound = m.hidden.len() - diff;
    let tail = m.hidden.subrange(bound, m.hidden.len() as int);
    let post = m.after_pop();
    assert(tail.no_duplicates()) by {
        assert(forall|k: int| 0 <= k < tail.len() ==> tail[k] == #[trigger] m.hidden[bound + k]);
    }
    assert forall|x: i32| tail.to_set().contains(x) implies m.hidden.to_set().contains(x) by {
        let k = choose|k: int| 0 <= k < tail.len() && tail[k] == x;
        assert(m.hidden[bound + k] == x);
    }
    lemma_concat_no_duplicates(m.values, tail);
    assert(post.hidden.no_duplicates()) by {
        assert forall|p: int, q: int| 0 <= p < q < post.hidden.len() implies post.hidden[p]
            != post.hidden[q] by {
            assert(post.hidden[p] == m.hidden[p] && post.hidden[q] == m.hidden[q]);
        }
    }
    assert forall|x: i32| post.hidden.to_set().contains(x) implies m.hidden.to_set().contains(
        x,
    ) by {
        let k = choose|k: int| 0 <= k < post.hidden.len() && post.hidden[k] == x;
        assert(m.hidden[k] == x);
    }
    assert(post.values.to_set().disjoint(post.hidden.to_set())) by {
        lemma_concat_to_set(m.values, tail);
        assert forall|x: i32|
            post.values.to_set().contains(x) && post.hidden.to_set().contains(x) implies false by {
            if tail.to_set().contains(x) {
                let k = choose|k: int| 0 <= k < tail.len() && tail[k] == x;
                let j = choose|j: int| 0 <= j < post.hidden.len() && post.hidden[j] == x;
                assert(m.hidden[bound + k] == x && m.hidden[j] == x);
            }
        }
    }
    assert(post.values.len() == size);
    assert forall|i: int| 0 <= i < post.states.len() implies post.values.len()
        <= #[trigger] post.states[i] <= post.values.len() + post.hidden.len() by {
        assert(post.states[i] == m.states[i]);
        assert(m.states[i] >= m.states.last());
    }
}

} // verus!
