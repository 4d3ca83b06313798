//! Which statements are active in a cycle: the predicate values that the
//! trace drives, and the walk of the control-flow forest that they select.

use std::collections::HashMap;
use vstd::prelude::*;
use vstd::std_specs::hash::*;
use crate::errors::Error;
use crate::pdg_spec::{CFGSpecStatement, PDGSpecNode};
use crate::reader::VcdReader;
use crate::text::{join_all, split_on};
use crate::trace::{var_at, Header, LogicValue, ValueChange};

verus! {

broadcast use group_hash_axioms;

/// The predicate values after the changes of one cycle: each change of a
/// predicate signal sets it, asserted on `V1` alone; other changes are passed over.
pub open spec fn absorb_changes(values: Map<u64, bool>, changes: Seq<ValueChange>) -> Map<
    u64,
    bool,
>
    decreases changes.len(),
{
    if changes.len() == 0 {
        values
    } else {
        let before = absorb_changes(values, changes.drop_last());
        let change = changes.last();
        if before.contains_key(change.id) {
            before.insert(change.id, change.value == LogicValue::V1)
        } else {
            before
        }
    }
}

/// Whether predicate number `pred` is asserted; one that is unknown is not.
pub open spec fn asserted(ids: Seq<u64>, values: Map<u64, bool>, pred: u32) -> bool {
    pred < ids.len() && values.contains_key(ids[pred as int]) && values[ids[pred as int]]
}

/// The statements that the walk of one node emits: the node's own, then
/// those of the branch that its predicate selects.
pub open spec fn active_of(node: &CFGSpecStatement, ids: Seq<u64>, values: Map<u64, bool>) -> Seq<
    u32,
>
    decreases node, 0int,
{
    seq![node.stmt_ref] + match node.pred_stmt_ref {
        Some(pred) => if asserted(ids, values, pred) {
            match &node.true_branch {
                Some(branch) => active_from(branch, ids, values, 0),
                None => seq![],
            }
        } else {
            match &node.false_branch {
                Some(branch) => active_from(branch, ids, values, 0),
                None => seq![],
            }
        },
        None => seq![],
    }
}

/// The statements that the walk of `nodes[from..]` emits, in forward order.
pub open spec fn active_from(
    nodes: &Vec<CFGSpecStatement>,
    ids: Seq<u64>,
    values: Map<u64, bool>,
    from: int,
) -> Seq<u32>
    decreases nodes, nodes.len() - from,
{
    if from < 0 || from >= nodes.len() {
        seq![]
    } else {
        active_of(&nodes[from], ids, values) + active_from(nodes, ids, values, from + 1)
    }
}

/// The statements that a stack of nodes still has to emit, top first.
pub open spec fn active_stack(
    stack: Seq<&CFGSpecStatement>,
    ids: Seq<u64>,
    values: Map<u64, bool>,
) -> Seq<u32>
    decreases stack.len(),
{
    if stack.len() == 0 {
        seq![]
    } else {
        active_of(stack.last(), ids, values) + active_stack(stack.drop_last(), ids, values)
    }
}

/// The signals of the predicates, in order; a predicate that the trace
/// does not declare stands as zero.
pub open spec fn predicate_ids(
    items: Seq<crate::trace::ScopeItem>,
    scopes: Seq<Seq<char>>,
    predicates: Seq<PDGSpecNode>,
) -> Seq<u64> {
    Seq::new(
        predicates.len(),
        |k: int|
            match var_at(items, scopes + split_on(predicates[k].name@, '.')) {
                Some(id) => id,
                None => 0,
            },
    )
}

/// Every predicate signal unasserted.
pub open spec fn initial_values(ids: Seq<u64>) -> Map<u64, bool> {
    Map::new(|id: u64| ids.contains(id), |id: u64| false)
}

/// The predicate signals of a design and their current values.
#[derive(Debug)]
pub struct PredicateState {
    pub pred_values: HashMap<u64, bool>,
    pub pred_idx_to_id: Vec<u64>,
}

/// The paths of the first `upto` predicates below `scopes` all name a variable.
pub open spec fn predicates_found(
    items: Seq<crate::trace::ScopeItem>,
    scopes: Seq<Seq<char>>,
    predicates: Seq<PDGSpecNode>,
    upto: int,
) -> bool {
    forall|k: int|
        0 <= k < upto ==> var_at(items, scopes + split_on(#[trigger] predicates[k].name@, '.'))
            is Some
}

fn push_reversed<'a>(stack: &mut Vec<&'a CFGSpecStatement>, branch: &'a Vec<CFGSpecStatement>, Ghost(
    ids,
): Ghost<Seq<u64>>, Ghost(values): Ghost<Map<u64, bool>>)
    ensures
        active_stack(final(stack)@, ids, values) == active_from(branch, ids, values, 0)
            + active_stack(old(stack)@, ids, values),
{
    let mut k: usize = branch.len();
    assert(active_from(branch, ids, values, k as int) + active_stack(stack@, ids, values)
        =~= active_stack(stack@, ids, values));
    while k > 0
        invariant
            k <= branch.len(),
            active_stack(stack@, ids, values) == active_from(branch, ids, values, k as int)
                + active_stack(old(stack)@, ids, values),
        decreases k,
    {
        let ghost before = stack@;
        k = k - 1;
        stack.push(&branch[k]);
        proof {
            assert(stack@.drop_last() =~= before);
            assert(stack@.last() == &branch[k as int]);
            assert(active_of(&branch[k as int], ids, values) + (active_from(
                branch,
                ids,
                values,
                k + 1,
            ) + active_stack(old(stack)@, ids, values)) =~= active_from(
                branch,
                ids,
                values,
                k as int,
            ) + active_stack(old(stack)@, ids, values));
        }
    }
}

impl PredicateState {
    /// No predicate is known yet.
    pub fn new() -> (state: Self)
        ensures
            state.pred_values@ == Map::<u64, bool>::empty(),
            state.pred_idx_to_id@ == Seq::<u64>::empty(),
    {
        PredicateState { pred_values: HashMap::new(), pred_idx_to_id: Vec::new() }
    }

    /// Resolves every predicate of the design to its signal in the trace and
    /// starts it unasserted. Fails on the first predicate that the trace
    /// does not declare.
    pub fn init_predicates(
        &mut self,
        predicates: &Vec<PDGSpecNode>,
        reader: &VcdReader,
        header: &Header,
    ) -> (r: Result<(), Error>)
        ensures
            match r {
                Ok(()) => {
                    &&& final(self).pred_idx_to_id@ == predicate_ids(
                        header.items@,
                        reader.extra_scopes.deep_view(),
                        predicates@,
                    )
                    &&& predicates_found(
                        header.items@,
                        reader.extra_scopes.deep_view(),
                        predicates@,
                        predicates.len() as int,
                    )
                    &&& final(self).pred_values@ == initial_values(final(self).pred_idx_to_id@)
                },
                Err(e) => exists|k: int|
                    {
                        &&& 0 <= k < predicates.len()
                        &&& predicates_found(
                            header.items@,
                            reader.extra_scopes.deep_view(),
                            predicates@,
                            k,
                        )
                        &&& var_at(
                            header.items@,
                            reader.extra_scopes.deep_view() + split_on(
                                #[trigger] predicates[k].name@,
                                '.',
                            ),
                        ) is None
                        &&& e matches Error::VariableNotFoundError(path)
                        &&& path@ == join_all(
                            reader.extra_scopes.deep_view() + split_on(predicates[k].name@, '.'),
                        )
                    },
            },
    {
        self.pred_idx_to_id.clear();
        self.pred_values.clear();
        let ghost scopes = reader.extra_scopes.deep_view();
        let ghost wanted = predicate_ids(header.items@, scopes, predicates@);
        assert(self.pred_values@ =~= initial_values(self.pred_idx_to_id@));
        let mut i: usize = 0;
        while i < predicates.len()
            invariant
                i <= predicates.len(),
                scopes == reader.extra_scopes.deep_view(),
                wanted == predicate_ids(header.items@, scopes, predicates@),
                self.pred_idx_to_id.len() == i,
                predicates_found(header.items@, scopes, predicates@, i as int),
                forall|k: int| 0 <= k < i ==> #[trigger] self.pred_idx_to_id[k] == wanted[k],
                self.pred_values@ == initial_values(self.pred_idx_to_id@),
            decreases predicates.len() - i,
        {
            let pred_id = match reader.find_var(header, predicates[i].name.as_str()) {
                Ok(id) => id,
                Err(e) => {
                    return Err(e);
                },
            };
            let ghost before = self.pred_idx_to_id@;
            self.pred_values.insert(pred_id, false);
            self.pred_idx_to_id.push(pred_id);
            proof {
                let after = self.pred_idx_to_id@;
                assert forall|id: u64| after.contains(id) <==> (before.contains(id) || id
                    == pred_id) by {
                    if before.contains(id) {
                        let k = choose|k: int| 0 <= k < before.len() && before[k] == id;
                        assert(after[k] == id);
                    }
                    if id == pred_id {
                        assert(after[i as int] == id);
                    }
                }
                assert(self.pred_values@ =~= initial_values(after));
            }
            i = i + 1;
        }
        assert(self.pred_idx_to_id@ =~= wanted);
        Ok(())
    }

    /// Takes in the changes of one cycle, then walks the control-flow forest
    /// and returns the statements that are active, in forward order.
    pub fn get_activated_statements(
        &mut self,
        cfg: &Vec<CFGSpecStatement>,
        changes: &Vec<ValueChange>,
    ) -> (activated: Vec<u32>)
        ensures
            final(self).pred_idx_to_id == old(self).pred_idx_to_id,
            final(self).pred_values@ == absorb_changes(old(self).pred_values@, changes@),
            activated@ == active_from(
                cfg,
                final(self).pred_idx_to_id@,
                final(self).pred_values@,
                0,
            ),
    {
        let mut c: usize = 0;
        assert(changes@.take(0) =~= Seq::<ValueChange>::empty());
        while c < changes.len()
            invariant
                c <= changes.len(),
                self.pred_idx_to_id == old(self).pred_idx_to_id,
                self.pred_values@ == absorb_changes(old(self).pred_values@, changes@.take(c as int)),
            decreases changes.len() - c,
        {
            let change = changes[c];
            assert(changes@.take(c + 1).drop_last() =~= changes@.take(c as int));
            assert(changes@.take(c + 1).last() == change);
            if self.pred_values.contains_key(&change.id) {
                self.pred_values.insert(change.id, change.value == LogicValue::V1);
            }
            c = c + 1;
        }
        assert(changes@.take(c as int) =~= changes@);

        let ghost ids = self.pred_idx_to_id@;
        let ghost values = self.pred_values@;
        let mut activated: Vec<u32> = Vec::new();
        let mut stack: Vec<&CFGSpecStatement> = Vec::new();
        push_reversed(&mut stack, cfg, Ghost(ids), Ghost(values));
        assert(active_stack(Seq::<&CFGSpecStatement>::empty(), ids, values) =~= seq![]);
        assert(activated@ + active_stack(stack@, ids, values) =~= active_from(cfg, ids, values, 0));
        while stack.len() > 0
            invariant
                ids == self.pred_idx_to_id@,
                values == self.pred_values@,
                self.pred_idx_to_id == old(self).pred_idx_to_id,
                activated@ + active_stack(stack@, ids, values) == active_from(cfg, ids, values, 0),
            decreases active_stack(stack@, ids, values).len(),
        {
            let ghost before = stack@;
            let ghost emitted = activated@;
            let node = stack.pop().unwrap();
            assert(stack@ =~= before.drop_last());
            let ghost rest = active_stack(stack@, ids, values);
            activated.push(node.stmt_ref);
            if let Some(pred) = node.pred_stmt_ref {
                let pred_active = if (pred as usize) < self.pred_idx_to_id.len() {
                    let pred_id = self.pred_idx_to_id[pred as usize];
                    match self.pred_values.get(&pred_id) {
                        Some(v) => *v,
                        None => false,
                    }
                } else {
                    false
                };
                assert(pred_active == asserted(ids, values, pred));
                if pred_active {
                    if let Some(t_branch) = &node.true_branch {
                        push_reversed(&mut stack, t_branch, Ghost(ids), Ghost(values));
                    }
                } else if let Some(f_branch) = &node.false_branch {
                    push_reversed(&mut stack, f_branch, Ghost(ids), Ghost(values));
                }
            }
            proof {
                let tail = active_stack(stack@, ids, values);
                assert(seq![node.stmt_ref] + tail =~= active_of(node, ids, values) + rest);
                assert(activated@ + tail =~= emitted + (active_of(node, ids, values) + rest));
            }
        }
        assert(active_stack(stack@, ids, values) =~= seq![]);
        assert(activated@ + Seq::<u32>::empty() =~= activated@);
        activated
    }
}

} // verus!
