//! What holds of transactions as a whole.

use crate::error::{MetaError, MetaErrorView};
use crate::txn::{
    acceptable, action_of, active, all_acceptable, answered, commit_error, compare_views,
    conditions, entry_from, fetch_error, filed, guard_for, guarded_plan, last_asked,
    lemma_one_more_plan, missing_key, missing_response, not_filed, op_for, op_views, operations,
    plan_error, plan_views, planned, plans_refused, repeated, stage_step, unexpected_response,
    Compare, CompareView, StageAction, StageStep, TxnContext, TxnEntry, TxnEntryView, TxnOp,
    TxnOpResponse, TxnOpView, UpdateAction, UpdateActionView, UpdatePlan, UpdatePlanView,
};
use vstd::prelude::*;

verus! {

/// A guard holds of the store if and only if its key is as it was found. The key
/// is described by how often it was written since it was created and by the
/// revision of its last write, both 0 where it does not exist and both positive
/// where it does; `found` is the revision at which it was found, 0 where it did
/// not exist.
pub proof fn lemma_guard_holds_if_unchanged(
    key: Seq<char>,
    found: i64,
    version: i64,
    mod_revision: i64,
)
    requires
        version >= 0,
        mod_revision >= 0,
        version == 0 <==> mod_revision == 0,
    ensures
        match guard_for(key, found) {
            CompareView::Version { key: named, equals } => {
                &&& named == key
                &&& version == equals <==> mod_revision == found
            },
            CompareView::ModRevision { key: named, equals } => {
                &&& named == key
                &&& mod_revision == equals <==> mod_revision == found
            },
        },
        found != 0 ==> guard_for(key, found) == (CompareView::ModRevision { key, equals: found }),
        found == 0 ==> guard_for(key, found) == (CompareView::Version { key, equals: 0 }),
{
}

/// A plan made from what the stage found is about the key that it names, does
/// what it was made for, and has the guard of that key and of the revision at
/// which the key was found.
pub proof fn lemma_guarded_plan(
    slots: Map<Seq<char>, TxnEntryView>,
    key: Seq<char>,
    action: UpdateActionView,
)
    ensures
        guarded_plan(slots, key, action).key == key,
        guarded_plan(slots, key, action).action == action,
        slots[key].mod_revision == 0 ==> guarded_plan(slots, key, action).compare == (
        CompareView::Version { key, equals: 0 }),
        slots[key].mod_revision != 0 ==> guarded_plan(slots, key, action).compare == (
        CompareView::ModRevision { key, equals: slots[key].mod_revision }),
{
}

/// The texts of the errors.
pub proof fn lemma_error_texts(
    key: Seq<char>,
    text: Seq<char>,
    slots: Map<Seq<char>, TxnEntryView>,
    plan: UpdatePlanView,
)
    ensures
        missing_key(key) == MetaErrorView::Internal("Missing key in transaction context: "@ + key),
        unexpected_response(key) == MetaErrorView::Internal(
            "Unexpected txn response for key "@ + key,
        ),
        missing_response(key) == MetaErrorView::Internal("Missing txn response for key "@ + key),
        fetch_error(text) == MetaErrorView::Internal("Etcd txn fetch error: "@ + text),
        commit_error(text) == MetaErrorView::Internal("Failed to execute transaction: "@ + text),
        !slots.contains_key(plan.key) ==> plan_error(slots, plan) == MetaErrorView::Internal(
            "Stage generated plan for undeclared key: "@ + plan.key,
        ),
        slots.contains_key(plan.key) ==> plan_error(slots, plan) == MetaErrorView::Internal(
            "Duplicate update plan for key "@ + plan.key,
        ),
{
}

/// The view of a condition tells its kind, its whole key and its number.
pub proof fn lemma_compare_view(compare: Compare, k: Seq<char>, n: i64)
    ensures
        compare@ == (CompareView::Version { key: k, equals: n }) <==> (compare matches
            Compare::Version { key, equals } && key@ == k && equals == n),
        compare@ == (CompareView::ModRevision { key: k, equals: n }) <==> (compare matches
            Compare::ModRevision { key, equals } && key@ == k && equals == n),
{
}

/// The view of an operation tells its kind, its whole key and its whole value.
pub proof fn lemma_op_view(op: TxnOp, k: Seq<char>, v: Seq<u8>)
    ensures
        op@ == (TxnOpView::Get { key: k }) <==> (op matches TxnOp::Get { key } && key@ == k),
        op@ == (TxnOpView::Put { key: k, value: v }) <==> (op matches TxnOp::Put { key, value }
            && key@ == k && value@ == v),
        op@ == (TxnOpView::Delete { key: k }) <==> (op matches TxnOp::Delete { key } && key@ == k),
        (TxnOpView::Get { key: k }).key() == k,
        (TxnOpView::Put { key: k, value: v }).key() == k,
        (TxnOpView::Delete { key: k }).key() == k,
{
}

/// The view of an entry tells its revision and its whole value.
pub proof fn lemma_entry_view(entry: TxnEntry)
    ensures
        entry@.mod_revision == entry.mod_revision,
        match entry.value {
            Some(value) => entry@.value == Some(value@),
            None => entry@.value is None,
        },
{
}

/// The view of a context has an entry for each slot, and no others.
pub proof fn lemma_context_view(ctx: TxnContext, k: Seq<char>)
    ensures
        ctx@.contains_key(k) <==> ctx.slots@.contains_key(k),
        ctx.slots@.contains_key(k) ==> ctx@[k] == ctx.slots@[k]@,
{
}

/// The view of a plan tells its whole key, its condition and what it does.
pub proof fn lemma_plan_view(plan: UpdatePlan)
    ensures
        plan@.key == plan.key@,
        plan@.compare == plan.compare@,
        match plan.action {
            UpdateAction::Write(value) => plan@.action == UpdateActionView::Write(value@),
            UpdateAction::Delete => plan@.action == UpdateActionView::Delete,
            UpdateAction::Skip => plan@.action == UpdateActionView::Skip,
        },
{
}

/// The views of lists have the views of all elements, in order.
pub proof fn lemma_list_views(
    plans: Seq<UpdatePlan>,
    compares: Seq<Compare>,
    ops: Seq<TxnOp>,
    i: int,
)
    ensures
        plan_views(plans).len() == plans.len(),
        compare_views(compares).len() == compares.len(),
        op_views(ops).len() == ops.len(),
        0 <= i < plans.len() ==> plan_views(plans)[i] == plans[i]@,
        0 <= i < compares.len() ==> compare_views(compares)[i] == compares[i]@,
        0 <= i < ops.len() ==> op_views(ops)[i] == ops[i]@,
{
}

/// What is filed under a key is the first pair of the answer to the key's last
/// occurrence: its value in full and its revision, or no value and revision 0
/// where the answer has no pair.
pub proof fn lemma_filed_entry(
    keys: Seq<String>,
    responses: Seq<TxnOpResponse>,
    slots: Map<Seq<char>, TxnEntryView>,
    i: int,
)
    requires
        filed(keys, responses, slots),
        0 <= i < keys.len(),
        forall|j: int| i < j < keys.len() ==> (#[trigger] keys[j])@ != keys[i]@,
    ensures
        slots.contains_key(keys[i]@),
        i < responses.len(),
        match responses[i] {
            TxnOpResponse::Get(kvs) => if kvs@.len() > 0 {
                &&& slots[keys[i]@].value == Some(kvs@[0].value@)
                &&& slots[keys[i]@].mod_revision == kvs@[0].mod_revision
            } else {
                &&& slots[keys[i]@].value is None
                &&& slots[keys[i]@].mod_revision == 0
            },
            _ => false,
        },
{
    assert(answered(responses, i));
    assert(last_asked(keys, i));
}

/// Nothing is filed but under the keys that were asked for.
pub proof fn lemma_filed_only_asked(
    keys: Seq<String>,
    responses: Seq<TxnOpResponse>,
    slots: Map<Seq<char>, TxnEntryView>,
    k: Seq<char>,
)
    requires
        filed(keys, responses, slots),
    ensures
        slots.contains_key(k) <==> exists|i: int|
            0 <= i < keys.len() && (#[trigger] keys[i])@ == k,
        keys.len() <= responses.len(),
{
    if keys.len() > 0 {
        assert(answered(responses, keys.len() - 1));
    }
}

/// Where the answers are not filed, the error names the first key that has no
/// answer with its value, and says whether it has another answer or none.
pub proof fn lemma_not_filed(
    keys: Seq<String>,
    responses: Seq<TxnOpResponse>,
    e: MetaErrorView,
    i: int,
)
    requires
        not_filed(keys, responses, e),
        0 <= i < keys.len(),
        i >= responses.len() || !(responses[i] is Get),
        forall|j: int| 0 <= j < i && j < responses.len() ==> (#[trigger] responses[j]) is Get,
    ensures
        i < responses.len() ==> e == MetaErrorView::Internal(
            "Unexpected txn response for key "@ + keys[i]@,
        ),
        i == responses.len() ==> e == MetaErrorView::Internal(
            "Missing txn response for key "@ + keys[i]@,
        ),
{
    assert(!answered(responses, i));
    let m = choose|m: int|
        {
            &&& 0 <= m < keys.len()
            &&& !(#[trigger] answered(responses, m))
            &&& forall|j: int| 0 <= j < m ==> #[trigger] answered(responses, j)
            &&& e == if m < responses.len() {
                unexpected_response(keys[m]@)
            } else {
                missing_response(keys[m]@)
            }
        };
    if i <= responses.len() {
        if m < i {
            assert(responses[m] is Get);
        }
        if i < m {
            assert(answered(responses, i));
        }
    }
}

/// Plans are accepted if and only if every plan is about a declared key and no
/// two plans are about one key.
pub proof fn lemma_plans_accepted(
    slots: Map<Seq<char>, TxnEntryView>,
    plans: Seq<UpdatePlanView>,
)
    ensures
        all_acceptable(slots, plans) <==> {
            &&& forall|i: int| 0 <= i < plans.len() ==> slots.contains_key((#[trigger] plans[i]).key)
            &&& forall|i: int, j: int|
                0 <= j < i < plans.len() ==> (#[trigger] plans[j]).key != (#[trigger] plans[i]).key
        },
{
    if all_acceptable(slots, plans) {
        assert forall|i: int| 0 <= i < plans.len() implies slots.contains_key(
            (#[trigger] plans[i]).key,
        ) by {
            assert(acceptable(slots, plans, i));
        }
        assert forall|i: int, j: int| 0 <= j < i < plans.len() implies (#[trigger] plans[j]).key
            != (#[trigger] plans[i]).key by {
            assert(acceptable(slots, plans, i));
            assert(!repeated(plans, i));
        }
    }
    if (forall|i: int| 0 <= i < plans.len() ==> slots.contains_key((#[trigger] plans[i]).key)) && (
    forall|i: int, j: int|
        0 <= j < i < plans.len() ==> (#[trigger] plans[j]).key != (#[trigger] plans[i]).key) {
        assert forall|i: int| 0 <= i < plans.len() implies #[trigger] acceptable(
            slots,
            plans,
            i,
        ) by {
            assert(slots.contains_key(plans[i].key));
        }
    }
}

/// Where plans are refused, the error is about the first plan whose key was not
/// declared or has a plan before it; that the key was not declared comes first.
pub proof fn lemma_plans_refused(
    slots: Map<Seq<char>, TxnEntryView>,
    plans: Seq<UpdatePlanView>,
    e: MetaErrorView,
    i: int,
)
    requires
        plans_refused(slots, plans, e),
        0 <= i < plans.len(),
        all_acceptable(slots, plans.take(i)),
        !all_acceptable(slots, plans.take(i + 1)),
    ensures
        e == if slots.contains_key(plans[i].key) {
            MetaErrorView::Internal("Duplicate update plan for key "@ + plans[i].key)
        } else {
            MetaErrorView::Internal("Stage generated plan for undeclared key: "@ + plans[i].key)
        },
{
    lemma_plans_accepted(slots, plans.take(i));
    lemma_plans_accepted(slots, plans.take(i + 1));
    let m = choose|m: int|
        {
            &&& 0 <= m < plans.len()
            &&& !(#[trigger] acceptable(slots, plans, m))
            &&& forall|j: int| 0 <= j < m ==> #[trigger] acceptable(slots, plans, j)
            &&& e == plan_error(slots, plans[m])
        };
    let less = plans.take(i);
    let more = plans.take(i + 1);
    if m < i {
        assert(less[m] == plans[m]);
        if repeated(plans, m) {
            let j = choose|j: int| 0 <= j < m && (#[trigger] plans[j]).key == plans[m].key;
            assert(less[j].key == less[m].key);
        }
    }
    if i < m {
        assert forall|k: int| 0 <= k < more.len() implies slots.contains_key(
            (#[trigger] more[k]).key,
        ) by {
            assert(acceptable(slots, plans, k));
        }
        assert forall|k: int, j: int| 0 <= j < k < more.len() implies (#[trigger] more[j]).key != (
        #[trigger] more[k]).key by {
            assert(acceptable(slots, plans, k));
            assert(plans[j].key == more[j].key && plans[k].key == more[k].key);
        }
    }
}

/// A commit grows plan by plan, in order: a plan to write adds the operation
/// that puts its whole value under its key, a plan to delete adds the operation
/// that deletes its key, each with the plan's own condition; a plan to skip adds
/// nothing.
pub proof fn lemma_commit_grows(plans: Seq<UpdatePlanView>, plan: UpdatePlanView)
    ensures
        operations(Seq::empty()) == Seq::<TxnOpView>::empty(),
        conditions(Seq::empty()) == Seq::<CompareView>::empty(),
        match plan.action {
            UpdateActionView::Write(value) => {
                &&& operations(plans.push(plan)) == operations(plans).push(
                    TxnOpView::Put { key: plan.key, value },
                )
                &&& conditions(plans.push(plan)) == conditions(plans).push(plan.compare)
            },
            UpdateActionView::Delete => {
                &&& operations(plans.push(plan)) == operations(plans).push(
                    TxnOpView::Delete { key: plan.key },
                )
                &&& conditions(plans.push(plan)) == conditions(plans).push(plan.compare)
            },
            UpdateActionView::Skip => {
                &&& operations(plans.push(plan)) == operations(plans)
                &&& conditions(plans.push(plan)) == conditions(plans)
            },
        },
{
    reveal(Seq::filter);
    lemma_one_more_plan(plans, plan);
    assert(operations(Seq::empty()) =~= Seq::<TxnOpView>::empty());
    assert(conditions(Seq::empty()) =~= Seq::<CompareView>::empty());
}

/// Each operation of a commit is that of the plan at its place among the plans
/// that change something: the put of exactly the planned value under exactly
/// the planned key, or the deletion of the planned key.
pub proof fn lemma_operation_of_plan(
    plans: Seq<UpdatePlanView>,
    i: int,
    key: Seq<char>,
    value: Seq<u8>,
)
    requires
        0 <= i < active(plans).len(),
    ensures
        operations(plans).len() == active(plans).len(),
        conditions(plans).len() == active(plans).len(),
        conditions(plans)[i] == active(plans)[i].compare,
        operations(plans)[i] == (TxnOpView::Put { key, value }) <==> active(plans)[i].key == key
            && active(plans)[i].action == UpdateActionView::Write(value),
        operations(plans)[i] == (TxnOpView::Delete { key }) <==> active(plans)[i].key == key
            && active(plans)[i].action == UpdateActionView::Delete,
{
    lemma_active_changes(plans, i);
    assert(operations(plans)[i] == op_for(active(plans)[i]));
}

/// The plans that change something are plans of the list, and none of them skips.
pub proof fn lemma_active_changes(plans: Seq<UpdatePlanView>, i: int)
    requires
        0 <= i < active(plans).len(),
    ensures
        !(active(plans)[i].action is Skip),
        exists|k: int| 0 <= k < plans.len() && #[trigger] plans[k] == active(plans)[i],
    decreases plans.len(),
{
    reveal(Seq::filter);
    let before = plans.drop_last();
    if i < active(before).len() {
        lemma_active_changes(before, i);
        let k = choose|k: int| 0 <= k < before.len() && #[trigger] before[k] == active(before)[i];
        assert(plans[k] == active(plans)[i]);
    } else {
        assert(plans[plans.len() - 1] == active(plans)[i]);
    }
}

/// No plan that changes something is lost: its operation and its condition are
/// in the commit, side by side.
pub proof fn lemma_every_change_is_committed(plans: Seq<UpdatePlanView>, k: int) -> (i: int)
    requires
        0 <= k < plans.len(),
        !(plans[k].action is Skip),
    ensures
        0 <= i < operations(plans).len(),
        i < conditions(plans).len(),
        conditions(plans)[i] == plans[k].compare,
        match plans[k].action {
            UpdateActionView::Write(value) => operations(plans)[i] == (TxnOpView::Put {
                key: plans[k].key,
                value,
            }),
            _ => operations(plans)[i] == (TxnOpView::Delete { key: plans[k].key }),
        },
    decreases plans.len(),
{
    let before = plans.drop_last();
    let last = plans.last();
    assert(before.push(last) =~= plans);
    lemma_commit_grows(before, last);
    lemma_commit_lengths(before);
    if k < before.len() {
        assert(before[k] == plans[k]);
        lemma_every_change_is_committed(before, k)
    } else {
        operations(before).len() as int
    }
}

/// A commit has as many conditions as operations, and no more than there are plans.
pub proof fn lemma_commit_lengths(plans: Seq<UpdatePlanView>)
    ensures
        conditions(plans).len() == operations(plans).len(),
        operations(plans).len() <= plans.len(),
    decreases plans.len(),
{
    reveal(Seq::filter);
    if plans.len() > 0 {
        lemma_commit_lengths(plans.drop_last());
    }
}

/// What a stage does with accepted plans: it commits if and only if some plan
/// changes something, and then keeps the result that it worked out; otherwise
/// it ends with a default result. It fails if and only if the plans are refused.
pub proof fn lemma_stage_step<R: Default>(
    slots: Map<Seq<char>, TxnEntryView>,
    plans: Seq<UpdatePlanView>,
    result: R,
    step: Result<StageStep<R>, MetaError>,
)
    requires
        stage_step(slots, plans, result, step),
    ensures
        step is Err <==> !all_acceptable(slots, plans),
        match step {
            Ok(StageStep::Commit { compares, ops, result: kept }) => {
                &&& exists|k: int|
                    0 <= k < plans.len() && !((#[trigger] plans[k]).action is Skip)
                &&& kept == result
                &&& compares@.len() == ops@.len()
                &&& op_views(ops@) == operations(plans)
                &&& compare_views(compares@) == conditions(plans)
            },
            Ok(StageStep::Done(value)) => {
                &&& forall|k: int| 0 <= k < plans.len() ==> (#[trigger] plans[k]).action is Skip
                &&& call_ensures(R::default, (), value)
            },
            Err(e) => plans_refused(slots, plans, e@),
        },
{
    match step {
        Ok(StageStep::Commit { compares, ops, result: kept }) => {
            lemma_commit_lengths(plans);
            assert(op_views(ops@).len() == ops@.len());
            assert(compare_views(compares@).len() == compares@.len());
            assert(active(plans).len() > 0);
            lemma_active_changes(plans, 0);
            let k = choose|k: int| 0 <= k < plans.len() && #[trigger] plans[k] == active(plans)[0];
            assert(!(plans[k].action is Skip));
        },
        Ok(StageStep::Done(value)) => {
            assert forall|k: int| 0 <= k < plans.len() implies (
            #[trigger] plans[k]).action is Skip by {
                if !(plans[k].action is Skip) {
                    let i = lemma_every_change_is_committed(plans, k);
                }
            }
        },
        Err(e) => {},
    }
}

/// A step that a stage planned is what it does with something that `build` gave
/// on what the stage found; an error of `build` is passed on.
pub proof fn lemma_planned<
    R: Default,
    F: Fn(&TxnContext) -> Result<(Vec<UpdatePlan>, R), MetaError>,
>(ctx: &TxnContext, build: &F, step: Result<StageStep<R>, MetaError>)
    requires
        planned(ctx, build, step),
    ensures
        exists|built: Result<(Vec<UpdatePlan>, R), MetaError>|
            {
                &&& #[trigger] call_ensures(*build, (ctx,), built)
                &&& match built {
                    Ok((plans, result)) => stage_step(ctx@, plan_views(plans@), result, step),
                    Err(e) => step == Err::<StageStep<R>, MetaError>(e),
                }
            },
{
}

/// The action for a step: a commit is made as planned, a stage that is done ends
/// with its result and no response, a stage that failed ends with its error.
pub proof fn lemma_action_of<R, T>(
    compares: Vec<Compare>,
    ops: Vec<TxnOp>,
    result: R,
    e: MetaError,
)
    ensures
        action_of::<R, T>(Ok(StageStep::Commit { compares, ops, result })) == (StageAction::<
            R,
            T,
        >::Commit { compares, ops, result }),
        action_of::<R, T>(Ok(StageStep::Done(result))) == StageAction::<R, T>::End(
            Ok((result, None)),
        ),
        action_of::<R, T>(Err(e)) == StageAction::<R, T>::End(Err(e)),
{
}

} // verus!
