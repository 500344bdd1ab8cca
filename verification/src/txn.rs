//! Optimistic transactions on a key-value store.
//!
//! A transaction runs in stages. A stage fetches the keys that it declared,
//! works out from what it found which of them to write or delete, and commits
//! these changes on the condition that no fetched key it touches has changed
//! meanwhile. This module decides; talking to the store is the caller's part.

use crate::error::{MetaError, MetaErrorView};
use vstd::hash_map::StringHashMap;
use vstd::hash_set::StringHashSet;
use vstd::prelude::*;

verus! {

/// A condition on one key under which a commit takes effect.
#[derive(Debug)]
pub enum Compare {
    /// The number of times the key was written since it was created.
    Version { key: String, equals: i64 },
    /// The revision of the store at which the key was last written.
    ModRevision { key: String, equals: i64 },
}

/// A [`Compare`] with its key as characters.
pub enum CompareView {
    Version { key: Seq<char>, equals: i64 },
    ModRevision { key: Seq<char>, equals: i64 },
}

impl View for Compare {
    type V = CompareView;

    open spec fn view(&self) -> CompareView {
        match self {
            Compare::Version { key, equals } => CompareView::Version { key: key@, equals: *equals },
            Compare::ModRevision { key, equals } => CompareView::ModRevision {
                key: key@,
                equals: *equals,
            },
        }
    }
}

/// One operation of a transaction.
#[derive(Debug)]
pub enum TxnOp {
    Get { key: String },
    Put { key: String, value: Vec<u8> },
    Delete { key: String },
}

/// A [`TxnOp`] with its key as characters and its value as bytes.
pub enum TxnOpView {
    Get { key: Seq<char> },
    Put { key: Seq<char>, value: Seq<u8> },
    Delete { key: Seq<char> },
}

impl View for TxnOp {
    type V = TxnOpView;

    open spec fn view(&self) -> TxnOpView {
        match self {
            TxnOp::Get { key } => TxnOpView::Get { key: key@ },
            TxnOp::Put { key, value } => TxnOpView::Put { key: key@, value: value@ },
            TxnOp::Delete { key } => TxnOpView::Delete { key: key@ },
        }
    }
}

impl TxnOpView {
    /// The key that the operation is about.
    pub open spec fn key(self) -> Seq<char> {
        match self {
            TxnOpView::Get { key } => key,
            TxnOpView::Put { key, value } => key,
            TxnOpView::Delete { key } => key,
        }
    }
}

/// A key's value and the revision at which it was written, as the store holds them.
#[derive(Debug)]
pub struct KeyValue {
    pub value: Vec<u8>,
    pub mod_revision: i64,
}

/// What the store answers to one operation of a transaction.
#[derive(Debug)]
pub enum TxnOpResponse {
    Get(Vec<KeyValue>),
    Put,
    Delete,
    Txn,
}

/// What was found under one key: its value and revision, or no value and
/// revision 0 where the key does not exist.
#[derive(Debug)]
pub struct TxnEntry {
    pub value: Option<Vec<u8>>,
    pub mod_revision: i64,
}

/// A [`TxnEntry`] with its value as bytes.
pub struct TxnEntryView {
    pub value: Option<Seq<u8>>,
    pub mod_revision: i64,
}

impl View for TxnEntry {
    type V = TxnEntryView;

    open spec fn view(&self) -> TxnEntryView {
        TxnEntryView {
            value: match self.value {
                Some(value) => Some(value@),
                None => None,
            },
            mod_revision: self.mod_revision,
        }
    }
}

/// What a stage found under the keys that it declared.
pub struct TxnContext {
    pub slots: StringHashMap<TxnEntry>,
}

impl View for TxnContext {
    type V = Map<Seq<char>, TxnEntryView>;

    open spec fn view(&self) -> Map<Seq<char>, TxnEntryView> {
        self.slots@.map_values(|entry: TxnEntry| entry@)
    }
}

/// The condition that a key has not changed since it was found at a revision:
/// it still does not exist, or its last write is still the same.
pub open spec fn guard_for(key: Seq<char>, mod_revision: i64) -> CompareView {
    if mod_revision == 0 {
        CompareView::Version { key, equals: 0 }
    } else {
        CompareView::ModRevision { key, equals: mod_revision }
    }
}

/// The error for a key that the stage did not declare.
pub open spec fn missing_key(key: Seq<char>) -> MetaErrorView {
    MetaErrorView::Internal("Missing key in transaction context: "@ + key)
}

/// The error for a key that the store answered otherwise than with its value.
pub open spec fn unexpected_response(key: Seq<char>) -> MetaErrorView {
    MetaErrorView::Internal("Unexpected txn response for key "@ + key)
}

/// The error for a key that the store did not answer.
pub open spec fn missing_response(key: Seq<char>) -> MetaErrorView {
    MetaErrorView::Internal("Missing txn response for key "@ + key)
}

/// The fetched key number `i` has its answer.
pub open spec fn answered(responses: Seq<TxnOpResponse>, i: int) -> bool {
    i < responses.len() && responses[i] is Get
}

/// What an answer says of its key: the first key-value pair counts.
pub open spec fn entry_from(response: TxnOpResponse) -> TxnEntryView {
    let kvs = response->Get_0@;
    if kvs.len() > 0 {
        TxnEntryView { value: Some(kvs[0].value@), mod_revision: kvs[0].mod_revision }
    } else {
        TxnEntryView { value: None, mod_revision: 0 }
    }
}

/// Key number `i` is not asked for again further on.
pub open spec fn last_asked(keys: Seq<String>, i: int) -> bool {
    forall|j: int| i < j < keys.len() ==> (#[trigger] keys[j])@ != keys[i]@
}

/// Every key has its answer, and `slots` holds for each key what the answer to
/// its last occurrence says.
pub open spec fn filed(
    keys: Seq<String>,
    responses: Seq<TxnOpResponse>,
    slots: Map<Seq<char>, TxnEntryView>,
) -> bool {
    &&& forall|i: int| 0 <= i < keys.len() ==> #[trigger] answered(responses, i)
    &&& forall|k: Seq<char>| #[trigger]
        slots.contains_key(k) <==> exists|i: int| 0 <= i < keys.len() && (#[trigger] keys[i])@ == k
    &&& forall|i: int|
        0 <= i < keys.len() && #[trigger] last_asked(keys, i) ==> slots[keys[i]@] == entry_from(
            responses[i],
        )
}

/// Some key lacks its answer, and `e` is the error for the first such key.
pub open spec fn not_filed(
    keys: Seq<String>,
    responses: Seq<TxnOpResponse>,
    e: MetaErrorView,
) -> bool {
    exists|i: int|
        {
            &&& 0 <= i < keys.len()
            &&& !(#[trigger] answered(responses, i))
            &&& forall|j: int| 0 <= j < i ==> #[trigger] answered(responses, j)
            &&& e == if i < responses.len() {
                unexpected_response(keys[i]@)
            } else {
                missing_response(keys[i]@)
            }
        }
}

/// The error for a fetch that did not come through.
pub open spec fn fetch_error(text: Seq<char>) -> MetaErrorView {
    MetaErrorView::Internal("Etcd txn fetch error: "@ + text)
}

impl TxnContext {
    /// The condition that `key` has not changed since it was fetched.
    pub fn compare_for(&self, key: &str) -> (res: Result<Compare, MetaError>)
        ensures
            match res {
                Ok(compare) => self@.contains_key(key@) && compare@ == guard_for(
                    key@,
                    self@[key@].mod_revision,
                ),
                Err(e) => !self@.contains_key(key@) && e@ == missing_key(key@),
            },
            match res {
                Ok(Compare::Version { key: named, equals }) => {
                    &&& self.slots@.contains_key(key@)
                    &&& self.slots@[key@].mod_revision == 0
                    &&& named@ == key@
                    &&& equals == 0
                },
                Ok(Compare::ModRevision { key: named, equals }) => {
                    &&& self.slots@.contains_key(key@)
                    &&& self.slots@[key@].mod_revision != 0
                    &&& named@ == key@
                    &&& equals == self.slots@[key@].mod_revision
                },
                Err(MetaError::Internal(text)) => {
                    &&& !self.slots@.contains_key(key@)
                    &&& text@ == "Missing key in transaction context: "@ + key@
                },
                Err(_) => false,
            },
    {
        match self.slots.get(key) {
            None => Err(MetaError::internal("Missing key in transaction context: ", key)),
            Some(entry) => {
                let key = key.to_owned();
                if entry.mod_revision == 0 {
                    Ok(Compare::Version { key, equals: 0 })
                } else {
                    Ok(Compare::ModRevision { key, equals: entry.mod_revision })
                }
            },
        }
    }

    /// The value that was found under `key`.
    pub fn value(&self, key: &str) -> (res: Option<&[u8]>)
        ensures
            match res {
                Some(bytes) => self@.contains_key(key@) && self@[key@].value == Some(bytes@),
                None => !self@.contains_key(key@) || self@[key@].value is None,
            },
            match res {
                Some(bytes) => {
                    &&& self.slots@.contains_key(key@)
                    &&& self.slots@[key@].value matches Some(value)
                    &&& bytes@ == value@
                },
                None => !self.slots@.contains_key(key@) || self.slots@[key@].value is None,
            },
    {
        match self.slots.get(key) {
            Some(entry) => match &entry.value {
                Some(value) => Some(value.as_slice()),
                None => None,
            },
            None => None,
        }
    }

    /// The value that was found under `key`, decoded by `decode`.
    pub fn value_deserialized<T, F: Fn(&[u8]) -> Result<T, MetaError>>(
        &self,
        key: &str,
        decode: F,
    ) -> (res: Result<Option<T>, MetaError>)
        requires
            forall|bytes: &[u8]|
                self@.contains_key(key@) && self@[key@].value == Some(bytes@) ==> call_requires(
                    decode,
                    (bytes,),
                ),
        ensures
            if self@.contains_key(key@) && self@[key@].value is Some {
                exists|bytes: &[u8], decoded: Result<T, MetaError>|
                    {
                        &&& self@[key@].value == Some(bytes@)
                        &&& #[trigger] call_ensures(decode, (bytes,), decoded)
                        &&& res == match decoded {
                            Ok(value) => Ok(Some(value)),
                            Err(e) => Err(e),
                        }
                    }
            } else {
                res == Ok::<Option<T>, MetaError>(None)
            },
    {
        match self.value(key) {
            Some(bytes) => match decode(bytes) {
                Ok(value) => Ok(Some(value)),
                Err(e) => Err(e),
            },
            None => Ok(None),
        }
    }

    /// The operations that fetch `keys`, one for each, in order; none is needed
    /// where there are no keys.
    pub fn fetch_request(keys: &[String]) -> (res: Option<Vec<TxnOp>>)
        ensures
            match res {
                Some(ops) => {
                    &&& keys@.len() > 0
                    &&& ops@.len() == keys@.len()
                    &&& forall|i: int|
                        0 <= i < keys@.len() ==> (#[trigger] ops@[i])@ == (TxnOpView::Get {
                            key: keys@[i]@,
                        })
                },
                None => keys@.len() == 0,
            },
            res matches Some(ops) ==> forall|i: int|
                0 <= i < keys@.len() ==> ((#[trigger] ops@[i]) matches TxnOp::Get { key } && key@
                    == keys@[i]@),
    {
        if keys.len() == 0 {
            return None;
        }
        let mut ops: Vec<TxnOp> = Vec::new();
        for i in 0..keys.len()
            invariant
                ops@.len() == i,
                forall|j: int|
                    0 <= j < i ==> (#[trigger] ops@[j])@ == (TxnOpView::Get { key: keys@[j]@ }),
                forall|j: int|
                    0 <= j < i ==> ((#[trigger] ops@[j]) matches TxnOp::Get { key } && key@
                        == keys@[j]@),
        {
            ops.push(TxnOp::Get { key: keys[i].clone() });
        }
        Some(ops)
    }

    /// Files the store's answers, which come in the order of the keys, under
    /// their keys. Answers beyond the last key are ignored.
    pub fn from_responses(keys: &[String], responses: &[TxnOpResponse]) -> (res: Result<
        TxnContext,
        MetaError,
    >)
        ensures
            match res {
                Ok(ctx) => filed(keys@, responses@, ctx@),
                Err(e) => not_filed(keys@, responses@, e@),
            },
            res is Ok <==> forall|i: int|
                0 <= i < keys@.len() ==> i < responses@.len() && (#[trigger] responses@[i]) is Get,
    {
        let mut slots: StringHashMap<TxnEntry> = StringHashMap::with_capacity(keys.len());
        for i in 0..keys.len()
            invariant
                forall|j: int| 0 <= j < i ==> #[trigger] answered(responses@, j),
                forall|k: Seq<char>| #[trigger]
                    slots@.contains_key(k) <==> exists|j: int|
                        0 <= j < i && (#[trigger] keys@[j])@ == k,
                forall|j: int|
                    0 <= j < i && last_asked(keys@.take(i as int), j) ==> slots@[(
                    #[trigger] keys@[j])@]@ == entry_from(responses@[j]),
        {
            let ghost before = slots@;
            if i >= responses.len() {
                assert(!answered(responses@, i as int));
                return Err(MetaError::internal("Missing txn response for key ", keys[i].as_str()));
            }
            let entry = match &responses[i] {
                TxnOpResponse::Get(kvs) => {
                    if kvs.len() > 0 {
                        TxnEntry {
                            value: Some(kvs[0].value.clone()),
                            mod_revision: kvs[0].mod_revision,
                        }
                    } else {
                        TxnEntry { value: None, mod_revision: 0 }
                    }
                },
                _ => {
                    assert(!answered(responses@, i as int));
                    return Err(
                        MetaError::internal("Unexpected txn response for key ", keys[i].as_str()),
                    );
                },
            };
            proof {
                if entry.value is Some {
                    assert(entry.value->0@ =~= responses@[i as int]->Get_0@[0].value@);
                }
                assert(entry@ == entry_from(responses@[i as int]));
            }
            slots.insert(keys[i].clone(), entry);
            proof {
                assert forall|k: Seq<char>| #[trigger]
                    slots@.contains_key(k) <==> exists|j: int|
                        0 <= j < i + 1 && (#[trigger] keys@[j])@ == k by {
                    if before.contains_key(k) {
                        let j = choose|j: int| 0 <= j < i && (#[trigger] keys@[j])@ == k;
                        assert(0 <= j < i + 1 && keys@[j]@ == k);
                    }
                    if k == keys@[i as int]@ {
                        assert(0 <= i < i + 1 && keys@[i as int]@ == k);
                    }
                }
                assert forall|j: int|
                    0 <= j < i + 1 && last_asked(keys@.take(i + 1), j) implies slots@[(
                #[trigger] keys@[j])@]@ == entry_from(responses@[j]) by {
                    if j < i {
                        let more = keys@.take(i + 1);
                        assert(more[i as int]@ != more[j]@);
                        assert(last_asked(keys@.take(i as int), j)) by {
                            assert forall|m: int| j < m < i implies (#[trigger] keys@.take(
                                i as int,
                            )[m])@ != keys@.take(i as int)[j]@ by {
                                assert(more[m]@ != more[j]@);
                            }
                        }
                    }
                }
            }
        }
        assert(keys@.take(keys@.len() as int) =~= keys@);
        assert forall|i: int| 0 <= i < keys@.len() implies i < responses@.len() && (
        #[trigger] responses@[i]) is Get by {
            assert(answered(responses@, i));
        }
        Ok(TxnContext { slots })
    }

    /// What a stage found, from the store's reply to its fetch: the answers, or
    /// the text of the error with which the fetch failed.
    pub fn fetch_reply(keys: &[String], reply: Result<Vec<TxnOpResponse>, String>) -> (res: Result<
        TxnContext,
        MetaError,
    >)
        ensures
            match (reply, res) {
                (Ok(responses), Ok(ctx)) => filed(keys@, responses@, ctx@),
                (Ok(responses), Err(e)) => not_filed(keys@, responses@, e@),
                (Err(text), Ok(_)) => false,
                (Err(text), Err(e)) => e@ == fetch_error(text@),
            },
    {
        match reply {
            Ok(responses) => TxnContext::from_responses(keys, responses.as_slice()),
            Err(text) => Err(MetaError::internal("Etcd txn fetch error: ", text.as_str())),
        }
    }
}

/// What a plan does to its key.
#[derive(Debug)]
pub enum UpdateAction {
    Write(Vec<u8>),
    Delete,
    Skip,
}

/// An [`UpdateAction`] with its value as bytes.
pub enum UpdateActionView {
    Write(Seq<u8>),
    Delete,
    Skip,
}

impl View for UpdateAction {
    type V = UpdateActionView;

    open spec fn view(&self) -> UpdateActionView {
        match self {
            UpdateAction::Write(value) => UpdateActionView::Write(value@),
            UpdateAction::Delete => UpdateActionView::Delete,
            UpdateAction::Skip => UpdateActionView::Skip,
        }
    }
}

/// A change of one key, and the condition under which it may be made.
#[derive(Debug)]
pub struct UpdatePlan {
    pub key: String,
    pub compare: Compare,
    pub action: UpdateAction,
}

/// An [`UpdatePlan`] with the views of its parts.
pub struct UpdatePlanView {
    pub key: Seq<char>,
    pub compare: CompareView,
    pub action: UpdateActionView,
}

impl View for UpdatePlan {
    type V = UpdatePlanView;

    open spec fn view(&self) -> UpdatePlanView {
        UpdatePlanView { key: self.key@, compare: self.compare@, action: self.action@ }
    }
}

/// The plan to do `action` to `key` on the condition that the key is still as
/// the stage found it.
pub open spec fn guarded_plan(
    slots: Map<Seq<char>, TxnEntryView>,
    key: Seq<char>,
    action: UpdateActionView,
) -> UpdatePlanView {
    UpdatePlanView { key, compare: guard_for(key, slots[key].mod_revision), action }
}

impl UpdatePlan {
    /// Plans to write `value` under `key`.
    pub fn new_write(ctx: &TxnContext, key: String, value: Vec<u8>) -> (res: Result<
        UpdatePlan,
        MetaError,
    >)
        ensures
            match res {
                Ok(plan) => ctx@.contains_key(key@) && plan@ == guarded_plan(
                    ctx@,
                    key@,
                    UpdateActionView::Write(value@),
                ),
                Err(e) => !ctx@.contains_key(key@) && e@ == missing_key(key@),
            },
            match res {
                Ok(plan) => {
                    &&& plan.key == key
                    &&& plan.action == UpdateAction::Write(value)
                    &&& ctx.slots@.contains_key(key@)
                    &&& match plan.compare {
                        Compare::Version { key: named, equals } => {
                            &&& named@ == key@
                            &&& equals == 0
                            &&& ctx.slots@[key@].mod_revision == 0
                        },
                        Compare::ModRevision { key: named, equals } => {
                            &&& named@ == key@
                            &&& equals == ctx.slots@[key@].mod_revision
                            &&& equals != 0
                        },
                    }
                },
                Err(e) => {
                    &&& !ctx.slots@.contains_key(key@)
                    &&& e matches MetaError::Internal(text)
                    &&& text@ == "Missing key in transaction context: "@ + key@
                },
            },
    {
        match ctx.compare_for(key.as_str()) {
            Ok(compare) => Ok(UpdatePlan { key, compare, action: UpdateAction::Write(value) }),
            Err(e) => Err(e),
        }
    }

    /// Plans to delete `key`.
    pub fn new_delete(ctx: &TxnContext, key: String) -> (res: Result<UpdatePlan, MetaError>)
        ensures
            match res {
                Ok(plan) => ctx@.contains_key(key@) && plan@ == guarded_plan(
                    ctx@,
                    key@,
                    UpdateActionView::Delete,
                ),
                Err(e) => !ctx@.contains_key(key@) && e@ == missing_key(key@),
            },
            match res {
                Ok(plan) => {
                    &&& plan.key == key
                    &&& plan.action == UpdateAction::Delete
                    &&& ctx.slots@.contains_key(key@)
                    &&& match plan.compare {
                        Compare::Version { key: named, equals } => {
                            &&& named@ == key@
                            &&& equals == 0
                            &&& ctx.slots@[key@].mod_revision == 0
                        },
                        Compare::ModRevision { key: named, equals } => {
                            &&& named@ == key@
                            &&& equals == ctx.slots@[key@].mod_revision
                            &&& equals != 0
                        },
                    }
                },
                Err(e) => {
                    &&& !ctx.slots@.contains_key(key@)
                    &&& e matches MetaError::Internal(text)
                    &&& text@ == "Missing key in transaction context: "@ + key@
                },
            },
    {
        match ctx.compare_for(key.as_str()) {
            Ok(compare) => Ok(UpdatePlan { key, compare, action: UpdateAction::Delete }),
            Err(e) => Err(e),
        }
    }
}

/// The views of a list of plans.
pub open spec fn plan_views(plans: Seq<UpdatePlan>) -> Seq<UpdatePlanView> {
    plans.map_values(|plan: UpdatePlan| plan@)
}

/// The views of a list of conditions.
pub open spec fn compare_views(compares: Seq<Compare>) -> Seq<CompareView> {
    compares.map_values(|compare: Compare| compare@)
}

/// The views of a list of operations.
pub open spec fn op_views(ops: Seq<TxnOp>) -> Seq<TxnOpView> {
    ops.map_values(|op: TxnOp| op@)
}

/// The key of plan number `i` has a plan before it.
pub open spec fn repeated(plans: Seq<UpdatePlanView>, i: int) -> bool {
    exists|j: int| 0 <= j < i && (#[trigger] plans[j]).key == plans[i].key
}

/// Plan number `i` is about a key that the stage declared, and the first about it.
pub open spec fn acceptable(
    slots: Map<Seq<char>, TxnEntryView>,
    plans: Seq<UpdatePlanView>,
    i: int,
) -> bool {
    slots.contains_key(plans[i].key) && !repeated(plans, i)
}

/// The error for a plan that is not acceptable.
pub open spec fn plan_error(
    slots: Map<Seq<char>, TxnEntryView>,
    plan: UpdatePlanView,
) -> MetaErrorView {
    if slots.contains_key(plan.key) {
        MetaErrorView::Internal("Duplicate update plan for key "@ + plan.key)
    } else {
        MetaErrorView::Internal("Stage generated plan for undeclared key: "@ + plan.key)
    }
}

/// Every plan is acceptable.
pub open spec fn all_acceptable(
    slots: Map<Seq<char>, TxnEntryView>,
    plans: Seq<UpdatePlanView>,
) -> bool {
    forall|i: int| 0 <= i < plans.len() ==> #[trigger] acceptable(slots, plans, i)
}

/// Some plan is not acceptable, and `e` is the error for the first such plan.
pub open spec fn plans_refused(
    slots: Map<Seq<char>, TxnEntryView>,
    plans: Seq<UpdatePlanView>,
    e: MetaErrorView,
) -> bool {
    exists|i: int|
        {
            &&& 0 <= i < plans.len()
            &&& !(#[trigger] acceptable(slots, plans, i))
            &&& forall|j: int| 0 <= j < i ==> #[trigger] acceptable(slots, plans, j)
            &&& e == plan_error(slots, plans[i])
        }
}

/// The plans that change something.
pub open spec fn active(plans: Seq<UpdatePlanView>) -> Seq<UpdatePlanView> {
    plans.filter(|plan: UpdatePlanView| !(plan.action is Skip))
}

/// The operation that makes the change of a plan.
pub open spec fn op_for(plan: UpdatePlanView) -> TxnOpView {
    match plan.action {
        UpdateActionView::Write(value) => TxnOpView::Put { key: plan.key, value },
        _ => TxnOpView::Delete { key: plan.key },
    }
}

/// The conditions of the plans that change something, in order.
pub open spec fn conditions(plans: Seq<UpdatePlanView>) -> Seq<CompareView> {
    active(plans).map_values(|plan: UpdatePlanView| plan.compare)
}

/// The operations of the plans that change something, in order.
pub open spec fn operations(plans: Seq<UpdatePlanView>) -> Seq<TxnOpView> {
    active(plans).map_values(|plan: UpdatePlanView| op_for(plan))
}

/// What one more plan adds to a commit.
pub proof fn lemma_one_more_plan(plans: Seq<UpdatePlanView>, plan: UpdatePlanView)
    ensures
        conditions(plans.push(plan)) == if plan.action is Skip {
            conditions(plans)
        } else {
            conditions(plans).push(plan.compare)
        },
        operations(plans.push(plan)) == if plan.action is Skip {
            operations(plans)
        } else {
            operations(plans).push(op_for(plan))
        },
{
    reveal(Seq::filter);
    assert(plans.push(plan).drop_last() =~= plans);
    assert(conditions(plans.push(plan)) =~= if plan.action is Skip {
        conditions(plans)
    } else {
        conditions(plans).push(plan.compare)
    });
    assert(operations(plans.push(plan)) =~= if plan.action is Skip {
        operations(plans)
    } else {
        operations(plans).push(op_for(plan))
    });
}

/// Turns plans into the conditions and the operations of one commit.
pub fn build_ops(ctx: &TxnContext, plans: Vec<UpdatePlan>) -> (res: Result<
    (Vec<Compare>, Vec<TxnOp>),
    MetaError,
>)
    ensures
        match res {
            Ok((compares, ops)) => {
                &&& all_acceptable(ctx@, plan_views(plans@))
                &&& compare_views(compares@) == conditions(plan_views(plans@))
                &&& op_views(ops@) == operations(plan_views(plans@))
            },
            Err(e) => plans_refused(ctx@, plan_views(plans@), e@),
        },
{
    let ghost views = plan_views(plans@);
    let ghost list = plans@;
    let mut compares: Vec<Compare> = Vec::new();
    let mut ops: Vec<TxnOp> = Vec::new();
    let mut seen_keys = StringHashSet::new();
    proof {
        reveal(Seq::filter);
        assert(compare_views(compares@) =~= conditions(views.take(0)));
        assert(op_views(ops@) =~= operations(views.take(0)));
    }
    for plan in it: plans
        invariant
            it.seq() == list,
            views == plan_views(list),
            forall|j: int| 0 <= j < it.index() ==> #[trigger] acceptable(ctx@, views, j),
            forall|k: Seq<char>| #[trigger]
                seen_keys@.contains(k) <==> exists|j: int|
                    0 <= j < it.index() && (#[trigger] views[j]).key == k,
            compare_views(compares@) == conditions(views.take(it.index() as int)),
            op_views(ops@) == operations(views.take(it.index() as int)),
    {
        let ghost i = it.index() as int;
        let ghost seen_before = seen_keys@;
        let ghost compares0 = compares@;
        let ghost ops0 = ops@;
        assert(views[i] == plan@);
        if !ctx.slots.contains_key(plan.key.as_str()) {
            assert(!acceptable(ctx@, views, i));
            return Err(
                MetaError::internal(
                    "Stage generated plan for undeclared key: ",
                    plan.key.as_str(),
                ),
            );
        }
        if !seen_keys.insert(plan.key.clone()) {
            assert(repeated(views, i));
            assert(!acceptable(ctx@, views, i));
            return Err(MetaError::internal("Duplicate update plan for key ", plan.key.as_str()));
        }
        proof {
            assert(!repeated(views, i)) by {
                if repeated(views, i) {
                    let j = choose|j: int| 0 <= j < i && (#[trigger] views[j]).key == views[i].key;
                    assert(seen_before.contains(views[j].key));
                }
            }
            assert(acceptable(ctx@, views, i));
            assert forall|k: Seq<char>| #[trigger]
                seen_keys@.contains(k) <==> exists|j: int|
                    0 <= j < i + 1 && (#[trigger] views[j]).key == k by {
                if seen_before.contains(k) {
                    let j = choose|j: int| 0 <= j < i && (#[trigger] views[j]).key == k;
                    assert(0 <= j < i + 1 && views[j].key == k);
                }
                if k == views[i].key {
                    assert(0 <= i < i + 1 && views[i].key == k);
                }
            }
            assert(views.take(i + 1) =~= views.take(i).push(views[i]));
            lemma_one_more_plan(views.take(i), views[i]);
        }
        match plan.action {
            UpdateAction::Skip => {},
            UpdateAction::Write(value) => {
                compares.push(plan.compare);
                ops.push(TxnOp::Put { key: plan.key, value });
                proof {
                    assert(compare_views(compares@) =~= compare_views(compares0).push(
                        views[i].compare,
                    ));
                    assert(op_views(ops@) =~= op_views(ops0).push(op_for(views[i])));
                }
            },
            UpdateAction::Delete => {
                compares.push(plan.compare);
                ops.push(TxnOp::Delete { key: plan.key });
                proof {
                    assert(compare_views(compares@) =~= compare_views(compares0).push(
                        views[i].compare,
                    ));
                    assert(op_views(ops@) =~= op_views(ops0).push(op_for(views[i])));
                }
            },
        }
    }
    assert(views.take(views.len() as int) =~= views);
    Ok((compares, ops))
}

/// What a stage does once its plans are made.
pub enum StageStep<R> {
    /// Nothing is to be changed: the stage ends with this result.
    Done(R),
    /// These operations are to be committed under these conditions; `result` is
    /// the stage's result if the store takes them.
    Commit { compares: Vec<Compare>, ops: Vec<TxnOp>, result: R },
}

/// `step` is what a stage does with the plans and the result that it worked out.
/// A stage that changes nothing ends with the default result, whatever result
/// it worked out.
pub open spec fn stage_step<R: Default>(
    slots: Map<Seq<char>, TxnEntryView>,
    plans: Seq<UpdatePlanView>,
    result: R,
    step: Result<StageStep<R>, MetaError>,
) -> bool {
    match step {
        Err(e) => plans_refused(slots, plans, e@),
        Ok(StageStep::Done(value)) => {
            &&& all_acceptable(slots, plans)
            &&& operations(plans).len() == 0
            &&& call_ensures(R::default, (), value)
        },
        Ok(StageStep::Commit { compares, ops, result: kept }) => {
            &&& all_acceptable(slots, plans)
            &&& operations(plans).len() > 0
            &&& compare_views(compares@) == conditions(plans)
            &&& op_views(ops@) == operations(plans)
            &&& kept == result
        },
    }
}

/// Decides what a stage does with what it worked out: its plans and result, or
/// an error.
pub fn decide_stage<R: Default>(
    ctx: &TxnContext,
    built: Result<(Vec<UpdatePlan>, R), MetaError>,
) -> (res: Result<StageStep<R>, MetaError>)
    ensures
        match built {
            Ok((plans, result)) => stage_step(ctx@, plan_views(plans@), result, res),
            Err(e) => res == Err::<StageStep<R>, MetaError>(e),
        },
{
    let (plans, result) = match built {
        Ok(parts) => parts,
        Err(e) => return Err(e),
    };
    let ghost views = plan_views(plans@);
    if plans.len() == 0 {
        proof {
            reveal(Seq::filter);
        }
        return Ok(StageStep::Done(R::default()));
    }
    match build_ops(ctx, plans) {
        Err(e) => Err(e),
        Ok((compares, ops)) => {
            assert(op_views(ops@).len() == ops@.len());
            if ops.len() == 0 {
                Ok(StageStep::Done(R::default()))
            } else {
                Ok(StageStep::Commit { compares, ops, result })
            }
        },
    }
}

/// `step` is what a stage does if it works out its plans by `build` from what it
/// found.
pub open spec fn planned<
    R: Default,
    F: Fn(&TxnContext) -> Result<(Vec<UpdatePlan>, R), MetaError>,
>(ctx: &TxnContext, build: &F, step: Result<StageStep<R>, MetaError>) -> bool {
    exists|built: Result<(Vec<UpdatePlan>, R), MetaError>|
        {
            &&& #[trigger] call_ensures(*build, (ctx,), built)
            &&& match built {
                Ok((plans, result)) => stage_step(ctx@, plan_views(plans@), result, step),
                Err(e) => step == Err::<StageStep<R>, MetaError>(e),
            }
        }
}

/// Lets a stage work out its plans from what it found, and decides what it does
/// with them.
pub fn plan_stage<R: Default, F: Fn(&TxnContext) -> Result<(Vec<UpdatePlan>, R), MetaError>>(
    ctx: &TxnContext,
    build: &F,
) -> (res: Result<StageStep<R>, MetaError>)
    requires
        call_requires(*build, (ctx,)),
    ensures
        planned(ctx, build, res),
{
    let built = build(ctx);
    decide_stage(ctx, built)
}

/// Plans that come without a result, as a stage's work with the empty result.
pub fn without_result(plans: Result<Vec<UpdatePlan>, MetaError>) -> (res: Result<
    (Vec<UpdatePlan>, ()),
    MetaError,
>)
    ensures
        res == match plans {
            Ok(list) => Ok::<(Vec<UpdatePlan>, ()), MetaError>((list, ())),
            Err(e) => Err(e),
        },
{
    match plans {
        Ok(list) => Ok((list, ())),
        Err(e) => Err(e),
    }
}

/// What is to be done for a stage once it has what it asked for.
pub enum StageAction<R, T> {
    /// Commit these operations under these conditions; `result` is the stage's
    /// result if the store takes them.
    Commit { compares: Vec<Compare>, ops: Vec<TxnOp>, result: R },
    /// The stage has come to its end, with its result and the store's response
    /// to the commit, if there was one.
    End(Result<(R, Option<T>), MetaError>),
}

/// How a stage begins.
pub enum StageStart<R, T> {
    /// Fetch the declared keys by these operations.
    Fetch { ops: Vec<TxnOp> },
    /// There is nothing to fetch: go on with this.
    Act(StageAction<R, T>),
}

/// The action for a step. A stage that changes nothing, or fails, ends without
/// a commit and so without a response.
pub open spec fn action_of<R, T>(step: Result<StageStep<R>, MetaError>) -> StageAction<R, T> {
    match step {
        Ok(StageStep::Commit { compares, ops, result }) => StageAction::Commit {
            compares,
            ops,
            result,
        },
        Ok(StageStep::Done(result)) => StageAction::End(Ok((result, None))),
        Err(e) => StageAction::End(Err(e)),
    }
}

/// Turns a step into the action for it.
fn act<R, T>(step: Result<StageStep<R>, MetaError>) -> (res: StageAction<R, T>)
    ensures
        res == action_of::<R, T>(step),
{
    match step {
        Ok(StageStep::Commit { compares, ops, result }) => StageAction::Commit {
            compares,
            ops,
            result,
        },
        Ok(StageStep::Done(result)) => StageAction::End(Ok((result, None))),
        Err(e) => StageAction::End(Err(e)),
    }
}

/// Begins a stage that declares `keys` and works out its plans by `build`.
/// Without keys nothing is fetched, and the plans are worked out from nothing.
pub fn start_stage<R: Default, T, F: Fn(&TxnContext) -> Result<(Vec<UpdatePlan>, R), MetaError>>(
    keys: &[String],
    build: &F,
) -> (res: StageStart<R, T>)
    requires
        forall|ctx: &TxnContext|
            keys@.len() == 0 && ctx@ == Map::<Seq<char>, TxnEntryView>::empty()
                ==> #[trigger] call_requires(*build, (ctx,)),
    ensures
        match res {
            StageStart::Fetch { ops } => {
                &&& keys@.len() > 0
                &&& ops@.len() == keys@.len()
                &&& forall|i: int|
                    0 <= i < keys@.len() ==> (#[trigger] ops@[i])@ == (TxnOpView::Get {
                        key: keys@[i]@,
                    })
            },
            StageStart::Act(action) => {
                &&& keys@.len() == 0
                &&& exists|ctx: &TxnContext, step: Result<StageStep<R>, MetaError>|
                    {
                        &&& ctx@ == Map::<Seq<char>, TxnEntryView>::empty()
                        &&& #[trigger] planned(ctx, build, step)
                        &&& action == action_of::<R, T>(step)
                    }
            },
        },
{
    match TxnContext::fetch_request(keys) {
        Some(ops) => StageStart::Fetch { ops },
        None => {
            let ctx = TxnContext { slots: StringHashMap::new() };
            assert(ctx@ =~= Map::<Seq<char>, TxnEntryView>::empty());
            let step = plan_stage(&ctx, build);
            assert(planned(&ctx, build, step));
            StageStart::Act(act(step))
        },
    }
}

/// Goes on with a stage once the store has replied to its fetch. A fetch that
/// failed, or that left a key without its answer, ends the stage before any
/// plan is worked out; otherwise `build` works out the plans from these very
/// answers.
pub fn on_fetched<R: Default, T, F: Fn(&TxnContext) -> Result<(Vec<UpdatePlan>, R), MetaError>>(
    keys: &[String],
    reply: Result<Vec<TxnOpResponse>, String>,
    build: &F,
) -> (res: StageAction<R, T>)
    requires
        forall|ctx: &TxnContext|
            (reply matches Ok(responses) && filed(keys@, responses@, ctx@))
                ==> #[trigger] call_requires(*build, (ctx,)),
    ensures
        match reply {
            Err(text) => res matches StageAction::End(Err(e)) && e@ == fetch_error(text@),
            Ok(responses) => if forall|i: int|
                0 <= i < keys@.len() ==> #[trigger] answered(responses@, i) {
                exists|ctx: &TxnContext, step: Result<StageStep<R>, MetaError>|
                    {
                        &&& filed(keys@, responses@, ctx@)
                        &&& #[trigger] planned(ctx, build, step)
                        &&& res == action_of::<R, T>(step)
                    }
            } else {
                res matches StageAction::End(Err(e)) && not_filed(keys@, responses@, e@)
            },
        },
{
    match TxnContext::fetch_reply(keys, reply) {
        Err(e) => StageAction::End(Err(e)),
        Ok(ctx) => {
            let step = plan_stage(&ctx, build);
            assert(planned(&ctx, build, step));
            act(step)
        },
    }
}

/// The error for a commit that did not come through.
pub open spec fn commit_error(text: Seq<char>) -> MetaErrorView {
    MetaErrorView::Internal("Failed to execute transaction: "@ + text)
}

/// The end of a stage, from the store's reply to its commit: whether the
/// conditions held together with the response, or the text of the error with
/// which the commit failed. Where the conditions did not hold, the stage is to
/// be run again if `retry_on_conflict` says so.
pub fn settle_stage<R, T>(
    result: R,
    reply: Result<(bool, T), String>,
    retry_on_conflict: bool,
) -> (res: Result<(R, Option<T>), MetaError>)
    ensures
        match reply {
            Ok((true, response)) => res == Ok::<(R, Option<T>), MetaError>(
                (result, Some(response)),
            ),
            Ok((false, response)) => res == Err::<(R, Option<T>), MetaError>(
                if retry_on_conflict {
                    MetaError::ContinueRetry
                } else {
                    MetaError::TxnConflict
                },
            ),
            Err(text) => res matches Err(e) && e@ == commit_error(text@),
        },
        reply matches Err(text) ==> (res matches Err(MetaError::Internal(own)) && own@
            == "Failed to execute transaction: "@ + text@),
{
    match reply {
        Ok((succeeded, response)) => {
            if succeeded {
                Ok((result, Some(response)))
            } else if retry_on_conflict {
                Err(MetaError::ContinueRetry)
            } else {
                Err(MetaError::TxnConflict)
            }
        },
        Err(text) => Err(MetaError::internal("Failed to execute transaction: ", text.as_str())),
    }
}

/// Every fetched key has an entry: that of the answer to its last occurrence.
pub proof fn lemma_every_key_filed(
    keys: Seq<String>,
    responses: Seq<TxnOpResponse>,
    slots: Map<Seq<char>, TxnEntryView>,
    i: int,
) -> (last: int)
    requires
        filed(keys, responses, slots),
        0 <= i < keys.len(),
    ensures
        i <= last < keys.len(),
        keys[last]@ == keys[i]@,
        last_asked(keys, last),
        slots.contains_key(keys[i]@),
        slots[keys[i]@] == entry_from(responses[last]),
    decreases keys.len() - i,
{
    assert(slots.contains_key(keys[i]@));
    if last_asked(keys, i) {
        i
    } else {
        let j = choose|j: int| i < j < keys.len() && (#[trigger] keys[j])@ == keys[i]@;
        lemma_every_key_filed(keys, responses, slots, j)
    }
}

/// The keys and the answers leave no choice as to what is filed.
pub proof fn lemma_filed_unique(
    keys: Seq<String>,
    responses: Seq<TxnOpResponse>,
    a: Map<Seq<char>, TxnEntryView>,
    b: Map<Seq<char>, TxnEntryView>,
)
    requires
        filed(keys, responses, a),
        filed(keys, responses, b),
    ensures
        a == b,
{
    assert forall|k: Seq<char>| #[trigger] a.contains_key(k) implies a[k] == b[k] by {
        let i = choose|i: int| 0 <= i < keys.len() && (#[trigger] keys[i])@ == k;
        let last = lemma_every_key_filed(keys, responses, a, i);
        assert(b[keys[last]@] == entry_from(responses[last]));
    }
    assert forall|k: Seq<char>| a.contains_key(k) <==> b.contains_key(k) by {}
    assert(a =~= b);
}

/// A key found at different revisions is guarded by different conditions.
pub proof fn lemma_guard_tells_revisions(key: Seq<char>, a: i64, b: i64)
    ensures
        guard_for(key, a) == guard_for(key, b) <==> a == b,
{
}

/// Where every plan was made from what the stage found, every operation of the
/// commit has beside it the condition that its key is still as it was found.
pub proof fn lemma_commit_is_guarded(
    slots: Map<Seq<char>, TxnEntryView>,
    plans: Seq<UpdatePlanView>,
    i: int,
)
    requires
        all_acceptable(slots, plans),
        forall|k: int|
            0 <= k < plans.len() ==> (#[trigger] plans[k]) == guarded_plan(
                slots,
                plans[k].key,
                plans[k].action,
            ),
        0 <= i < operations(plans).len(),
    ensures
        conditions(plans).len() == operations(plans).len(),
        slots.contains_key(operations(plans)[i].key()),
        conditions(plans)[i] == guard_for(
            operations(plans)[i].key(),
            slots[operations(plans)[i].key()].mod_revision,
        ),
{
    let k = lemma_active_from(plans, i);
    assert(acceptable(slots, plans, k));
}

/// A commit changes no key twice.
pub proof fn lemma_commit_keys_distinct(
    slots: Map<Seq<char>, TxnEntryView>,
    plans: Seq<UpdatePlanView>,
    i: int,
    j: int,
)
    requires
        all_acceptable(slots, plans),
        0 <= i < j < operations(plans).len(),
    ensures
        operations(plans)[i].key() != operations(plans)[j].key(),
    decreases plans.len(),
{
    reveal(Seq::filter);
    let before = plans.drop_last();
    assert(before.push(plans.last()) =~= plans);
    lemma_one_more_plan(before, plans.last());
    assert(all_acceptable(slots, before)) by {
        assert forall|k: int| 0 <= k < before.len() implies #[trigger] acceptable(
            slots,
            before,
            k,
        ) by {
            assert(acceptable(slots, plans, k));
            if repeated(before, k) {
                let m = choose|m: int| 0 <= m < k && (#[trigger] before[m]).key == before[k].key;
                assert(plans[m].key == plans[k].key);
            }
        }
    }
    if j < operations(before).len() {
        lemma_commit_keys_distinct(slots, before, i, j);
    } else {
        let k = lemma_active_from(before, i);
        let last = plans.len() - 1;
        assert(acceptable(slots, plans, last));
        assert(plans[k].key == before[k].key);
    }
}

/// Each operation of a commit comes from one of the plans.
proof fn lemma_active_from(plans: Seq<UpdatePlanView>, i: int) -> (k: int)
    requires
        0 <= i < active(plans).len(),
    ensures
        0 <= k < plans.len(),
        active(plans)[i] == plans[k],
        operations(plans)[i].key() == plans[k].key,
        conditions(plans)[i] == plans[k].compare,
    decreases plans.len(),
{
    reveal(Seq::filter);
    let before = plans.drop_last();
    if i < active(before).len() {
        lemma_active_from(before, i)
    } else {
        plans.len() - 1
    }
}

} // verus!
