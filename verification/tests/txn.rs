use slayerfs_meta::error::MetaError;
use slayerfs_meta::txn::{
    build_ops, decide_stage, on_fetched, plan_stage, settle_stage, start_stage, without_result,
    Compare, KeyValue, StageAction, StageStart, StageStep, TxnContext, TxnOp, TxnOpResponse,
    UpdateAction, UpdatePlan,
};

fn internal(text: &str) -> MetaError {
    MetaError::Internal(text.to_string())
}

fn keys(names: &[&str]) -> Vec<String> {
    names.iter().map(|n| n.to_string()).collect()
}

fn found(value: &[u8], mod_revision: i64) -> TxnOpResponse {
    TxnOpResponse::Get(vec![KeyValue {
        value: value.to_vec(),
        mod_revision,
    }])
}

/// `a` holds [1, 2] since revision 5, `b` does not exist.
fn context() -> TxnContext {
    let responses = vec![found(&[1, 2], 5), TxnOpResponse::Get(vec![])];
    TxnContext::from_responses(&keys(&["a", "b"]), &responses).unwrap()
}

#[test]
fn context_holds_what_was_found() {
    let ctx = context();
    assert_eq!(ctx.value("a"), Some(&[1u8, 2][..]));
    assert_eq!(ctx.value("b"), None);
    assert_eq!(ctx.value("c"), None);
    assert!(ctx.slots.contains_key("b"));
    assert!(!ctx.slots.contains_key("c"));
}

#[test]
fn context_takes_the_first_pair_and_the_last_answer() {
    let responses = vec![
        found(&[1], 1),
        TxnOpResponse::Get(vec![
            KeyValue {
                value: vec![2],
                mod_revision: 2,
            },
            KeyValue {
                value: vec![3],
                mod_revision: 3,
            },
        ]),
        TxnOpResponse::Put,
    ];
    let ctx = TxnContext::from_responses(&keys(&["a", "a"]), &responses).unwrap();
    assert_eq!(ctx.value("a"), Some(&[2u8][..]));
    assert_eq!(ctx.slots.len(), 1);
}

#[test]
fn context_needs_every_answer() {
    let responses = vec![found(&[1], 1), TxnOpResponse::Delete];
    match TxnContext::from_responses(&keys(&["a", "b", "c"]), &responses) {
        Err(e) => assert_eq!(e, internal("Unexpected txn response for key b")),
        Ok(_) => panic!("an answer is of the wrong kind"),
    }
    match TxnContext::from_responses(&keys(&["a", "b"]), &responses[..1]) {
        Err(e) => assert_eq!(e, internal("Missing txn response for key b")),
        Ok(_) => panic!("an answer is missing"),
    }
}

#[test]
fn fetch_asks_for_each_key() {
    assert!(TxnContext::fetch_request(&[]).is_none());
    let ops = TxnContext::fetch_request(&keys(&["a", "b"])).unwrap();
    assert_eq!(ops.len(), 2);
    assert!(matches!(&ops[0], TxnOp::Get { key } if key == "a"));
    assert!(matches!(&ops[1], TxnOp::Get { key } if key == "b"));
}

#[test]
fn fetch_reply_is_filed_or_fails() {
    let ctx = TxnContext::fetch_reply(&keys(&["a"]), Ok(vec![found(&[9], 3)])).unwrap();
    assert_eq!(ctx.value("a"), Some(&[9u8][..]));
    match TxnContext::fetch_reply(&keys(&["a"]), Err("timed out".to_string())) {
        Err(e) => assert_eq!(e, internal("Etcd txn fetch error: timed out")),
        Ok(_) => panic!("the fetch failed"),
    }
}

#[test]
fn value_is_decoded() {
    let ctx = context();
    let sum = |bytes: &[u8]| -> Result<u32, MetaError> {
        Ok(bytes.iter().map(|b| *b as u32).sum())
    };
    assert_eq!(ctx.value_deserialized("a", sum), Ok(Some(3)));
    assert_eq!(ctx.value_deserialized("b", sum), Ok(None));
    assert_eq!(ctx.value_deserialized("c", sum), Ok(None));
    let refuse = |_: &[u8]| -> Result<u32, MetaError> { Err(internal("not a number")) };
    assert_eq!(
        ctx.value_deserialized("a", refuse),
        Err(internal("not a number"))
    );
}

#[test]
fn compare_guards_the_revision() {
    let ctx = context();
    assert!(matches!(
        ctx.compare_for("a"),
        Ok(Compare::ModRevision { key, equals: 5 }) if key == "a"
    ));
    assert!(matches!(
        ctx.compare_for("b"),
        Ok(Compare::Version { key, equals: 0 }) if key == "b"
    ));
    match ctx.compare_for("c") {
        Err(e) => assert_eq!(e, internal("Missing key in transaction context: c")),
        Ok(_) => panic!("the key was not declared"),
    }
}

#[test]
fn plans_need_declared_keys() {
    let ctx = context();
    match UpdatePlan::new_write(&ctx, "c".to_string(), vec![]) {
        Err(e) => assert_eq!(e, internal("Missing key in transaction context: c")),
        Ok(_) => panic!("the key was not declared"),
    }
    match UpdatePlan::new_delete(&ctx, "c".to_string()) {
        Err(e) => assert_eq!(e, internal("Missing key in transaction context: c")),
        Ok(_) => panic!("the key was not declared"),
    }
}

#[test]
fn ops_are_built_in_order() {
    let ctx = context();
    let plans = vec![
        UpdatePlan::new_delete(&ctx, "a".to_string()).unwrap(),
        UpdatePlan::new_write(&ctx, "b".to_string(), vec![7]).unwrap(),
    ];
    let (compares, ops) = build_ops(&ctx, plans).unwrap();
    assert_eq!(compares.len(), 2);
    assert!(matches!(&compares[0], Compare::ModRevision { key, equals: 5 } if key == "a"));
    assert!(matches!(&compares[1], Compare::Version { key, equals: 0 } if key == "b"));
    assert_eq!(ops.len(), 2);
    assert!(matches!(&ops[0], TxnOp::Delete { key } if key == "a"));
    assert!(matches!(&ops[1], TxnOp::Put { key, value } if key == "b" && value == &vec![7]));
}

fn skip(key: &str) -> UpdatePlan {
    UpdatePlan {
        key: key.to_string(),
        compare: Compare::Version {
            key: key.to_string(),
            equals: 0,
        },
        action: UpdateAction::Skip,
    }
}

#[test]
fn skipped_plans_build_nothing() {
    let ctx = context();
    let plans = vec![
        skip("b"),
        UpdatePlan::new_delete(&ctx, "a".to_string()).unwrap(),
    ];
    let (compares, ops) = build_ops(&ctx, plans).unwrap();
    assert_eq!((compares.len(), ops.len()), (1, 1));
}

#[test]
fn ops_refuse_undeclared_and_repeated_keys() {
    let ctx = context();
    let plans = vec![skip("a"), skip("c"), skip("c")];
    assert_eq!(
        build_ops(&ctx, plans).err(),
        Some(internal("Stage generated plan for undeclared key: c"))
    );
    let plans = vec![
        skip("a"),
        UpdatePlan::new_delete(&ctx, "a".to_string()).unwrap(),
        skip("c"),
    ];
    assert_eq!(
        build_ops(&ctx, plans).err(),
        Some(internal("Duplicate update plan for key a"))
    );
}

#[test]
fn stage_that_changes_nothing_has_the_default_result() {
    let ctx = context();
    assert!(matches!(
        decide_stage(&ctx, Ok((vec![], 7u32))),
        Ok(StageStep::Done(0))
    ));
    assert!(matches!(
        decide_stage(&ctx, Ok((vec![skip("a")], 7u32))),
        Ok(StageStep::Done(0))
    ));
}

#[test]
fn stage_commits_its_plans() {
    let ctx = context();
    let build = |ctx: &TxnContext| -> Result<(Vec<UpdatePlan>, u32), MetaError> {
        let plan = UpdatePlan::new_write(ctx, "b".to_string(), vec![7])?;
        Ok((vec![plan], 7))
    };
    match plan_stage(&ctx, &build) {
        Ok(StageStep::Commit {
            compares,
            ops,
            result,
        }) => {
            assert_eq!((compares.len(), ops.len(), result), (1, 1, 7));
        }
        _ => panic!("there is something to commit"),
    }
}

#[test]
fn stage_passes_errors_on() {
    let ctx = context();
    let failed: Result<(Vec<UpdatePlan>, u32), MetaError> = Err(internal("no plan"));
    assert_eq!(decide_stage(&ctx, failed).err(), Some(internal("no plan")));
    assert_eq!(
        decide_stage(&ctx, Ok((vec![skip("c")], 7u32))).err(),
        Some(internal("Stage generated plan for undeclared key: c"))
    );
    assert!(matches!(
        decide_stage(&ctx, without_result(Ok(vec![]))),
        Ok(StageStep::Done(()))
    ));
    assert_eq!(
        without_result(Err(internal("no plan"))).err(),
        Some(internal("no plan"))
    );
}

#[test]
fn stage_ends_with_the_reply() {
    assert_eq!(
        settle_stage(7u32, Ok((true, "done")), true),
        Ok((7, Some("done")))
    );
    assert_eq!(
        settle_stage(7u32, Ok((false, "done")), true),
        Err(MetaError::ContinueRetry)
    );
    assert_eq!(
        settle_stage(7u32, Ok((false, "done")), false),
        Err(MetaError::TxnConflict)
    );
    let failed: Result<(bool, &str), String> = Err("timed out".to_string());
    assert_eq!(
        settle_stage(7u32, failed, true),
        Err(internal("Failed to execute transaction: timed out"))
    );
}

fn append_to_a(ctx: &TxnContext) -> Result<(Vec<UpdatePlan>, u32), MetaError> {
    let mut value = ctx.value("a").unwrap_or(&[]).to_vec();
    value.push(9);
    let plan = UpdatePlan::new_write(ctx, "a".to_string(), value)?;
    Ok((vec![plan], 7))
}

fn never(_: &TxnContext) -> Result<(Vec<UpdatePlan>, u32), MetaError> {
    panic!("nothing was fetched")
}

fn idle(_: &TxnContext) -> Result<(Vec<UpdatePlan>, u32), MetaError> {
    Ok((vec![], 7))
}

#[test]
fn stage_starts_with_its_fetch() {
    let start: StageStart<u32, &str> = start_stage(&keys(&["a"]), &never);
    match start {
        StageStart::Fetch { ops } => {
            assert_eq!(ops.len(), 1);
            assert!(matches!(&ops[0], TxnOp::Get { key } if key == "a"));
        }
        StageStart::Act(_) => panic!("there is a key to fetch"),
    }
}

#[test]
fn stage_without_keys_goes_on_at_once() {
    let start: StageStart<u32, &str> = start_stage(&[], &idle);
    assert!(matches!(
        start,
        StageStart::Act(StageAction::End(Ok((0, None))))
    ));
    let start: StageStart<u32, &str> = start_stage(&[], &append_to_a);
    match start {
        StageStart::Act(StageAction::End(end)) => {
            assert_eq!(end, Err(internal("Missing key in transaction context: a")))
        }
        _ => panic!("the key was not declared"),
    }
}

#[test]
fn stage_plans_from_the_reply_to_its_fetch() {
    let action: StageAction<u32, &str> =
        on_fetched(&keys(&["a"]), Ok(vec![found(&[1, 2], 5)]), &append_to_a);
    match action {
        StageAction::Commit {
            compares,
            ops,
            result,
        } => {
            assert_eq!((compares.len(), ops.len(), result), (1, 1, 7));
            assert!(matches!(&compares[0], Compare::ModRevision { key, equals: 5 } if key == "a"));
            assert!(
                matches!(&ops[0], TxnOp::Put { key, value } if key == "a" && value == &vec![1, 2, 9])
            );
        }
        StageAction::End(_) => panic!("there is something to commit"),
    }
    let action: StageAction<u32, &str> =
        on_fetched(&keys(&["a"]), Ok(vec![found(&[1, 2], 5)]), &idle);
    assert!(matches!(action, StageAction::End(Ok((0, None)))));
}

#[test]
fn stage_ends_before_planning_where_the_fetch_fails() {
    let action: StageAction<u32, &str> =
        on_fetched(&keys(&["a"]), Err("timed out".to_string()), &never);
    match action {
        StageAction::End(end) => {
            assert_eq!(end, Err(internal("Etcd txn fetch error: timed out")))
        }
        _ => panic!("the fetch failed"),
    }
    let action: StageAction<u32, &str> = on_fetched(&keys(&["a"]), Ok(vec![]), &never);
    match action {
        StageAction::End(end) => {
            assert_eq!(end, Err(internal("Missing txn response for key a")))
        }
        _ => panic!("an answer is missing"),
    }
}
